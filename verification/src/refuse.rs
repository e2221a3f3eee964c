//! Whether the tree takes a pattern, found without touching the tree.

use vstd::prelude::*;
use vstd::slice::slice_subrange;
use crate::error::{conflict_route, InsertError, Refusal};
use crate::pattern::{
    check_tail, common, common_len, first, is_wild, lemma_common, lemma_first, seek, starts_with,
    tail_refusal, token_end, token_start, Mark, COLON, SLASH, STAR,
};
use crate::insert::lemma_wild_not_indexed;
use crate::tree::{lemma_sizes_one, lemma_total_bounds, total, Node, NodeType};

verus! {

/// Whether the wildcard `w` that the tree holds disagrees with the pattern
/// that goes on with `tail`: the tail does not begin with the whole token,
/// or goes on behind it with something else than `/`; and nothing goes
/// through a catch-all.
pub open(crate) spec fn clashes<T>(w: Node<T>, tail: Seq<u8>) -> bool {
    ||| tail.len() < w.prefix@.len()
    ||| !w.prefix@.is_prefix_of(tail)
    ||| w.node_type == NodeType::CatchAll
    ||| (w.prefix@.len() < tail.len() && tail[w.prefix@.len() as int] != SLASH)
}

/// What the walk along a pattern needs of the node it stands at, with
/// `route` consumed up to `at`.
pub open(crate) spec fn ready<T>(node: Node<T>, route: Seq<u8>, at: int) -> bool {
    &&& 0 <= at <= route.len()
    &&& node.sound()
    &&& node.priority == node.weight()
    &&& node.priority < u32::MAX
    &&& node.node_type != NodeType::CatchAll
    &&& node.prefix@.len() > 0 ==> node.priority >= 1
    &&& node.node_type == NodeType::Param ==> !clashes(node, route.skip(at))
}

impl<T> Node<T> {
    /// Why this tree does not take `route`, of which the walk has consumed
    /// the first `at` bytes on its way to this node; `None` where it does.
    ///
    /// The walk goes down as long as the pattern agrees with what the tree
    /// holds. It ends in a conflict where the pattern ends at a node that
    /// has a value, or where it goes on with a wildcard that disagrees with
    /// the wildcard child of the node. Where the pattern leaves the tree,
    /// its rest is checked token by token.
    pub open(crate) spec fn refusal(self, route: Seq<u8>, at: int) -> Option<Refusal>
        decreases self,
    {
        let rest = route.skip(at);
        let c = common(rest, self.prefix@);
        let n = self.children@.len() as int;
        if c < self.prefix@.len() {
            if c < rest.len() {
                tail_refusal(route, at + c)
            } else {
                None
            }
        } else if c < rest.len() {
            let next = rest[c];
            let i = first(self.indices@, 0, Mark::Byte(next));
            if self.node_type == NodeType::Param && next == SLASH && n == 1 {
                self.children@[0].refusal(route, at + c)
            } else if 0 <= i < self.indices@.len() && i < n {
                self.children@[i].refusal(route, at + c)
            } else if !is_wild(next) && self.node_type != NodeType::CatchAll {
                tail_refusal(route, at + c)
            } else if self.wild_child && n > 0 {
                if clashes(self.children@[n - 1], rest.skip(c)) {
                    Some(Refusal::Conflict { with: conflict_route(route, at + c, self.children@[n - 1]) })
                } else {
                    self.children@[n - 1].refusal(route, at + c)
                }
            } else {
                tail_refusal(route, at + c)
            }
        } else if self.value is Some {
            Some(Refusal::Conflict { with: conflict_route(route, at, self) })
        } else {
            None
        }
    }
}

/// The child that the walk goes to is ready for it.
pub(crate) proof fn lemma_ready_child<T>(node: Node<T>, route: Seq<u8>, at: int, idx: int)
    requires
        ready(node, route, at),
        common(route.skip(at), node.prefix@) == node.prefix@.len(),
        at + node.prefix@.len() < route.len(),
        0 <= idx < node.children@.len(),
        idx < node.indices@.len() || (node.wild_child && !clashes(
            node.children@[idx],
            route.skip(at + node.prefix@.len()),
        )),
    ensures
        ready(node.children@[idx], route, at + node.prefix@.len()),
{
    let child = node.children@[idx];
    assert(child.sound());
    lemma_total_bounds(node.children@, idx);
    if idx < node.indices@.len() {
        assert(child.node_type == NodeType::Static);
    }
}

impl<T> Node<T> {
    /// Whether the wildcard child `w` disagrees with `route` from `at` on.
    pub(crate) fn clash(w: &Node<T>, route: &[u8], at: usize) -> (r: bool)
        requires
            at <= route@.len(),
        ensures
            r == clashes(*w, route@.skip(at as int)),
    {
        let tail = slice_subrange(route, at, route.len());
        let len: usize = w.prefix.len();
        tail.len() < len || !starts_with(tail, w.prefix.as_slice()) || w.node_type
            == NodeType::CatchAll || (len < tail.len() && tail[len] != SLASH)
    }

    /// Walks the tree along `route` from `at` on and says why the tree does
    /// not take the pattern, if it does not. The tree is only read.
    pub(crate) fn refuse(&self, route: &[u8], at: usize) -> (r: Option<InsertError>)
        requires
            ready(*self, route@, at as int),
        ensures
            r is Some <==> self.refusal(route@, at as int) is Some,
            r is Some ==> r.unwrap().reports(self.refusal(route@, at as int).unwrap()),
    {
        let whole: usize = route.len();
        let mut current: &Node<T> = self;
        let mut from: usize = at;
        loop
            invariant
                whole == route@.len(),
                ready(*current, route@, from as int),
                self.refusal(route@, at as int) == current.refusal(route@, from as int),
            decreases current.size(),
        {
            let c: usize = common_len(route, from, current.prefix.as_slice());
            let tail: usize = from + c;
            let ghost rest = route@.skip(from as int);
            proof {
                lemma_common(rest, current.prefix@);
                assert(rest.skip(c as int) =~= route@.skip(tail as int));
            }
            if c < current.prefix.len() {
                if tail < whole {
                    return check_tail(route, tail);
                }
                return None;
            }
            if tail < whole {
                let next: u8 = route[tail];
                assert(next == rest[c as int]);
                if current.node_type == NodeType::Param && next == SLASH && current.children.len()
                    == 1 {
                    proof {
                        lemma_ready_child(*current, route@, from as int, 0);
                        lemma_sizes_one(current.children@, 1, 0);
                    }
                    current = &current.children[0];
                    from = tail;
                    continue ;
                }
                let i: usize = seek(current.indices.as_slice(), 0, Mark::Byte(next));
                if i < current.indices.len() {
                    proof {
                        lemma_ready_child(*current, route@, from as int, i as int);
                        lemma_sizes_one(current.children@, current.children@.len(), i as int);
                    }
                    current = &current.children[i];
                    from = tail;
                    continue ;
                }
                if !(next == COLON || next == STAR) && current.node_type != NodeType::CatchAll {
                    return check_tail(route, tail);
                }
                if current.wild_child {
                    let last: usize = current.children.len() - 1;
                    let w: &Node<T> = &current.children[last];
                    if Self::clash(w, route, tail) {
                        return Some(InsertError::conflict(route, tail, w));
                    }
                    proof {
                        lemma_ready_child(*current, route@, from as int, last as int);
                        lemma_sizes_one(current.children@, current.children@.len(), last as int);
                    }
                    current = w;
                    from = tail;
                    continue ;
                }
                return check_tail(route, tail);
            }
            if current.value.is_some() {
                return Some(InsertError::conflict(route, from, current));
            }
            return None;
        }
    }
}


/// A pattern that the tree holds below a node is refused there, as a
/// conflict with itself.
pub(crate) proof fn lemma_held_refused<T>(node: Node<T>, route: Seq<u8>, at: int)
    requires
        ready(node, route, at),
        node.value_of(route.skip(at)) is Some,
    ensures
        node.refusal(route, at) == Some(Refusal::Conflict { with: route }),
    decreases node,
{
    let rest = route.skip(at);
    let p = node.prefix@;
    let n = node.children@.len() as int;
    lemma_common(rest, p);
    if rest != p {
        let c = p.len() as int;
        let tail = rest.skip(c);
        assert(tail =~= route.skip(at + c));
        let next = tail[0];
        let i = node.slot(next);
        lemma_first(node.indices@, 0, Mark::Byte(next));
        assert(node.children@[i].value_of(tail) is Some);
        if node.node_type == NodeType::Param && next == SLASH && n == 1 {
            lemma_ready_child(node, route, at, 0);
            lemma_held_refused(node.children@[0], route, at + c);
        } else if i < node.indices@.len() {
            lemma_ready_child(node, route, at, i);
            lemma_held_refused(node.children@[i], route, at + c);
        } else {
            let w = node.children@[n - 1];
            assert(w.sound());
            assert(is_wild(next));
            if clashes(w, tail) {
                assert(w.prefix@.is_prefix_of(tail));
                if w.node_type != NodeType::CatchAll {
                    let after = tail.skip(w.prefix@.len() as int);
                    lemma_first(w.indices@, 0, Mark::Byte(after[0]));
                    assert(0 <= w.slot(after[0]) < w.children@.len());
                    assert(false);
                }
                assert(tail == w.prefix@);
            } else {
                lemma_ready_child(node, route, at, n - 1);
                lemma_held_refused(w, route, at + c);
            }
        }
    }
}

/// A well-formed tree refuses a pattern that it holds, as a conflict with
/// that pattern: no pattern is put in twice.
pub proof fn lemma_no_second_time<T>(tree: Node<T>, route: Seq<u8>)
    requires
        tree.wf(),
        tree.count() < u32::MAX,
        tree.routes().contains_key(route),
    ensures
        tree.rejection(route) == Some(Refusal::Conflict { with: route }),
{
    assert(route.skip(0) =~= route);
    lemma_held_refused(tree, route, 0);
}


/// Whether every wildcard byte among the first `at` bytes of `route` has a
/// `/` behind it, no later than at `at`.
pub(crate) open spec fn closed_tokens(route: Seq<u8>, at: int) -> bool {
    forall|j: int|
        0 <= j < at && is_wild(#[trigger] route[j]) ==> exists|s: int|
            j < s <= at && s < route.len() && #[trigger] route[s] == SLASH
}

/// The tokens stay closed on the way down to a child.
proof fn lemma_closed_child<T>(node: Node<T>, route: Seq<u8>, at: int)
    requires
        ready(node, route, at),
        closed_tokens(route, at),
        common(route.skip(at), node.prefix@) == node.prefix@.len(),
        at + node.prefix@.len() < route.len(),
    ensures
        closed_tokens(route, at + node.prefix@.len()),
{
    let p = node.prefix@;
    let rest = route.skip(at);
    let to = at + p.len();
    lemma_common(rest, p);
    assert forall|j: int| 0 <= j < to && is_wild(#[trigger] route[j]) implies exists|s: int|
        j < s <= to && s < route.len() && #[trigger] route[s] == SLASH by {
        if j < at {
            let s = choose|s: int| j < s <= at && s < route.len() && #[trigger] route[s] == SLASH;
            assert(j < s <= to && route[s] == SLASH);
        } else {
            assert(route[j] == rest[j - at]);
            assert(rest[j - at] == p[j - at]) by {
                assert(p =~= rest.subrange(0, p.len() as int));
                assert(rest.subrange(0, p.len() as int)[j - at] == rest[j - at]);
            }
            assert(node.node_type == NodeType::Param);
            assert(j == at);
            assert(route[to] == rest[p.len() as int]);
            assert(j < to <= to && route[to] == SLASH);
        }
    }
}

/// A leaf is reached along the first children, and the tree holds the
/// pattern that ends there.
proof fn lemma_first_leaf<T>(node: Node<T>)
    requires
        node.sound(),
        node.priority == node.weight(),
        node.priority >= 1,
    ensures
        node.value_of(node.prefix@ + node.first_chain()) is Some,
    decreases node,
{
    let p = node.prefix@;
    if node.children@.len() == 0 {
        assert(total(node.children@) == 0);
        assert(p + node.first_chain() =~= p);
    } else {
        let child = node.children@[0];
        assert(child.sound());
        lemma_first_leaf(child);
        let x = child.prefix@ + child.first_chain();
        let r = p + x;
        assert(p.is_prefix_of(r)) by {
            assert(p =~= r.subrange(0, p.len() as int));
        }
        assert(r.skip(p.len() as int) =~= x);
        assert(x[0] == child.prefix@[0]);
        lemma_first(node.indices@, 0, Mark::Byte(x[0]));
        if node.indices@.len() > 0 {
            assert(node.indices@[0] == x[0]);
        }
        assert(node.slot(x[0]) == 0);
    }
}

/// The token of a wildcard child does not end what the walk has consumed
/// on its way to the child.
proof fn lemma_token_not_behind<T>(node: Node<T>, route: Seq<u8>, at: int)
    requires
        ready(node, route, at),
        closed_tokens(route, at),
        at > 0 ==> node.prefix@.len() > 0,
        common(route.skip(at), node.prefix@) == node.prefix@.len(),
        at + node.prefix@.len() <= route.len(),
        node.wild_child,
        node.children@.len() > 0,
    ensures
        !node.children@.last().prefix@.is_suffix_of(route.take(at + node.prefix@.len())),
{
    let rest = route.skip(at);
    let p = node.prefix@;
    let c = p.len() as int;
    let w = node.children@[node.children@.len() - 1];
    let t = w.prefix@;
    let base = route.take(at + c);
    lemma_common(rest, p);
    assert(w.sound());
    if t.is_suffix_of(base) {
        let j = base.len() - t.len();
        assert(t =~= base.subrange(j, base.len() as int));
        assert(base.subrange(j, base.len() as int)[0] == base[j]);
        assert(route[j] == base[j]);
        assert(is_wild(route[j]));
        if j < at {
            let s = choose|s: int| j < s <= at && s < route.len() && #[trigger] route[s] == SLASH;
            assert(base[s] == route[s]);
            assert(t[s - j] == base.subrange(j, base.len() as int)[s - j]);
            assert(false);
        } else {
            assert(route[j] == rest[j - at]);
            assert(p =~= rest.subrange(0, c));
            assert(rest.subrange(0, c)[j - at] == rest[j - at]);
            assert(false);
        }
    }
}

/// The pattern that a clash with a wildcard child names is one that the
/// node holds.
proof fn lemma_clash_held<T>(node: Node<T>, route: Seq<u8>, at: int) -> (x: Seq<u8>)
    requires
        ready(node, route, at),
        closed_tokens(route, at),
        at > 0 ==> node.prefix@.len() > 0,
        common(route.skip(at), node.prefix@) == node.prefix@.len(),
        at + node.prefix@.len() < route.len(),
        node.wild_child,
        node.children@.len() > 0,
        clashes(node.children@.last(), route.skip(at + node.prefix@.len())),
    ensures
        node.value_of(x) is Some,
        conflict_route(route, at + node.prefix@.len(), node.children@.last()) == route.take(at)
            + x,
{
    let rest = route.skip(at);
    let p = node.prefix@;
    let c = p.len() as int;
    let n = node.children@.len() as int;
    let w = node.children@[n - 1];
    let t = w.prefix@;
    let tail = route.skip(at + c);
    lemma_common(rest, p);
    assert(w.sound());
    assert(route =~= route.take(at) + rest);
    assert(rest =~= p + tail);
    if tail == t {
        assert(w.node_type == NodeType::CatchAll);
        lemma_lift(node, n - 1, tail);
        rest
    } else {
        lemma_token_not_behind(node, route, at);
        lemma_first_leaf(w);
        let x0 = t + w.first_chain();
        lemma_lift(node, n - 1, x0);
        assert((route.take(at + c) + t) + w.first_chain() =~= route.take(at) + (p + x0));
        p + x0
    }
}

/// The pattern that a conflict names is one that the tree holds below the
/// node, behind what the walk has consumed.
proof fn lemma_conflict_held<T>(node: Node<T>, route: Seq<u8>, at: int) -> (x: Seq<u8>)
    requires
        ready(node, route, at),
        closed_tokens(route, at),
        at > 0 ==> node.prefix@.len() > 0,
        node.refusal(route, at) is Some,
        node.refusal(route, at)->Some_0 is Conflict,
    ensures
        node.value_of(x) is Some,
        node.refusal(route, at)->Some_0->with == route.take(at) + x,
    decreases node,
{
    let rest = route.skip(at);
    let p = node.prefix@;
    let n = node.children@.len() as int;
    let c = common(rest, p);
    lemma_common(rest, p);
    assert(route =~= route.take(at) + rest);
    lemma_tail_no_conflict(route, at + c);
    if c < p.len() {
        rest
    } else if c < rest.len() {
        let next = rest[c];
        let i = first(node.indices@, 0, Mark::Byte(next));
        lemma_first(node.indices@, 0, Mark::Byte(next));
        assert(rest.skip(c) =~= route.skip(at + c));
        let idx = if node.node_type == NodeType::Param && next == SLASH && n == 1 {
            0
        } else if i < node.indices@.len() {
            i
        } else {
            n - 1
        };
        if (node.node_type == NodeType::Param && next == SLASH && n == 1) || i
            < node.indices@.len() || (is_wild(next) && node.wild_child && !clashes(
            node.children@[n - 1],
            rest.skip(c),
        )) {
            lemma_ready_child(node, route, at, idx);
            lemma_closed_child(node, route, at);
            let child = node.children@[idx];
            let x0 = lemma_conflict_held(child, route, at + c);
            lemma_lift(node, idx, x0);
            assert(route.take(at + c) + x0 =~= route.take(at) + (p + x0));
            p + x0
        } else if !is_wild(next) && node.node_type != NodeType::CatchAll {
            rest
        } else if node.wild_child && n > 0 {
            lemma_clash_held(node, route, at)
        } else {
            rest
        }
    } else {
        assert(rest =~= p);
        rest
    }
}

/// The check of a tail never names a conflict.
proof fn lemma_tail_no_conflict(route: Seq<u8>, at: int)
    ensures
        tail_refusal(route, at) is Some ==> !(tail_refusal(route, at)->Some_0 is Conflict),
    decreases route.len() - at,
{
    reveal(tail_refusal);
    let rest = route.skip(at);
    let start = token_start(rest);
    let end = token_end(rest);
    if 0 <= at <= route.len() {
        lemma_first(rest, 0, Mark::Wild);
        if start < rest.len() && start < end < rest.len() {
            lemma_tail_no_conflict(route, at + end);
        }
    }
}

/// What a child holds, its parent holds behind its prefix.
proof fn lemma_lift<T>(node: Node<T>, i: int, x: Seq<u8>)
    requires
        node.sound(),
        0 <= i < node.children@.len(),
        node.children@[i].value_of(x) is Some,
    ensures
        node.value_of(node.prefix@ + x) == node.children@[i].value_of(x),
{
    let p = node.prefix@;
    let child = node.children@[i];
    assert(child.sound());
    assert(child.prefix@.is_prefix_of(x));
    assert(x[0] == child.prefix@[0]) by {
        assert(child.prefix@ =~= x.subrange(0, child.prefix@.len() as int));
        assert(x.subrange(0, child.prefix@.len() as int)[0] == x[0]);
    }
    let r = p + x;
    assert(p.is_prefix_of(r)) by {
        assert(p =~= r.subrange(0, p.len() as int));
    }
    assert(r.skip(p.len() as int) =~= x);
    lemma_first(node.indices@, 0, Mark::Byte(x[0]));
    if i < node.indices@.len() {
        let j = first(node.indices@, 0, Mark::Byte(x[0]));
        if j < i {
            assert(node.indices@[j] != node.indices@[i]);
        }
    } else {
        lemma_wild_not_indexed(node, x[0]);
    }
    assert(node.slot(x[0]) == i);
}

/// The pattern that a conflict names is a pattern that the tree holds: the
/// one that stands in the way of the new one.
pub proof fn lemma_conflict_names_held<T>(tree: Node<T>, route: Seq<u8>)
    requires
        tree.wf(),
        tree.count() < u32::MAX,
        tree.rejection(route) is Some,
        tree.rejection(route)->Some_0 is Conflict,
    ensures
        tree.routes().contains_key(tree.rejection(route)->Some_0->with),
{
    if tree.blank() {
        lemma_tail_no_conflict(route, 0);
    } else {
        let x = lemma_conflict_held(tree, route, 0);
        assert(route.take(0) + x =~= x);
    }
}


/// Where all patterns of a well-formed tree are text, the pattern that a
/// conflict names is the text of a pattern that the tree holds.
pub proof fn lemma_conflict_text<T>(tree: Node<T>, route: Seq<u8>, e: InsertError)
    requires
        tree.wf(),
        tree.all_text(),
        tree.count() < u32::MAX,
        tree.rejection(route) is Some,
        e.reports(tree.rejection(route).unwrap()),
        e is Conflict,
    ensures
        tree.rejection(route)->Some_0 is Conflict,
        tree.routes().contains_key(tree.rejection(route)->Some_0->with),
        e->with@ == vstd::utf8::decode_utf8(tree.rejection(route)->Some_0->with),
{
    lemma_conflict_names_held(tree, route);
}

} // verus!
