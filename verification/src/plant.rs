//! Changing the tree for a pattern that it takes.

use vstd::prelude::*;
use crate::insert::{lemma_adds_only, lemma_bare};
use crate::pattern::{
    common, common_len, first, is_wild, lemma_agree, lemma_common, lemma_first, lemma_first_is,
    seek, tail_refusal, token_start, Mark, COLON, SLASH, STAR,
};
use crate::refuse::{lemma_ready_child, ready};
use crate::order::{lemma_moved, lemma_moved_first, moved, shift, unshift};
use crate::routes::{
    adds, grafts, lemma_adds_same, lemma_graft, lemma_rewire, lemma_same_parts,
    lemma_same_values_refl, lemma_same_values_sym, only, same_values,
};
use crate::tree::{
    lemma_total_insert, lemma_total_remove, lemma_total_update, total, Node, NodeType,
};

verus! {

/// What a node is like once a pattern has been planted into it: it is in
/// order again, one value heavier, and holds the new value besides the old
/// ones. Its own priority is left to the one who called.
pub(crate) open spec fn planted<T>(
    before: Node<T>,
    after: Node<T>,
    route: Seq<u8>,
    at: int,
    val: T,
) -> bool {
    &&& after.sound()
    &&& after.weight() == before.weight() + 1
    &&& after.priority == before.priority
    &&& after.node_type == before.node_type
    &&& common(route.skip(at), before.prefix@) >= 1 ==> after.prefix@.len() >= 1
        && after.prefix@[0] == before.prefix@[0]
    &&& adds(before, after, route.skip(at), val)
}

/// A node split in two holds what it held.
pub(crate) proof fn lemma_split_same<T>(before: Node<T>, after: Node<T>)
    requires
        after.prefix@.len() < before.prefix@.len(),
        after.prefix@ == before.prefix@.take(after.prefix@.len() as int),
        after.value is None,
        after.children@.len() == 1,
        after.indices@ == seq![before.prefix@[after.prefix@.len() as int]],
        !after.wild_child,
        after.children@[0].prefix@ == before.prefix@.skip(after.prefix@.len() as int),
        after.children@[0].value == before.value,
        after.children@[0].children@ == before.children@,
        after.children@[0].indices@ == before.indices@,
        after.children@[0].wild_child == before.wild_child,
    ensures
        same_values(before, after),
{
    reveal(same_values);
    let p = before.prefix@;
    let c = after.prefix@.len() as int;
    let p1 = after.prefix@;
    let p2 = p.skip(c);
    let child = after.children@[0];
    assert(p =~= p1 + p2);
    assert forall|q: Seq<u8>| #[trigger] before.value_of(q) == after.value_of(q) by {
        if q.len() > c && p1.is_prefix_of(q) {
            let rest = q.skip(c);
            assert(q =~= p1 + rest);
            lemma_first(after.indices@, 0, Mark::Byte(rest[0]));
            if rest[0] == p[c] {
                assert(after.slot(rest[0]) == 0);
                assert(after.value_of(q) == child.value_of(rest));
                if rest == p2 {
                    assert(q =~= p);
                } else if rest.len() > p2.len() && p2.is_prefix_of(rest) {
                    assert(p.is_prefix_of(q)) by {
                        assert(p =~= q.subrange(0, p.len() as int));
                    }
                    assert(rest.skip(p2.len() as int) =~= q.skip(p.len() as int));
                    assert(child.slot(rest.skip(p2.len() as int)[0]) == before.slot(
                        q.skip(p.len() as int)[0],
                    ));
                } else {
                    if q.len() > p.len() && p.is_prefix_of(q) {
                        assert(p2 =~= rest.subrange(0, p2.len() as int));
                    }
                    if q == p {
                        assert(rest =~= p2);
                    }
                }
            } else {
                assert(after.slot(rest[0]) == 1);
                if q.len() >= p.len() && p.is_prefix_of(q) {
                    assert(q.subrange(0, p.len() as int)[c] == q[c]);
                }
            }
        } else {
            if q.len() >= p.len() && p.is_prefix_of(q) {
                assert(p1 =~= q.subrange(0, c));
            }
        }
    }
}

/// A new static child that holds one pattern is grafted.
pub(crate) proof fn lemma_attach<T>(before: Node<T>, after: Node<T>, x: Seq<u8>, val: T)
    requires
        before.sound(),
        x.len() > 0,
        !is_wild(x[0]),
        first(before.indices@, 0, Mark::Byte(x[0])) == before.indices@.len(),
        after.prefix@ == before.prefix@,
        after.value == before.value,
        after.wild_child == before.wild_child,
        after.indices@ == before.indices@.push(x[0]),
        after.children@.len() == before.children@.len() + 1,
        after.children@ == before.children@.insert(
            before.indices@.len() as int,
            after.children@[before.indices@.len() as int],
        ),
        only(after.children@[before.indices@.len() as int], x, val),
    ensures
        grafts(before, after, x, val),
{
    let s = before.indices@.len() as int;
    let n = before.children@.len() as int;
    let g = after.children@[s];
    assert forall|b: u8| b != x[0] implies {
        let i = #[trigger] before.slot(b);
        let j = after.slot(b);
        &&& 0 <= i < before.children@.len() <==> 0 <= j < after.children@.len()
        &&& 0 <= i < before.children@.len() ==> same_values(
            before.children@[i],
            after.children@[j],
        )
    } by {
        let i = first(before.indices@, 0, Mark::Byte(b));
        lemma_first(before.indices@, 0, Mark::Byte(b));
        if i < s {
            lemma_first_is(after.indices@, 0, Mark::Byte(b), i);
            assert(after.children@[i] == before.children@[i]);
            lemma_same_values_refl(before.children@[i]);
        } else {
            lemma_first_is(after.indices@, 0, Mark::Byte(b), s + 1);
            if before.wild_child {
                assert(after.children@[n] == before.children@[n - 1]);
                lemma_same_values_refl(before.children@[n - 1]);
            }
        }
    }
    lemma_first(before.indices@, 0, Mark::Byte(x[0]));
    assert forall|j: int| 0 <= j < s implies !Mark::Byte(x[0]).hits(
        #[trigger] after.indices@[j],
    ) by {
        assert(after.indices@[j] == before.indices@[j]);
    }
    lemma_first_is(after.indices@, 0, Mark::Byte(x[0]), s);
    if before.wild_child {
        assert(before.children@[n - 1].sound());
    }
    lemma_graft(before, after, x, val);
}

/// A child that took the pattern and stays where it is grafts it.
pub(crate) proof fn lemma_update<T>(before: Node<T>, after: Node<T>, idx: int, x: Seq<u8>, val: T)
    requires
        before.sound(),
        x.len() > 0,
        0 <= idx < before.children@.len(),
        idx == before.slot(x[0]),
        after.prefix@ == before.prefix@,
        after.value == before.value,
        after.wild_child == before.wild_child,
        after.indices@ == before.indices@,
        after.children@ == before.children@.update(idx, after.children@[idx]),
        after.children@[idx].prefix@.len() > 0,
        after.children@[idx].prefix@[0] == before.children@[idx].prefix@[0],
        adds(before.children@[idx], after.children@[idx], x, val),
    ensures
        grafts(before, after, x, val),
{
    let n = before.children@.len() as int;
    assert forall|b: u8| b != x[0] implies {
        let i = #[trigger] before.slot(b);
        let j = after.slot(b);
        &&& 0 <= i < before.children@.len() <==> 0 <= j < after.children@.len()
        &&& 0 <= i < before.children@.len() ==> same_values(
            before.children@[i],
            after.children@[j],
        )
    } by {
        let i = before.slot(b);
        lemma_first(before.indices@, 0, Mark::Byte(b));
        lemma_first(before.indices@, 0, Mark::Byte(x[0]));
        assert(after.slot(b) == i);
        if 0 <= i < n {
            assert(i != idx);
            assert(after.children@[i] == before.children@[i]);
            lemma_same_values_refl(before.children@[i]);
        }
    }
    lemma_first(before.indices@, 0, Mark::Byte(x[0]));
    assert(after.slot(x[0]) == idx);
    lemma_graft(before, after, x, val);
}

/// A static child that took the pattern and moved towards the front grafts
/// it.
pub(crate) proof fn lemma_descend<T>(
    before: Node<T>,
    after: Node<T>,
    i: int,
    u: int,
    x: Seq<u8>,
    val: T,
)
    requires
        before.sound(),
        x.len() > 0,
        0 <= u <= i < before.indices@.len(),
        x[0] == before.indices@[i],
        after.prefix@ == before.prefix@,
        after.value == before.value,
        after.wild_child == before.wild_child,
        after.indices@ == moved(before.indices@, i, u, before.indices@[i]),
        after.children@ == moved(before.children@, i, u, after.children@[u]),
        after.children@[u].prefix@.len() > 0,
        adds(before.children@[i], after.children@[u], x, val),
    ensures
        grafts(before, after, x, val),
{
    let s = before.indices@.len() as int;
    let n = before.children@.len() as int;
    lemma_moved(before.children@, i, u, after.children@[u]);
    assert forall|b: u8| b != x[0] implies {
        let i2 = #[trigger] before.slot(b);
        let j2 = after.slot(b);
        &&& 0 <= i2 < before.children@.len() <==> 0 <= j2 < after.children@.len()
        &&& 0 <= i2 < before.children@.len() ==> same_values(
            before.children@[i2],
            after.children@[j2],
        )
    } by {
        let j = first(before.indices@, 0, Mark::Byte(b));
        lemma_first(before.indices@, 0, Mark::Byte(b));
        lemma_moved_first(before.indices@, i, u, b);
        if j < s {
            assert(j != i);
            assert(after.children@[shift(j, i, u)] == before.children@[j]);
            lemma_same_values_refl(before.children@[j]);
        } else if before.wild_child {
            assert(shift(n - 1, i, u) == n - 1);
            assert(after.children@[shift(n - 1, i, u)] == before.children@[n - 1]);
            lemma_same_values_refl(before.children@[n - 1]);
        }
    }
    lemma_first(before.indices@, 0, Mark::Byte(x[0]));
    lemma_first_is(before.indices@, 0, Mark::Byte(x[0]), i);
    lemma_moved_first(before.indices@, i, u, x[0]);
    assert(after.slot(x[0]) == u);
    assert(before.slot(x[0]) == i);
    lemma_graft(before, after, x, val);
}

/// After the move of a static child that took the pattern, the node is in
/// order again and one value heavier.
pub(crate) proof fn lemma_descend_sound<T>(before: Node<T>, after: Node<T>, i: int, u: int)
    requires
        before.sound(),
        0 <= u <= i < before.indices@.len(),
        after.prefix@ == before.prefix@,
        after.value == before.value,
        after.wild_child == before.wild_child,
        after.node_type == before.node_type,
        after.indices@ == moved(before.indices@, i, u, before.indices@[i]),
        after.children@ == moved(before.children@, i, u, after.children@[u]),
        forall|j: int|
            u <= j < i ==> (#[trigger] before.children@[j]).priority
                <= before.children@[i].priority,
        u > 0 ==> before.children@[u - 1].priority > before.children@[i].priority,
        after.children@[u].sound(),
        after.children@[u].node_type == NodeType::Static,
        after.children@[u].prefix@.len() > 0,
        after.children@[u].prefix@[0] == before.indices@[i],
        after.children@[u].priority == before.children@[i].priority + 1,
        after.children@[u].priority == after.children@[u].weight(),
    ensures
        after.sound(),
        after.weight() == before.weight() + 1,
{
    let s = before.indices@.len() as int;
    let n = before.children@.len() as int;
    let m = after.children@;
    let cb = m[u];
    lemma_moved(before.children@, i, u, cb);
    lemma_moved(before.indices@, i, u, before.indices@[i]);
    lemma_total_remove(before.children@, i);
    lemma_total_insert(before.children@.remove(i), u, cb);
    assert forall|k: int| 0 <= k < n implies (#[trigger] m[k]).sound() && m[k].prefix@.len() > 0
        && m[k].priority >= 1 && m[k].priority == m[k].weight() by {
        if k != u {
            assert(m[k] == before.children@[unshift(k, i, u)]);
        }
    }
    assert forall|k: int| 0 <= k < s implies (#[trigger] m[k]).node_type == NodeType::Static
        && m[k].prefix@[0] == after.indices@[k] by {
        if k != u {
            assert(m[k] == before.children@[unshift(k, i, u)]);
            assert(after.indices@[k] == before.indices@[unshift(k, i, u)]);
        }
    }
    assert forall|k1: int, k2: int| 0 <= k1 < k2 < s implies #[trigger] after.indices@[k1]
        != #[trigger] after.indices@[k2] by {
        let j1 = if k1 == u {
            i
        } else {
            unshift(k1, i, u)
        };
        let j2 = if k2 == u {
            i
        } else {
            unshift(k2, i, u)
        };
        assert(after.indices@[k1] == before.indices@[j1]);
        assert(after.indices@[k2] == before.indices@[j2]);
        if j1 < j2 {
            assert(before.indices@[j1] != before.indices@[j2]);
        } else {
            assert(before.indices@[j2] != before.indices@[j1]);
        }
    }
    assert forall|k1: int, k2: int| 0 <= k1 < k2 < s implies (#[trigger] m[k1]).priority >= (
    #[trigger] m[k2]).priority by {
        if k1 == u {
            let j2 = unshift(k2, i, u);
            assert(m[k2] == before.children@[j2]);
            if j2 > i {
                assert(before.children@[i].priority >= before.children@[j2].priority);
            }
        } else if k2 == u {
            assert(m[k1] == before.children@[k1]);
            if k1 < u - 1 {
                assert(before.children@[k1].priority >= before.children@[u - 1].priority);
            }
        } else {
            assert(m[k1] == before.children@[unshift(k1, i, u)]);
            assert(m[k2] == before.children@[unshift(k2, i, u)]);
            assert(before.children@[unshift(k1, i, u)].priority >= before.children@[unshift(
                k2,
                i,
                u,
            )].priority);
        }
    }
    if before.wild_child {
        assert(m[n - 1] == before.children@[unshift(n - 1, i, u)]);
    }
    assert(after.kind_ok());
    assert(after.links_ok());
}

impl<T> Node<T> {
    /// Splits this node behind the first `c` bytes of its prefix: a new
    /// child takes the rest of the prefix with the children, the value and
    /// the priority, and this node keeps the first `c` bytes and that child.
    pub(crate) fn split(&mut self, c: usize)
        requires
            old(self).sound(),
            !old(self).is_wildcard(),
            c < old(self).prefix@.len(),
            old(self).priority == old(self).weight(),
            old(self).priority >= 1,
        ensures
            final(self).sound(),
            final(self).node_type == old(self).node_type,
            final(self).priority == old(self).priority,
            final(self).weight() == old(self).weight(),
            final(self).prefix@ == old(self).prefix@.take(c as int),
            final(self).value is None,
            final(self).children@.len() == 1,
            final(self).indices@ == seq![old(self).prefix@[c as int]],
            !final(self).wild_child,
            same_values(*old(self), *final(self)),
    {
        let suffix = self.prefix.split_off(c);
        let b: u8 = suffix[0];
        let mut child = Node {
            prefix: suffix,
            children: Vec::new(),
            wild_child: self.wild_child,
            indices: Vec::new(),
            value: self.value.take(),
            priority: self.priority,
            node_type: NodeType::Static,
        };
        core::mem::swap(&mut child.children, &mut self.children);
        core::mem::swap(&mut child.indices, &mut self.indices);
        self.children.push(child);
        self.indices.push(b);
        self.wild_child = false;
        proof {
            assert(self.prefix@ =~= old(self).prefix@.take(c as int));
            assert(child.prefix@ =~= old(self).prefix@.skip(c as int));
            assert(self.indices@ =~= seq![old(self).prefix@[c as int]]);
            assert(self.children@[0] == child);
            assert(total(self.children@.drop_last()) == 0);
            assert(child.weight() == old(self).weight());
            assert(child.kind_ok()) by {
                assert forall|k: int| 0 <= k < child.prefix@.len() implies !is_wild(
                    #[trigger] child.prefix@[k],
                ) by {
                    assert(child.prefix@[k] == old(self).prefix@[c + k]);
                }
            }
            assert(child.links_ok());
            assert(child.sound());
            assert(self.kind_ok()) by {
                assert forall|k: int| 0 <= k < self.prefix@.len() implies !is_wild(
                    #[trigger] self.prefix@[k],
                ) by {
                    assert(self.prefix@[k] == old(self).prefix@[k]);
                }
            }
            lemma_split_same(*old(self), *self);
        }
    }

    /// Gives this node a new static child that holds the rest of `route`
    /// from `at` on.
    pub(crate) fn attach(&mut self, route: &[u8], at: usize, val: T)
        requires
            at < route@.len(),
            !is_wild(route@[at as int]),
            tail_refusal(route@, at as int) is None,
            old(self).sound(),
            old(self).node_type != NodeType::CatchAll,
            old(self).node_type == NodeType::Param ==> route@[at as int] == SLASH && old(
                self,
            ).children@.len() == 0,
            first(old(self).indices@, 0, Mark::Byte(route@[at as int])) == old(self).indices@.len(),
        ensures
            final(self).sound(),
            final(self).weight() == old(self).weight() + 1,
            final(self).priority == old(self).priority,
            final(self).node_type == old(self).node_type,
            final(self).prefix@ == old(self).prefix@,
            final(self).value == old(self).value,
            grafts(*old(self), *final(self), route@.skip(at as int), val),
    {
        let ghost x = route@.skip(at as int);
        let ghost s = old(self).indices@.len() as int;
        let next: u8 = route[at];
        self.indices.push(next);
        let added: usize = self.add_child(Node::fresh(0));
        let ghost mid = *self;
        assert(added == s);
        assert(forall|j: int| 0 <= j < s ==> mid.children@[j] == old(self).children@[j]);
        let at_child: usize = self.update_child_priority(added);
        assert(at_child == added) by {
            if at_child < added {
                assert(mid.children@[at_child as int].priority <= 0);
                assert(old(self).children@[at_child as int].priority >= 1);
            }
        }
        assert(self.children@ =~= mid.children@.update(s, mid.children@[s].bumped()));
        assert(self.indices@ =~= mid.indices@);
        let ghost seed = self.children@[s];
        self.children[at_child].grow(route, at, val);
        let ghost grown = self.children@[s];
        proof {
            lemma_first(x, 0, Mark::Wild);
            assert(x.take(token_start(x))[0] == x[0]);
            assert(self.children@ =~= old(self).children@.insert(s, grown));
            lemma_bare(seed);
            lemma_adds_only(seed, grown, x, val);
            assert(seed.prefix@ + x =~= x);
            lemma_attach(*old(self), *self, x, val);
            lemma_total_insert(old(self).children@, s, grown);
            assert forall|k: int| 0 <= k < self.children@.len() implies (
            #[trigger] self.children@[k]).sound() && self.children@[k].prefix@.len() > 0
                && self.children@[k].priority >= 1 && self.children@[k].priority
                == self.children@[k].weight() by {
                if k < s {
                    assert(self.children@[k] == old(self).children@[k]);
                } else if k > s {
                    assert(self.children@[k] == old(self).children@[k - 1]);
                }
            }
            assert forall|k: int| 0 <= k < s + 1 implies (#[trigger] self.children@[k]).node_type
                == NodeType::Static && self.children@[k].prefix@[0] == self.indices@[k] by {
                if k < s {
                    assert(self.children@[k] == old(self).children@[k]);
                }
            }
            assert forall|k1: int, k2: int| 0 <= k1 < k2 < s + 1 implies #[trigger] self.indices@[k1]
                != #[trigger] self.indices@[k2] by {
                lemma_first(old(self).indices@, 0, Mark::Byte(next));
                if k2 < s {
                    assert(old(self).indices@[k1] != old(self).indices@[k2]);
                }
            }
            assert forall|k1: int, k2: int| 0 <= k1 < k2 < s + 1 implies (
            #[trigger] self.children@[k1]).priority >= (#[trigger] self.children@[k2]).priority by {
                assert(self.children@[k1] == old(self).children@[k1]);
                if k2 < s {
                    assert(self.children@[k2] == old(self).children@[k2]);
                    assert(old(self).children@[k1].priority >= old(self).children@[k2].priority);
                }
            }
            if self.wild_child {
                assert(self.children@[self.children@.len() - 1] == old(self).children@[old(
                    self,
                ).children@.len() - 1]);
            }
            assert(self.kind_ok());
            assert(self.links_ok());
        }
    }

    /// Plants the rest of `route` from `at` on into the child at `idx`, which
    /// keeps its place: the child of a parameter, or a wildcard child.
    pub(crate) fn descend(&mut self, idx: usize, route: &[u8], at: usize, val: T)
        requires
            at < route@.len(),
            old(self).sound(),
            idx < old(self).children@.len(),
            idx == old(self).slot(route@[at as int]),
            idx >= old(self).indices@.len() || old(self).indices@.len() == 1,
            ready(old(self).children@[idx as int], route@, at as int),
            old(self).children@[idx as int].refusal(route@, at as int) is None,
            common(route@.skip(at as int), old(self).children@[idx as int].prefix@) >= 1,
        ensures
            final(self).sound(),
            final(self).weight() == old(self).weight() + 1,
            final(self).priority == old(self).priority,
            final(self).node_type == old(self).node_type,
            final(self).prefix@ == old(self).prefix@,
            final(self).value == old(self).value,
            grafts(*old(self), *final(self), route@.skip(at as int), val),
        decreases *old(self), 0nat,
    {
        let ghost x = route@.skip(at as int);
        let ghost child0 = old(self).children@[idx as int];
        assert(child0.sound());
        self.children[idx].plant(route, at, val);
        let ghost child1 = self.children@[idx as int];
        self.children[idx].priority += 1;
        let ghost child2 = self.children@[idx as int];
        proof {
            assert(self.children@ =~= old(self).children@.update(idx as int, child2));
            lemma_same_parts(child1, child2);
            lemma_same_values_refl(child0);
            lemma_adds_same(child0, child0, child1, child2, x, val);
            lemma_update(*old(self), *self, idx as int, x, val);
            lemma_total_update(old(self).children@, idx as int, child2);
            assert(child2.sound());
            assert forall|k: int| 0 <= k < self.children@.len() implies (
            #[trigger] self.children@[k]).sound() && self.children@[k].prefix@.len() > 0
                && self.children@[k].priority >= 1 && self.children@[k].priority
                == self.children@[k].weight() by {
                if k != idx {
                    assert(self.children@[k] == old(self).children@[k]);
                }
            }
            assert forall|k: int| 0 <= k < self.indices@.len() implies (
            #[trigger] self.children@[k]).node_type == NodeType::Static
                && self.children@[k].prefix@[0] == self.indices@[k] by {
                if k != idx {
                    assert(self.children@[k] == old(self).children@[k]);
                } else {
                    assert(old(self).children@[k].node_type == NodeType::Static);
                }
            }
            assert forall|k1: int, k2: int| 0 <= k1 < k2 < self.indices@.len() implies (
            #[trigger] self.children@[k1]).priority >= (#[trigger] self.children@[k2]).priority by {
                assert(self.children@[k1] == old(self).children@[k1]);
                assert(self.children@[k2] == old(self).children@[k2]);
            }
            if self.wild_child {
                assert(old(self).children@[old(self).children@.len() - 1].is_wildcard());
            }
            assert(self.kind_ok());
            assert(self.links_ok());
        }
    }

    /// Plants the rest of `route` from `at` on into the static child at `i`,
    /// which then moves towards the front by its new priority.
    pub(crate) fn descend_static(&mut self, i: usize, route: &[u8], at: usize, val: T)
        requires
            at < route@.len(),
            old(self).sound(),
            i < old(self).indices@.len(),
            old(self).indices@[i as int] == route@[at as int],
            ready(old(self).children@[i as int], route@, at as int),
            old(self).children@[i as int].refusal(route@, at as int) is None,
        ensures
            final(self).sound(),
            final(self).weight() == old(self).weight() + 1,
            final(self).priority == old(self).priority,
            final(self).node_type == old(self).node_type,
            final(self).prefix@ == old(self).prefix@,
            final(self).value == old(self).value,
            grafts(*old(self), *final(self), route@.skip(at as int), val),
        decreases *old(self), 0nat,
    {
        let ghost x = route@.skip(at as int);
        let ghost child0 = old(self).children@[i as int];
        proof {
            assert(child0.sound());
            assert(child0.prefix@[0] == x[0]);
            lemma_agree(x, child0.prefix@, 1);
        }
        self.children[i].plant(route, at, val);
        let ghost child1 = self.children@[i as int];
        let ghost mid = *self;
        assert(mid.children@ =~= old(self).children@.update(i as int, child1));
        let u: usize = self.update_child_priority(i);
        let ghost child2 = self.children@[u as int];
        proof {
            assert(mid.children@.remove(i as int) =~= old(self).children@.remove(i as int));
            assert(child2 == child1.bumped());
            lemma_same_parts(child1, child2);
            lemma_same_values_refl(child0);
            lemma_adds_same(child0, child0, child1, child2, x, val);
            assert forall|j: int| u <= j < i implies (#[trigger] old(self).children@[j]).priority
                <= old(self).children@[i as int].priority by {
                assert(mid.children@[j] == old(self).children@[j]);
            }
            if u > 0 {
                assert(mid.children@[u - 1] == old(self).children@[u - 1]);
            }
            lemma_descend(*old(self), *self, i as int, u as int, x, val);
            lemma_descend_sound(*old(self), *self, i as int, u as int);
        }
    }

    /// Plants the rest of `route` from `at` on into this tree, which takes
    /// it: the walk goes down as far as the pattern agrees with the tree,
    /// splits the node at which they part, and hangs the rest in.
    pub(crate) fn plant(&mut self, route: &[u8], at: usize, val: T)
        requires
            ready(*old(self), route@, at as int),
            old(self).refusal(route@, at as int) is None,
        ensures
            planted(*old(self), *final(self), route@, at as int, val),
        decreases *old(self), 1nat,
    {
        let whole: usize = route.len();
        let c: usize = common_len(route, at, self.prefix.as_slice());
        let tail: usize = at + c;
        let ghost rest = route@.skip(at as int);
        let ghost x = route@.skip(tail as int);
        proof {
            lemma_common(rest, old(self).prefix@);
            assert(rest.skip(c as int) =~= x);
            assert(rest =~= rest.take(c as int) + x);
        }
        if c < self.prefix.len() {
            self.split(c);
            let ghost mid = *self;
            if tail < whole {
                let next: u8 = route[tail];
                assert(next == rest[c as int]);
                proof {
                    lemma_first(mid.indices@, 0, Mark::Byte(next));
                }
                if !(next == COLON || next == STAR) {
                    self.attach(route, tail, val);
                    proof {
                        lemma_rewire(mid, *self, x, val);
                    }
                } else {
                    self.grow(route, tail, val);
                }
            } else {
                self.set_value(val);
                assert(x =~= Seq::<u8>::empty());
                assert(mid.prefix@ + x =~= mid.prefix@);
            }
            proof {
                lemma_same_values_refl(*self);
                lemma_same_values_sym(*old(self), mid);
                lemma_adds_same(mid, *old(self), *self, *self, rest, val);
            }
            return ;
        }
        if tail < whole {
            let next: u8 = route[tail];
            assert(next == rest[c as int]);
            proof {
                lemma_first(old(self).indices@, 0, Mark::Byte(next));
            }
            if self.node_type == NodeType::Param && next == SLASH && self.children.len() == 1 {
                proof {
                    lemma_ready_child(*old(self), route@, at as int, 0);
                    assert(old(self).children@[0].sound());
                    lemma_agree(x, old(self).children@[0].prefix@, 1);
                }
                self.descend(0, route, tail, val);
                proof {
                    lemma_rewire(*old(self), *self, x, val);
                }
                return ;
            }
            let i: usize = seek(self.indices.as_slice(), 0, Mark::Byte(next));
            if i < self.indices.len() {
                proof {
                    lemma_ready_child(*old(self), route@, at as int, i as int);
                }
                self.descend_static(i, route, tail, val);
                proof {
                    lemma_rewire(*old(self), *self, x, val);
                }
                return ;
            }
            if !(next == COLON || next == STAR) && self.node_type != NodeType::CatchAll {
                self.attach(route, tail, val);
                proof {
                    lemma_rewire(*old(self), *self, x, val);
                }
                return ;
            }
            if self.wild_child {
                let last: usize = self.children.len() - 1;
                proof {
                    lemma_ready_child(*old(self), route@, at as int, last as int);
                    let w = old(self).children@[last as int];
                    assert(w.sound());
                    lemma_common(x, w.prefix@);
                }
                self.descend(last, route, tail, val);
                proof {
                    lemma_rewire(*old(self), *self, x, val);
                }
                return ;
            }
            self.grow(route, tail, val);
            return ;
        }
        self.set_value(val);
        assert(rest =~= old(self).prefix@);
    }

    /// Gives this node, which has none, the value `val`.
    pub(crate) fn set_value(&mut self, val: T)
        requires
            old(self).sound(),
            old(self).value is None,
        ensures
            final(self).sound(),
            final(self).weight() == old(self).weight() + 1,
            final(self).priority == old(self).priority,
            final(self).node_type == old(self).node_type,
            final(self).prefix@ == old(self).prefix@,
            adds(*old(self), *final(self), old(self).prefix@, val),
    {
        self.value = Some(val);
        proof {
            reveal(adds);
        }
    }
}

} // verus!
