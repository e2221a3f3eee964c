//! What a set of patterns answers for a path, said without a tree.

use vstd::prelude::*;
use crate::error::MatchError;
use crate::params::Binding;
use crate::insert::lemma_wild_not_indexed;
use crate::pattern::{first, is_wild, lemma_first, lemma_first_is, Mark, COLON, SLASH, STAR};
use crate::tree::{total, Node, NodeType};

verus! {

/// Whether `rest` begins with `b` and is what some pattern of `m` goes on
/// with behind `w`.
pub open spec fn goes_on<T>(m: Map<Seq<u8>, T>, w: Seq<u8>, b: u8, rest: Seq<u8>) -> bool {
    rest.len() > 0 && rest[0] == b && m.contains_key(w + rest)
}

/// Whether some pattern of `m` begins with `w` and goes on with `b`.
pub open spec fn opens<T>(m: Map<Seq<u8>, T>, w: Seq<u8>, b: u8) -> bool {
    exists|rest: Seq<u8>| goes_on(m, w, b, rest)
}

/// What one of the patterns of `m` that begin with `w` and go on with `b`
/// goes on with.
pub open spec fn some_rest<T>(m: Map<Seq<u8>, T>, w: Seq<u8>, b: u8) -> Seq<u8> {
    choose|rest: Seq<u8>| goes_on(m, w, b, rest)
}

/// The parameter token with which a pattern of `m` goes on behind `w`.
pub open spec fn param_token<T>(m: Map<Seq<u8>, T>, w: Seq<u8>) -> Seq<u8> {
    let rest = some_rest(m, w, COLON);
    rest.take(first(rest, 0, Mark::Slash))
}

/// What the patterns of `m` that begin with `w` answer for the path `q`
/// behind `w`, with `found` bound so far. Byte by byte, a pattern that goes
/// on with the literal byte of the path comes before one that goes on with
/// a wildcard.
pub open spec fn resolve<T>(
    m: Map<Seq<u8>, T>,
    w: Seq<u8>,
    q: Seq<u8>,
    found: Seq<Binding>,
) -> Option<(T, Seq<Binding>)>
    decreases q.len(), 1nat,
{
    if q.len() == 0 {
        if m.contains_key(w) {
            Some((m[w], found))
        } else {
            None
        }
    } else {
        let direct = if is_wild(q[0]) {
            None
        } else {
            resolve(m, w.push(q[0]), q.skip(1), found)
        };
        if direct is Some {
            direct
        } else {
            resolve_wild(m, w, q, found)
        }
    }
}

/// What the patterns of `m` that begin with `w` and go on with a wildcard
/// answer for the path `q` behind `w`, which is not empty. A parameter takes
/// the bytes of the path up to the next `/`, at least one, and the patterns
/// behind its token answer for the rest; a catch-all takes all of the path.
pub open spec fn resolve_wild<T>(
    m: Map<Seq<u8>, T>,
    w: Seq<u8>,
    q: Seq<u8>,
    found: Seq<Binding>,
) -> Option<(T, Seq<Binding>)>
    decreases q.len(), 0nat,
{
    if opens(m, w, COLON) {
        let token = param_token(m, w);
        let i = first(q, 0, Mark::Slash);
        if i <= 0 || i > q.len() {
            None
        } else {
            resolve(m, w + token, q.skip(i), found.push((token.skip(1), q.take(i))))
        }
    } else if opens(m, w, STAR) {
        let token = some_rest(m, w, STAR);
        Some((m[w + token], found.push((token.skip(1), q))))
    } else {
        None
    }
}

/// What the patterns of `m` answer for `path`: the value of the pattern that
/// matches, with the bindings; or else whether the path would match without
/// the `/` at its end, or else with a `/` added.
pub open spec fn answer<T>(m: Map<Seq<u8>, T>, path: Seq<u8>) -> Result<
    (T, Seq<Binding>),
    MatchError,
> {
    let none = Seq::<u8>::empty();
    let unbound = Seq::<Binding>::empty();
    match resolve(m, none, path, unbound) {
        Some(hit) => Ok(hit),
        None => if path.len() > 0 && path.last() == SLASH && resolve(
            m,
            none,
            path.drop_last(),
            unbound,
        ) is Some {
            Err(MatchError::ExtraTrailingSlash)
        } else if resolve(m, none, path.push(SLASH), unbound) is Some {
            Err(MatchError::MissingTrailingSlash)
        } else {
            Err(MatchError::NotFound)
        },
    }
}

/// The value of `m` for `key`, if it has one.
pub open spec fn get<T>(m: Map<Seq<u8>, T>, key: Seq<u8>) -> Option<T> {
    if m.contains_key(key) {
        Some(m[key])
    } else {
        None
    }
}

/// Whether the patterns of `m` that begin with `u` are those that `node`
/// holds behind the first `k` bytes of its prefix, with the same values.
#[verifier::opaque]
pub(crate) open spec fn carries<T>(node: Node<T>, k: int, m: Map<Seq<u8>, T>, u: Seq<u8>) -> bool {
    forall|r: Seq<u8>| #[trigger] node.value_of(node.prefix@.take(k) + r) == get(m, u + r)
}

/// Where no pattern begins with `u`, nothing is answered behind `u`.
pub(crate) proof fn lemma_dead<T>(m: Map<Seq<u8>, T>, u: Seq<u8>, q: Seq<u8>, found: Seq<Binding>)
    requires
        forall|r: Seq<u8>| !m.contains_key(#[trigger] (u + r)),
    ensures
        resolve(m, u, q, found) is None,
    decreases q.len(),
{
    if q.len() == 0 {
        assert(u + Seq::<u8>::empty() =~= u);
        assert(!m.contains_key(u + Seq::<u8>::empty()));
    } else {
        if !is_wild(q[0]) {
            let v = u.push(q[0]);
            assert forall|r: Seq<u8>| !m.contains_key(#[trigger] (v + r)) by {
                assert(v + r =~= u + (seq![q[0]] + r));
            }
            lemma_dead(m, v, q.skip(1), found);
        }
        assert(!opens(m, u, COLON)) by {
            if opens(m, u, COLON) {
                let r = some_rest(m, u, COLON);
                assert(m.contains_key(u + r));
            }
        }
        assert(!opens(m, u, STAR)) by {
            if opens(m, u, STAR) {
                let r = some_rest(m, u, STAR);
                assert(m.contains_key(u + r));
            }
        }
        assert(resolve_wild(m, u, q, found) is None);
    }
}

/// A tree whose top has a priority of one or more holds a pattern.
pub(crate) proof fn lemma_inhabited<T>(node: Node<T>) -> (r: Seq<u8>)
    requires
        node.sound(),
        node.priority == node.weight(),
        node.priority >= 1,
    ensures
        node.value_of(r) is Some,
        node.prefix@.is_prefix_of(r),
    decreases node,
{
    let p = node.prefix@;
    if node.value is Some {
        assert(p.is_prefix_of(p));
        p
    } else {
        if node.children@.len() == 0 {
            assert(total(node.children@) == 0);
        }
        let child = node.children@[0];
        assert(child.sound());
        let r0 = lemma_inhabited(child);
        let r = p + r0;
        assert(r0.len() >= child.prefix@.len());
        assert(r0[0] == child.prefix@[0]) by {
            assert(child.prefix@ =~= r0.subrange(0, child.prefix@.len() as int));
            assert(r0.subrange(0, child.prefix@.len() as int)[0] == r0[0]);
        }
        assert(r.skip(p.len() as int) =~= r0);
        assert(p.is_prefix_of(r)) by {
            assert(p =~= r.subrange(0, p.len() as int));
        }
        lemma_first(node.indices@, 0, Mark::Byte(r0[0]));
        if node.indices@.len() > 0 {
            assert(node.indices@[0] == r0[0]);
            assert(node.slot(r0[0]) == 0);
        } else {
            assert(node.slot(r0[0]) == 0);
        }
        r
    }
}

/// A tree carries its own patterns from the top.
pub(crate) proof fn lemma_carries_top<T>(tree: Node<T>)
    ensures
        carries(tree, 0, tree.routes(), Seq::<u8>::empty()),
{
    reveal(carries);
    assert forall|r: Seq<u8>| #[trigger]
        tree.value_of(tree.prefix@.take(0) + r) == get(tree.routes(), Seq::<u8>::empty() + r) by {
        assert(tree.prefix@.take(0) + r =~= r);
        assert(Seq::<u8>::empty() + r =~= r);
    }
}

/// What a node carries behind `k` bytes of its prefix, it carries behind
/// one byte more, behind that byte.
pub(crate) proof fn lemma_carries_on<T>(node: Node<T>, k: int, m: Map<Seq<u8>, T>, u: Seq<u8>)
    requires
        0 <= k < node.prefix@.len(),
        carries(node, k, m, u),
    ensures
        carries(node, k + 1, m, u.push(node.prefix@[k])),
{
    reveal(carries);
    let p = node.prefix@;
    let b = p[k];
    assert forall|r: Seq<u8>| #[trigger]
        node.value_of(p.take(k + 1) + r) == get(m, u.push(b) + r) by {
        assert(p.take(k + 1) + r =~= p.take(k) + (seq![b] + r));
        assert(u.push(b) + r =~= u + (seq![b] + r));
    }
}

/// What a node carries behind its whole prefix, the child for a byte
/// carries behind that byte.
pub(crate) proof fn lemma_carries_down<T>(
    node: Node<T>,
    m: Map<Seq<u8>, T>,
    u: Seq<u8>,
    i: int,
)
    requires
        carries(node, node.prefix@.len() as int, m, u),
        0 <= i < node.children@.len(),
        node.children@[i].prefix@.len() > 0,
        node.slot(node.children@[i].prefix@[0]) == i,
    ensures
        carries(node.children@[i], 1, m, u.push(node.children@[i].prefix@[0])),
{
    reveal(carries);
    let p = node.prefix@;
    let child = node.children@[i];
    let b = child.prefix@[0];
    assert forall|r: Seq<u8>| #[trigger]
        child.value_of(child.prefix@.take(1) + r) == get(m, u.push(b) + r) by {
        let x = seq![b] + r;
        assert(child.prefix@.take(1) + r =~= x);
        assert(u.push(b) + r =~= u + x);
        assert(p.take(p.len() as int) =~= p);
        assert(node.value_of(p.take(p.len() as int) + x) == get(m, u + x));
        assert(p.is_prefix_of(p + x)) by {
            assert(p =~= (p + x).subrange(0, p.len() as int));
        }
        assert((p + x).skip(p.len() as int) =~= x);
    }
}


impl<T> Node<T> {
    /// What matching `rest` yields behind this node's prefix: the static
    /// child first, then the wildcard child.
    pub(crate) open spec fn fork(self, rest: Seq<u8>, found: Seq<Binding>) -> Option<
        (T, Seq<Binding>),
    > {
        let i = first(self.indices@, 0, Mark::Byte(rest[0]));
        let direct = if 0 <= i < self.indices@.len() && i < self.children@.len() {
            self.children@[i].search(rest, found)
        } else {
            None
        };
        if direct is Some {
            direct
        } else {
            self.search_wild(rest, found)
        }
    }

    /// What matching `q` yields at this node once the first `k` bytes of
    /// its prefix have been matched.
    pub(crate) open spec fn search_in(self, k: int, q: Seq<u8>, found: Seq<Binding>) -> Option<
        (T, Seq<Binding>),
    > {
        let p = self.prefix@.skip(k);
        if q.len() > p.len() && p.is_prefix_of(q) {
            self.fork(q.skip(p.len() as int), found)
        } else if q == p {
            match self.value {
                Some(v) => Some((v, found)),
                None => None,
            }
        } else {
            None
        }
    }
}

pub(crate) proof fn lemma_search_in_zero<T>(node: Node<T>, q: Seq<u8>, found: Seq<Binding>)
    ensures
        node.search(q, found) == node.search_in(0, q, found),
{
    assert(node.prefix@.skip(0) =~= node.prefix@);
}

pub(crate) proof fn lemma_search_in_step<T>(node: Node<T>, k: int, q: Seq<u8>, found: Seq<Binding>)
    requires
        0 <= k < node.prefix@.len(),
        q.len() > 0,
        q[0] == node.prefix@[k],
    ensures
        node.search_in(k, q, found) == node.search_in(k + 1, q.skip(1), found),
{
    let p = node.prefix@.skip(k);
    let p1 = node.prefix@.skip(k + 1);
    let q1 = q.skip(1);
    assert(p =~= seq![node.prefix@[k]] + p1);
    assert(q =~= seq![q[0]] + q1);
    if q.len() > p.len() {
        if p.is_prefix_of(q) {
            assert(p1 =~= q1.subrange(0, p1.len() as int)) by {
                assert(p =~= q.subrange(0, p.len() as int));
                assert forall|j: int| 0 <= j < p1.len() implies p1[j] == q1[j] by {
                    assert(p[j + 1] == q.subrange(0, p.len() as int)[j + 1]);
                }
            }
        }
        if p1.is_prefix_of(q1) {
            assert(p =~= q.subrange(0, p.len() as int)) by {
                assert(p1 =~= q1.subrange(0, p1.len() as int));
                assert forall|j: int| 0 <= j < p.len() implies p[j] == q[j] by {
                    if j > 0 {
                        assert(p1[j - 1] == q1.subrange(0, p1.len() as int)[j - 1]);
                    }
                }
            }
        }
        assert(q.skip(p.len() as int) =~= q1.skip(p1.len() as int));
    }
    if q == p {
        assert(q1 =~= p1);
    }
    if q1 == p1 {
        assert(q =~= p);
    }
}

pub(crate) proof fn lemma_search_in_miss<T>(node: Node<T>, k: int, q: Seq<u8>, found: Seq<Binding>)
    requires
        0 <= k < node.prefix@.len(),
        q.len() == 0 || q[0] != node.prefix@[k],
    ensures
        node.search_in(k, q, found) is None,
{
    let p = node.prefix@.skip(k);
    if q.len() > 0 && p.is_prefix_of(q) {
        assert(p[0] == q.subrange(0, p.len() as int)[0]);
    }
}

/// What a tree holds for a pattern that leaves the prefix of the top.
pub(crate) proof fn lemma_off_prefix<T>(node: Node<T>, k: int, b: u8, r: Seq<u8>)
    requires
        0 <= k < node.prefix@.len(),
        b != node.prefix@[k],
    ensures
        node.value_of(node.prefix@.take(k) + (seq![b] + r)) is None,
        node.value_of(node.prefix@.take(k)) is None,
{
    let p = node.prefix@;
    let x = p.take(k) + (seq![b] + r);
    if p.is_prefix_of(x) {
        assert(p[k] == x.subrange(0, p.len() as int)[k]);
    }
}

/// Behind a part of a literal prefix every pattern goes on with the next
/// byte of the prefix.
pub(crate) proof fn lemma_inside<T>(node: Node<T>, k: int, m: Map<Seq<u8>, T>, u: Seq<u8>, b: u8)
    requires
        0 <= k < node.prefix@.len(),
        carries(node, k, m, u),
        b != node.prefix@[k],
    ensures
        !opens(m, u, b),
        forall|r: Seq<u8>| !m.contains_key(#[trigger] (u.push(b) + r)),
        !m.contains_key(u),
{
    reveal(carries);
    let p = node.prefix@;
    if opens(m, u, b) {
        let r = some_rest(m, u, b);
        assert(r =~= seq![b] + r.skip(1));
        lemma_off_prefix(node, k, b, r.skip(1));
        assert(node.value_of(p.take(k) + r) == get(m, u + r));
    }
    assert forall|r: Seq<u8>| !m.contains_key(#[trigger] (u.push(b) + r)) by {
        lemma_off_prefix(node, k, b, r);
        assert(u.push(b) + r =~= u + (seq![b] + r));
        assert(node.value_of(p.take(k) + (seq![b] + r)) == get(m, u + (seq![b] + r)));
    }
    lemma_off_prefix(node, k, b, Seq::<u8>::empty());
    assert(p.take(k) + Seq::<u8>::empty() =~= p.take(k));
    assert(u + Seq::<u8>::empty() =~= u);
    assert(node.value_of(p.take(k) + Seq::<u8>::empty()) == get(m, u + Seq::<u8>::empty()));
}

/// What a node carries behind its whole prefix is what it holds below.
pub(crate) proof fn lemma_carried_below<T>(node: Node<T>, m: Map<Seq<u8>, T>, u: Seq<u8>, r: Seq<u8>)
    requires
        carries(node, node.prefix@.len() as int, m, u),
    ensures
        r.len() > 0 ==> get(m, u + r) == node.below(r),
        get(m, u) == node.value,
{
    reveal(carries);
    let p = node.prefix@;
    assert(p.take(p.len() as int) =~= p);
    assert(node.value_of(p.take(p.len() as int) + r) == get(m, u + r));
    if r.len() > 0 {
        assert(p.is_prefix_of(p + r)) by {
            assert(p =~= (p + r).subrange(0, p.len() as int));
        }
        assert((p + r).skip(p.len() as int) =~= r);
    }
    assert(p + Seq::<u8>::empty() =~= p);
    assert(u + Seq::<u8>::empty() =~= u);
    assert(node.value_of(p.take(p.len() as int) + Seq::<u8>::empty()) == get(
        m,
        u + Seq::<u8>::empty(),
    ));
}


/// At the end of a node's prefix, patterns go on with a wildcard byte
/// exactly where the node has a wildcard child that begins with it, and
/// they go on with what that child holds.
pub(crate) proof fn lemma_opens<T>(node: Node<T>, m: Map<Seq<u8>, T>, u: Seq<u8>, b: u8)
    requires
        node.sound(),
        carries(node, node.prefix@.len() as int, m, u),
        is_wild(b),
    ensures
        opens(m, u, b) <==> (node.wild_child && node.children@.last().prefix@[0] == b),
        forall|r: Seq<u8>| #[trigger]
            goes_on(m, u, b, r) ==> {
                &&& node.wild_child
                &&& node.children@.last().prefix@[0] == b
                &&& node.children@.last().value_of(r) is Some
                &&& node.children@.last().value_of(r) == get(m, u + r)
            },
{
    let n = node.children@.len() as int;
    lemma_wild_not_indexed(node, b);
    assert forall|r: Seq<u8>| #[trigger] goes_on(m, u, b, r) implies {
        &&& node.wild_child
        &&& node.children@.last().prefix@[0] == b
        &&& node.children@.last().value_of(r) is Some
        &&& node.children@.last().value_of(r) == get(m, u + r)
    } by {
        lemma_carried_below(node, m, u, r);
        assert(node.below(r) is Some);
    }
    if node.wild_child && node.children@.last().prefix@[0] == b {
        let w = node.children@[n - 1];
        assert(w.sound());
        let r0 = lemma_inhabited(w);
        assert(r0[0] == b) by {
            assert(w.prefix@ =~= r0.subrange(0, w.prefix@.len() as int));
            assert(r0.subrange(0, w.prefix@.len() as int)[0] == r0[0]);
        }
        lemma_carried_below(node, m, u, r0);
        assert(node.slot(b) == n - 1);
        assert(goes_on(m, u, b, r0));
    }
}

/// A pattern that a parameter node holds begins with the node's token, and
/// the token ends where the first `/` of the pattern stands.
pub(crate) proof fn lemma_param_rest<T>(w: Node<T>, r: Seq<u8>)
    requires
        w.sound(),
        w.node_type == NodeType::Param,
        w.value_of(r) is Some,
    ensures
        first(r, 0, Mark::Slash) == w.prefix@.len(),
        r.take(w.prefix@.len() as int) == w.prefix@,
{
    let p = w.prefix@;
    let len = p.len() as int;
    assert(p.is_prefix_of(r));
    assert(p =~= r.subrange(0, len));
    assert forall|j: int| 0 <= j < len implies !Mark::Slash.hits(#[trigger] r[j]) by {
        assert(r[j] == r.subrange(0, len)[j]);
        assert(p[j] != SLASH);
    }
    if r.len() > len {
        let rest = r.skip(len);
        lemma_first(w.indices@, 0, Mark::Byte(rest[0]));
        assert(0 <= w.slot(rest[0]) < w.children@.len());
        assert(rest[0] == SLASH);
    }
    lemma_first_is(r, 0, Mark::Slash, len);
    assert(r.take(len) =~= p);
}

/// The one pattern that a catch-all node holds is its token.
pub(crate) proof fn lemma_catch_rest<T>(w: Node<T>, r: Seq<u8>)
    requires
        w.sound(),
        w.node_type == NodeType::CatchAll,
        w.value_of(r) is Some,
    ensures
        r == w.prefix@,
{
}

/// What a node carries behind its prefix, its wildcard child carries
/// behind its token.
pub(crate) proof fn lemma_carries_wild<T>(node: Node<T>, m: Map<Seq<u8>, T>, u: Seq<u8>)
    requires
        node.sound(),
        node.wild_child,
        carries(node, node.prefix@.len() as int, m, u),
    ensures
        carries(
            node.children@.last(),
            node.children@.last().prefix@.len() as int,
            m,
            u + node.children@.last().prefix@,
        ),
{
    let w = node.children@[node.children@.len() - 1];
    let t = w.prefix@;
    assert(w.sound());
    assert(is_wild(t[0]));
    lemma_wild_not_indexed(node, t[0]);
    assert forall|r: Seq<u8>| #[trigger]
        w.value_of(t.take(t.len() as int) + r) == get(m, (u + t) + r) by {
        let x = t + r;
        assert(t.take(t.len() as int) + r =~= x);
        assert((u + t) + r =~= u + x);
        lemma_carried_below(node, m, u, x);
        assert(node.slot(x[0]) == node.children@.len() - 1);
    }
    assert(carries(w, t.len() as int, m, u + t)) by {
        reveal(carries);
    }
}

/// Behind the token of a parameter no pattern goes on with a wildcard.
pub(crate) proof fn lemma_behind_param<T>(w: Node<T>, m: Map<Seq<u8>, T>, v: Seq<u8>, b: u8)
    requires
        w.sound(),
        w.node_type == NodeType::Param,
        carries(w, w.prefix@.len() as int, m, v),
        is_wild(b),
    ensures
        !opens(m, v, b),
{
    if opens(m, v, b) {
        let r = some_rest(m, v, b);
        lemma_carried_below(w, m, v, r);
        lemma_first(w.indices@, 0, Mark::Byte(b));
        assert(w.below(r) is Some);
    }
}

/// What the wildcard child of a node makes of a path is what the patterns
/// that go on with a wildcard behind the node's prefix answer.
pub(crate) proof fn lemma_wild<T>(
    node: Node<T>,
    m: Map<Seq<u8>, T>,
    u: Seq<u8>,
    q: Seq<u8>,
    found: Seq<Binding>,
)
    requires
        node.sound(),
        carries(node, node.prefix@.len() as int, m, u),
        q.len() > 0,
    ensures
        node.search_wild(q, found) == resolve_wild(m, u, q, found),
    decreases node, 0nat,
{
    let n = node.children@.len() as int;
    lemma_opens(node, m, u, COLON);
    lemma_opens(node, m, u, STAR);
    if node.wild_child {
        let w = node.children@[n - 1];
        let t = w.prefix@;
        assert(w.sound());
        lemma_carries_wild(node, m, u);
        if w.node_type == NodeType::Param {
            let r0 = some_rest(m, u, COLON);
            assert(goes_on(m, u, COLON, r0));
            lemma_param_rest(w, r0);
            assert(param_token(m, u) == t);
            let i = first(q, 0, Mark::Slash);
            lemma_first(q, 0, Mark::Slash);
            let bound = found.push((t.skip(1), q.take(i)));
            let v = u + t;
            if i == 0 {
            } else if i < q.len() {
                let q1 = q.skip(i);
                assert(q1[0] == SLASH);
                lemma_behind_param(w, m, v, COLON);
                lemma_behind_param(w, m, v, STAR);
                assert(resolve_wild(m, v, q1, bound) is None);
                if w.children@.len() == 1 {
                    let c = w.children@[0];
                    assert(c.sound());
                    lemma_first(w.indices@, 0, Mark::Byte(SLASH));
                    assert(w.slot(c.prefix@[0]) == 0);
                    lemma_carries_down(w, m, v, 0);
                    lemma_resolves(c, 1, m, v.push(SLASH), q1.skip(1), bound);
                    lemma_search_in_zero(c, q1, bound);
                    lemma_search_in_step(c, 0, q1, bound);
                } else {
                    assert forall|r: Seq<u8>| !m.contains_key(#[trigger] (v.push(SLASH) + r)) by {
                        let x = seq![SLASH] + r;
                        assert(v.push(SLASH) + r =~= v + x);
                        lemma_carried_below(w, m, v, x);
                    }
                    lemma_dead(m, v.push(SLASH), q1.skip(1), bound);
                }
            } else {
                assert(q.take(i) =~= q);
                lemma_carried_below(w, m, v, Seq::<u8>::empty());
                assert(q.skip(i).len() == 0);
            }
        } else {
            assert(w.node_type == NodeType::CatchAll);
            let r0 = some_rest(m, u, STAR);
            assert(goes_on(m, u, STAR, r0));
            lemma_catch_rest(w, r0);
        }
    }
}

/// What matching yields at a node, behind `k` bytes of its prefix, is what
/// the patterns answer that the node carries there.
pub(crate) proof fn lemma_resolves<T>(
    node: Node<T>,
    k: int,
    m: Map<Seq<u8>, T>,
    u: Seq<u8>,
    q: Seq<u8>,
    found: Seq<Binding>,
)
    requires
        node.sound(),
        !node.is_wildcard(),
        0 <= k <= node.prefix@.len(),
        carries(node, k, m, u),
    ensures
        node.search_in(k, q, found) == resolve(m, u, q, found),
    decreases node, node.prefix@.len() - k + 1,
{
    let p = node.prefix@;
    let goal = node.search_in(k, q, found) == resolve(m, u, q, found);
    if k < p.len() {
        assert(!is_wild(p[k]));
        lemma_inside(node, k, m, u, COLON);
        lemma_inside(node, k, m, u, STAR);
        if q.len() == 0 {
            lemma_search_in_miss(node, k, q, found);
            assert(goal);
        } else if q[0] == p[k] {
            lemma_carries_on(node, k, m, u);
            lemma_resolves(node, k + 1, m, u.push(p[k]), q.skip(1), found);
            lemma_search_in_step(node, k, q, found);
            assert(resolve_wild(m, u, q, found) is None);
            assert(goal);
        } else {
            lemma_search_in_miss(node, k, q, found);
            if !is_wild(q[0]) {
                lemma_inside(node, k, m, u, q[0]);
                lemma_dead(m, u.push(q[0]), q.skip(1), found);
            }
            assert(resolve_wild(m, u, q, found) is None);
            assert(goal);
        }
    } else {
        assert(p.skip(k) =~= Seq::<u8>::empty());
        lemma_carried_below(node, m, u, Seq::<u8>::empty());
        if q.len() > 0 {
            assert(p.skip(k).is_prefix_of(q));
            assert(q.skip(0) =~= q);
            assert(node.search_in(k, q, found) == node.fork(q, found));
            let b = q[0];
            let i = first(node.indices@, 0, Mark::Byte(b));
            lemma_first(node.indices@, 0, Mark::Byte(b));
            lemma_wild(node, m, u, q, found);
            if is_wild(b) {
                lemma_wild_not_indexed(node, b);
                assert(goal);
            } else if i < node.indices@.len() {
                let child = node.children@[i];
                assert(child.sound());
                assert(node.slot(child.prefix@[0]) == i);
                lemma_carries_down(node, m, u, i);
                lemma_resolves(child, 1, m, u.push(b), q.skip(1), found);
                lemma_search_in_zero(child, q, found);
                lemma_search_in_step(child, 0, q, found);
                assert(child.search(q, found) == resolve(m, u.push(b), q.skip(1), found));
                assert(goal);
            } else {
                assert forall|r: Seq<u8>| !m.contains_key(#[trigger] (u.push(b) + r)) by {
                    let x = seq![b] + r;
                    assert(u.push(b) + r =~= u + x);
                    lemma_carried_below(node, m, u, x);
                    if node.wild_child {
                        assert(node.children@[node.children@.len() - 1].sound());
                    }
                }
                lemma_dead(m, u.push(b), q.skip(1), found);
                assert(goal);
            }
        } else {
            assert(q =~= p.skip(k));
            assert(goal);
        }
    }
}

/// What a well-formed tree answers for a path is what its patterns answer:
/// the tree is one way to hold them, and no more.
pub proof fn lemma_lookup_by_routes<T>(tree: Node<T>, path: Seq<u8>)
    requires
        tree.wf(),
    ensures
        tree.lookup(path) == resolve(tree.routes(), Seq::<u8>::empty(), path, Seq::<Binding>::empty()),
{
    lemma_carries_top(tree);
    lemma_resolves(tree, 0, tree.routes(), Seq::<u8>::empty(), path, Seq::<Binding>::empty());
    lemma_search_in_zero(tree, path, Seq::<Binding>::empty());
}

/// What a well-formed tree answers for a path, hit or error, is what its
/// patterns answer.
pub proof fn lemma_answer_by_routes<T>(tree: Node<T>, path: Seq<u8>)
    requires
        tree.wf(),
    ensures
        answer(tree.routes(), path) == (match tree.lookup(path) {
            Some(hit) => Ok::<(T, Seq<Binding>), MatchError>(hit),
            None => Err::<(T, Seq<Binding>), MatchError>(tree.verdict(path)),
        }),
{
    lemma_lookup_by_routes(tree, path);
    lemma_lookup_by_routes(tree, path.drop_last());
    lemma_lookup_by_routes(tree, path.push(SLASH));
}

/// Two well-formed trees that hold the same patterns with the same values
/// answer every path alike, in the value, in the bindings and in the error.
/// So it does not matter in which order the patterns were inserted.
pub proof fn lemma_same_routes_same_answers<T>(a: Node<T>, b: Node<T>, path: Seq<u8>)
    requires
        a.wf(),
        b.wf(),
        a.routes() == b.routes(),
    ensures
        a.lookup(path) == b.lookup(path),
        a.verdict(path) == b.verdict(path),
{
    lemma_lookup_by_routes(a, path);
    lemma_lookup_by_routes(b, path);
    lemma_lookup_by_routes(a, path.drop_last());
    lemma_lookup_by_routes(b, path.drop_last());
    lemma_lookup_by_routes(a, path.push(SLASH));
    lemma_lookup_by_routes(b, path.push(SLASH));
}

} // verus!
