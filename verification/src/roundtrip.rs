//! Matching the path made from a pattern finds the pattern.

use vstd::prelude::*;
use crate::insert::lemma_wild_not_indexed;
use crate::params::Binding;
use crate::pattern::{first, is_wild, lemma_first, lemma_first_is, Mark, SLASH};
use crate::resolve::{lemma_catch_rest, lemma_inhabited, lemma_param_rest};
use crate::tree::{Node, NodeType};

verus! {

/// The path made from the pattern `r` by putting `seg` in the place of
/// every wildcard token.
pub open spec fn fill(r: Seq<u8>, seg: Seq<u8>) -> Seq<u8>
    decreases r.len(),
{
    if r.len() == 0 {
        Seq::<u8>::empty()
    } else if is_wild(r[0]) {
        let end = first(r, 1, Mark::Slash);
        if 1 <= end <= r.len() {
            seg + fill(r.skip(end), seg)
        } else {
            seg
        }
    } else {
        seq![r[0]] + fill(r.skip(1), seg)
    }
}

/// The bindings that the path made from `r` with `seg` should yield: the
/// name of every wildcard token of `r`, in their order, each bound to `seg`.
pub open spec fn binds(r: Seq<u8>, seg: Seq<u8>) -> Seq<Binding>
    decreases r.len(),
{
    if r.len() == 0 {
        Seq::<Binding>::empty()
    } else if is_wild(r[0]) {
        let end = first(r, 1, Mark::Slash);
        if 1 <= end <= r.len() {
            seq![(r.subrange(1, end), seg)] + binds(r.skip(end), seg)
        } else {
            seq![(r.skip(1), seg)]
        }
    } else {
        binds(r.skip(1), seg)
    }
}

/// Whether no pattern of `m` shadows the path made from `r` with a segment
/// that begins with `b`: wherever `r` has a wildcard, no pattern is like `r`
/// up to there and goes on with the literal byte `b`.
pub open spec fn unshadowed<T>(m: Map<Seq<u8>, T>, u: Seq<u8>, r: Seq<u8>, b: u8) -> bool {
    forall|k: int, x: Seq<u8>|
        0 <= k < r.len() && is_wild(r[k]) ==> !m.contains_key(
            #[trigger] (u + r.take(k) + (seq![b] + x)),
        )
}

impl<T> Node<T> {
    /// Whether along the pattern `r` no node at which `r` goes on with a
    /// wildcard has a static child for the byte `b`.
    pub open(crate) spec fn clear(self, r: Seq<u8>, b: u8) -> bool
        decreases self,
    {
        let p = self.prefix@;
        if r.len() > p.len() && p.is_prefix_of(r) {
            let rest = r.skip(p.len() as int);
            let i = self.slot(rest[0]);
            if 0 <= i < self.children@.len() {
                &&& is_wild(rest[0]) ==> first(self.indices@, 0, Mark::Byte(b))
                    >= self.indices@.len()
                &&& self.children@[i].clear(rest, b)
            } else {
                true
            }
        } else {
            true
        }
    }
}

/// Literal bytes stay as they are when a path is made from a pattern.
pub(crate) proof fn lemma_fill_literal(s: Seq<u8>, r: Seq<u8>, seg: Seq<u8>)
    requires
        forall|j: int| 0 <= j < s.len() ==> !is_wild(#[trigger] s[j]),
    ensures
        fill(s + r, seg) == s + fill(r, seg),
        binds(s + r, seg) == binds(r, seg),
    decreases s.len(),
{
    if s.len() == 0 {
        assert(s + r =~= r);
        assert(s + fill(r, seg) =~= fill(r, seg));
    } else {
        let x = s + r;
        assert(x[0] == s[0]);
        assert(!is_wild(s[0]));
        assert(x.skip(1) =~= s.skip(1) + r);
        assert forall|j: int| 0 <= j < s.skip(1).len() implies !is_wild(
            #[trigger] s.skip(1)[j],
        ) by {
            assert(s.skip(1)[j] == s[j + 1]);
        }
        lemma_fill_literal(s.skip(1), r, seg);
        assert(seq![s[0]] + (s.skip(1) + fill(r, seg)) =~= s + fill(r, seg));
    }
}

/// A path made from a pattern that is not empty is not empty, and begins
/// with a literal byte where the pattern does.
pub(crate) proof fn lemma_fill_first(r: Seq<u8>, seg: Seq<u8>)
    requires
        r.len() > 0,
        seg.len() > 0,
    ensures
        fill(r, seg).len() > 0,
        !is_wild(r[0]) ==> fill(r, seg)[0] == r[0],
        is_wild(r[0]) ==> fill(r, seg)[0] == seg[0],
{
}

/// Where the first `/` stands in a segment followed by what is made of the
/// rest of a pattern, which is empty or begins with `/`.
pub(crate) proof fn lemma_segment_end(seg: Seq<u8>, tail: Seq<u8>, filled: Seq<u8>)
    requires
        forall|j: int| 0 <= j < seg.len() ==> seg[j] != SLASH,
        tail.len() > 0 ==> tail[0] == SLASH && filled.len() > 0 && filled[0] == SLASH,
        tail.len() == 0 ==> filled.len() == 0,
    ensures
        first(seg + filled, 0, Mark::Slash) == seg.len(),
        (seg + filled).take(seg.len() as int) == seg,
        (seg + filled).skip(seg.len() as int) == filled,
{
    let q = seg + filled;
    assert forall|j: int| 0 <= j < seg.len() implies !Mark::Slash.hits(#[trigger] q[j]) by {
        assert(q[j] == seg[j]);
    }
    if filled.len() > 0 {
        assert(q[seg.len() as int] == filled[0]);
    }
    lemma_first_is(q, 0, Mark::Slash, seg.len() as int);
    assert(q.take(seg.len() as int) =~= seg);
    assert(q.skip(seg.len() as int) =~= filled);
}

/// In a tree whose nodes are in order, matching the path made from a
/// pattern of the tree finds the value of the pattern and binds its
/// wildcards, where no static child stands in the way.
pub(crate) proof fn lemma_trip<T>(
    node: Node<T>,
    r: Seq<u8>,
    v: T,
    seg: Seq<u8>,
    found: Seq<Binding>,
)
    requires
        node.sound(),
        !node.is_wildcard(),
        node.value_of(r) == Some(v),
        seg.len() > 0,
        forall|j: int| 0 <= j < seg.len() ==> seg[j] != SLASH,
        node.clear(r, seg[0]),
    ensures
        node.search(fill(r, seg), found) == Some((v, found + binds(r, seg))),
    decreases node,
{
    let p = node.prefix@;
    let n = node.children@.len() as int;
    if r == p {
        lemma_fill_literal(p, Seq::<u8>::empty(), seg);
        assert(p + Seq::<u8>::empty() =~= p);
        assert(found + Seq::<Binding>::empty() =~= found);
    } else {
        let rest = r.skip(p.len() as int);
        assert(r =~= p + rest);
        lemma_fill_literal(p, rest, seg);
        let q = fill(rest, seg);
        let path = fill(r, seg);
        lemma_fill_first(rest, seg);
        assert(p.is_prefix_of(path)) by {
            assert(p =~= path.subrange(0, p.len() as int));
        }
        assert(path.skip(p.len() as int) =~= q);
        let i = node.slot(rest[0]);
        lemma_first(node.indices@, 0, Mark::Byte(rest[0]));
        lemma_first(node.indices@, 0, Mark::Byte(q[0]));
        if !is_wild(rest[0]) {
            if node.wild_child {
                assert(node.children@[n - 1].sound());
            }
            let child = node.children@[i];
            assert(child.sound());
            lemma_trip(child, rest, v, seg, found);
        } else {
            lemma_wild_not_indexed(node, rest[0]);
            let w = node.children@[n - 1];
            assert(w.sound());
            assert(w.clear(rest, seg[0]));
            let t = w.prefix@;
            let name = t.skip(1);
            assert(node.search(path, found) == node.search_wild(q, found));
            if w.node_type == NodeType::Param {
                lemma_param_rest(w, rest);
                let end = first(rest, 1, Mark::Slash);
                assert(end == t.len());
                assert(rest.subrange(1, end) =~= name) by {
                    assert(rest.take(end) == t);
                    assert forall|j: int| 0 <= j < name.len() implies rest.subrange(1, end)[j]
                        == name[j] by {
                        assert(rest.take(end)[j + 1] == rest[j + 1]);
                    }
                }
                let tail = rest.skip(end);
                let filled = fill(tail, seg);
                if tail.len() > 0 {
                    lemma_first(w.indices@, 0, Mark::Byte(tail[0]));
                    assert(0 <= w.slot(tail[0]) < w.children@.len());
                    assert(tail[0] == SLASH);
                    lemma_fill_first(tail, seg);
                    let c = w.children@[0];
                    assert(c.sound());
                    assert(w.slot(tail[0]) == 0);
                    lemma_segment_end(seg, tail, filled);
                    let bound = found.push((name, seg));
                    lemma_trip(c, tail, v, seg, bound);
                    assert(bound + binds(tail, seg) =~= found + binds(rest, seg));
                } else {
                    assert(rest =~= t);
                    lemma_segment_end(seg, tail, filled);
                    assert(seg + filled =~= seg);
                    assert(binds(tail, seg) =~= Seq::<Binding>::empty());
                    assert(binds(rest, seg) =~= seq![(name, seg)]);
                    assert(found.push((name, seg)) =~= found + binds(rest, seg));
                }
            } else {
                lemma_catch_rest(w, rest);
                assert forall|j: int| 1 <= j < rest.len() implies !Mark::Slash.hits(
                    #[trigger] rest[j],
                ) by {}
                lemma_first_is(rest, 1, Mark::Slash, rest.len() as int);
                let tail = rest.skip(rest.len() as int);
                assert(tail =~= Seq::<u8>::empty());
                assert(fill(tail, seg) =~= Seq::<u8>::empty());
                assert(binds(tail, seg) =~= Seq::<Binding>::empty());
                assert(seg + Seq::<u8>::empty() =~= seg);
                assert(q =~= seg);
                assert(rest.subrange(1, rest.len() as int) =~= name);
                assert(binds(rest, seg) =~= seq![(name, seg)]);
                assert(found.push((name, seg)) =~= found + binds(rest, seg));
            }
        }
    }
}

/// Whether every pattern that `node` holds is a pattern of `m` behind `u`.
#[verifier::opaque]
pub(crate) open spec fn embeds<T>(node: Node<T>, m: Map<Seq<u8>, T>, u: Seq<u8>) -> bool {
    forall|x: Seq<u8>| (#[trigger] node.value_of(x)) is Some ==> m.contains_key(u + x)
}

/// The patterns of a child are patterns of its parent, behind the parent's
/// prefix.
pub(crate) proof fn lemma_embeds_child<T>(node: Node<T>, m: Map<Seq<u8>, T>, u: Seq<u8>, i: int)
    requires
        node.sound(),
        embeds(node, m, u),
        0 <= i < node.children@.len(),
    ensures
        embeds(node.children@[i], m, u + node.prefix@),
{
    reveal(embeds);
    let p = node.prefix@;
    let child = node.children@[i];
    let n = node.children@.len() as int;
    assert(child.sound());
    assert forall|x: Seq<u8>| (#[trigger] child.value_of(x)) is Some implies m.contains_key(
        (u + p) + x,
    ) by {
        assert(child.prefix@.is_prefix_of(x));
        assert(x[0] == child.prefix@[0]) by {
            assert(child.prefix@ =~= x.subrange(0, child.prefix@.len() as int));
            assert(x.subrange(0, child.prefix@.len() as int)[0] == x[0]);
        }
        let r = p + x;
        assert(p.is_prefix_of(r)) by {
            assert(p =~= r.subrange(0, p.len() as int));
        }
        assert(r.skip(p.len() as int) =~= x);
        lemma_first(node.indices@, 0, Mark::Byte(x[0]));
        if i < node.indices@.len() {
            let j = first(node.indices@, 0, Mark::Byte(x[0]));
            if j < i {
                assert(node.indices@[j] != node.indices@[i]);
            }
            assert(node.slot(x[0]) == i);
        } else {
            lemma_wild_not_indexed(node, x[0]);
            assert(node.slot(x[0]) == i);
        }
        assert(node.value_of(r) is Some);
        assert((u + p) + x =~= u + r);
    }
}

/// Where no pattern shadows the path made from `r`, no static child stands
/// in the way of it.
pub(crate) proof fn lemma_clear<T>(node: Node<T>, m: Map<Seq<u8>, T>, u: Seq<u8>, r: Seq<u8>, b: u8)
    requires
        node.sound(),
        embeds(node, m, u),
        unshadowed(m, u, r, b),
    ensures
        node.clear(r, b),
    decreases node,
{
    let p = node.prefix@;
    if r.len() > p.len() && p.is_prefix_of(r) {
        let rest = r.skip(p.len() as int);
        assert(r =~= p + rest);
        assert(r.take(p.len() as int) =~= p);
        let i = node.slot(rest[0]);
        if 0 <= i < node.children@.len() {
            if is_wild(rest[0]) {
                let j = first(node.indices@, 0, Mark::Byte(b));
                lemma_first(node.indices@, 0, Mark::Byte(b));
                if j < node.indices@.len() {
                    let child = node.children@[j];
                    assert(child.sound());
                    let x0 = lemma_inhabited(child);
                    assert(x0[0] == b) by {
                        assert(child.prefix@ =~= x0.subrange(0, child.prefix@.len() as int));
                        assert(x0.subrange(0, child.prefix@.len() as int)[0] == x0[0]);
                    }
                    lemma_embeds_child(node, m, u, j);
                    assert(m.contains_key((u + p) + x0)) by {
                        reveal(embeds);
                    }
                    assert(x0 =~= seq![b] + x0.skip(1));
                    assert((u + p) + x0 =~= u + r.take(p.len() as int) + (seq![b] + x0.skip(1)));
                    assert(r[p.len() as int] == rest[0]);
                    assert(false);
                }
            }
            lemma_embeds_child(node, m, u, i);
            assert(node.children@[i].sound());
            assert(unshadowed(m, u + p, rest, b)) by {
                assert forall|k: int, x: Seq<u8>|
                    0 <= k < rest.len() && is_wild(rest[k]) implies !m.contains_key(
                    #[trigger] ((u + p) + rest.take(k) + (seq![b] + x)),
                ) by {
                    let k2 = p.len() + k;
                    assert(r[k2] == rest[k]);
                    assert(r.take(k2) =~= p + rest.take(k));
                    assert((u + p) + rest.take(k) + (seq![b] + x) =~= u + r.take(k2) + (seq![b]
                        + x));
                }
            }
            lemma_clear(node.children@[i], m, u + p, rest, b);
        }
    }
}

/// Matching the path made from a pattern of a well-formed tree, with a
/// segment in the place of every wildcard, yields the value of the pattern
/// and binds the name of every wildcard to the segment. The segment is not
/// empty and holds no `/`, and no other pattern of the tree shadows the
/// path: none is like the pattern up to one of its wildcards and goes on
/// with the first byte of the segment as a literal.
pub proof fn lemma_round_trip<T>(tree: Node<T>, pattern: Seq<u8>, seg: Seq<u8>)
    requires
        tree.wf(),
        tree.routes().contains_key(pattern),
        seg.len() > 0,
        forall|j: int| 0 <= j < seg.len() ==> seg[j] != SLASH,
        unshadowed(tree.routes(), Seq::<u8>::empty(), pattern, seg[0]),
    ensures
        tree.lookup(fill(pattern, seg)) == Some((tree.routes()[pattern], binds(pattern, seg))),
{
    assert(embeds(tree, tree.routes(), Seq::<u8>::empty())) by {
        reveal(embeds);
        assert forall|x: Seq<u8>| (#[trigger] tree.value_of(x)) is Some implies tree.routes().contains_key(
            Seq::<u8>::empty() + x,
        ) by {
            assert(Seq::<u8>::empty() + x =~= x);
        }
    }
    lemma_clear(tree, tree.routes(), Seq::<u8>::empty(), pattern, seg[0]);
    lemma_trip(tree, pattern, tree.routes()[pattern], seg, Seq::<Binding>::empty());
    assert(Seq::<Binding>::empty() + binds(pattern, seg) =~= binds(pattern, seg));
}

} // verus!
