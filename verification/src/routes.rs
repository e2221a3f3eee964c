//! What a tree holds before and after a change of its nodes.

use vstd::prelude::*;
use crate::tree::Node;

verus! {

impl<T> Node<T> {
    /// The value held for the pattern `q` below this node: in the child
    /// that `q` begins like.
    pub open(crate) spec fn below(self, q: Seq<u8>) -> Option<T> {
        let i = self.slot(q[0]);
        if q.len() > 0 && 0 <= i < self.children@.len() {
            self.children@[i].value_of(q)
        } else {
            None
        }
    }
}

/// Whether two trees hold the same values for the same patterns.
#[verifier::opaque]
pub(crate) open spec fn same_values<T>(a: Node<T>, b: Node<T>) -> bool {
    forall|q: Seq<u8>| #[trigger] a.value_of(q) == b.value_of(q)
}

/// Whether `after` holds below it `val` for the pattern `x`, and else what
/// `before` held below it.
#[verifier::opaque]
pub(crate) open spec fn grafts<T>(before: Node<T>, after: Node<T>, x: Seq<u8>, val: T) -> bool {
    forall|q: Seq<u8>| #[trigger]
        after.below(q) == (if q == x {
            Some(val)
        } else {
            before.below(q)
        })
}

/// Whether `after` holds `val` for the pattern `x` and else what `before` held.
#[verifier::opaque]
pub(crate) open spec fn adds<T>(before: Node<T>, after: Node<T>, x: Seq<u8>, val: T) -> bool {
    forall|q: Seq<u8>| #[trigger]
        after.value_of(q) == (if q == x {
            Some(val)
        } else {
            before.value_of(q)
        })
}

/// Whether `node` holds the value `val` for the pattern `x` and nothing else.
#[verifier::opaque]
pub(crate) open spec fn only<T>(node: Node<T>, x: Seq<u8>, val: T) -> bool {
    forall|q: Seq<u8>| #[trigger]
        node.value_of(q) == (if q == x {
            Some(val)
        } else {
            None
        })
}

/// Whether `node` holds no value at all.
#[verifier::opaque]
pub(crate) open spec fn bare<T>(node: Node<T>) -> bool {
    forall|q: Seq<u8>| #[trigger] node.value_of(q) is None
}

/// The values of a tree do not depend on the priority and kind of its top.
pub(crate) proof fn lemma_same_parts<T>(a: Node<T>, b: Node<T>)
    requires
        a.prefix@ == b.prefix@,
        a.value == b.value,
        a.children@ == b.children@,
        a.indices@ == b.indices@,
        a.wild_child == b.wild_child,
    ensures
        same_values(a, b),
{
    reveal(same_values);
}

pub(crate) proof fn lemma_same_values_refl<T>(a: Node<T>)
    ensures
        same_values(a, a),
{
    reveal(same_values);
}

pub(crate) proof fn lemma_same_values_sym<T>(a: Node<T>, b: Node<T>)
    requires
        same_values(a, b),
    ensures
        same_values(b, a),
{
    reveal(same_values);
}

/// What is added does not depend on which of two trees with the same
/// values it is added to, nor on which of two such trees it ends up in.
pub(crate) proof fn lemma_adds_same<T>(
    a: Node<T>,
    b: Node<T>,
    c: Node<T>,
    d: Node<T>,
    x: Seq<u8>,
    val: T,
)
    requires
        same_values(a, b),
        same_values(c, d),
        adds(a, c, x, val),
    ensures
        adds(b, d, x, val),
{
    reveal(adds);
    reveal(same_values);
    assert forall|q: Seq<u8>| #[trigger]
        d.value_of(q) == (if q == x {
            Some(val)
        } else {
            b.value_of(q)
        }) by {
        assert(a.value_of(q) == b.value_of(q));
        assert(c.value_of(q) == d.value_of(q));
    }
}

/// A node that keeps its prefix and value holds what is grafted below it,
/// behind its prefix.
pub(crate) proof fn lemma_rewire<T>(before: Node<T>, after: Node<T>, x: Seq<u8>, val: T)
    requires
        before.prefix@ == after.prefix@,
        before.value == after.value,
        x.len() > 0,
        grafts(before, after, x, val),
    ensures
        adds(before, after, before.prefix@ + x, val),
{
    reveal(adds);
    reveal(grafts);
    let p = before.prefix@;
    assert forall|q: Seq<u8>| #[trigger]
        after.value_of(q) == (if q == p + x {
            Some(val)
        } else {
            before.value_of(q)
        }) by {
        if q.len() > p.len() && p.is_prefix_of(q) {
            let rest = q.skip(p.len() as int);
            assert(q =~= p + rest);
            assert((p + x).skip(p.len() as int) =~= x);
            assert(after.value_of(q) == after.below(rest));
            assert(before.value_of(q) == before.below(rest));
        } else {
            assert(p.is_prefix_of(p + x));
        }
    }
}

/// Where for every byte but the first of `x` the children that patterns
/// go to hold the same before and after, and the child for `x` holds `val`
/// for `x` and else what the child before held, `val` is grafted.
pub(crate) proof fn lemma_graft<T>(before: Node<T>, after: Node<T>, x: Seq<u8>, val: T)
    requires
        x.len() > 0,
        forall|b: u8|
            b != x[0] ==> {
                let i = #[trigger] before.slot(b);
                let j = after.slot(b);
                &&& 0 <= i < before.children@.len() <==> 0 <= j < after.children@.len()
                &&& 0 <= i < before.children@.len() ==> same_values(
                    before.children@[i],
                    after.children@[j],
                )
            },
        0 <= after.slot(x[0]) < after.children@.len(),
        if 0 <= before.slot(x[0]) < before.children@.len() {
            adds(before.children@[before.slot(x[0])], after.children@[after.slot(x[0])], x, val)
        } else {
            only(after.children@[after.slot(x[0])], x, val)
        },
    ensures
        grafts(before, after, x, val),
{
    reveal(grafts);
    reveal(adds);
    reveal(only);
    reveal(same_values);
    assert forall|q: Seq<u8>| #[trigger]
        after.below(q) == (if q == x {
            Some(val)
        } else {
            before.below(q)
        }) by {
        if q.len() > 0 {
            let b = q[0];
            let i = before.slot(b);
            let j = after.slot(b);
            if b != x[0] {
                assert(q != x);
                if 0 <= i < before.children@.len() {
                    assert(same_values(before.children@[i], after.children@[j]));
                    assert(before.children@[i].value_of(q) == after.children@[j].value_of(q));
                }
            }
        }
    }
}

} // verus!
