//! Moving one item of a sequence towards the front.

use vstd::prelude::*;
use crate::pattern::{first, lemma_first, lemma_first_is, Mark};

verus! {

/// The sequence `s` with the item at `i` taken out and `x` put in at `u`.
pub open spec fn moved<A>(s: Seq<A>, i: int, u: int, x: A) -> Seq<A> {
    s.remove(i).insert(u, x)
}

/// Where the item at `j` stands once the item at `i` has moved to `u`.
pub open spec fn shift(j: int, i: int, u: int) -> int {
    if j == i {
        u
    } else if u <= j < i {
        j + 1
    } else {
        j
    }
}

/// Where the item that stands at `k` after the move stood before.
pub open spec fn unshift(k: int, i: int, u: int) -> int {
    if k < u {
        k
    } else if k <= i {
        k - 1
    } else {
        k
    }
}

pub proof fn lemma_moved<A>(s: Seq<A>, i: int, u: int, x: A)
    requires
        0 <= u <= i < s.len(),
    ensures
        moved(s, i, u, x).len() == s.len(),
        moved(s, i, u, x)[u] == x,
        forall|j: int|
            0 <= j < s.len() && j != i ==> moved(s, i, u, x)[#[trigger] shift(j, i, u)] == s[j],
        forall|k: int|
            0 <= k < s.len() && k != u ==> {
                let j = unshift(k, i, u);
                &&& 0 <= j < s.len()
                &&& j != i
                &&& k == shift(j, i, u)
                &&& #[trigger] moved(s, i, u, x)[k] == s[j]
            },
{
}

/// Where a byte stands in `indices` once the byte at `i` has moved to `u`.
pub proof fn lemma_moved_first(s: Seq<u8>, i: int, u: int, b: u8)
    requires
        0 <= u <= i < s.len(),
        forall|j: int, k: int| 0 <= j < k < s.len() ==> #[trigger] s[j] != #[trigger] s[k],
    ensures
        ({
            let j = first(s, 0, Mark::Byte(b));
            let k = first(moved(s, i, u, s[i]), 0, Mark::Byte(b));
            if j < s.len() {
                k == shift(j, i, u)
            } else {
                k == s.len()
            }
        }),
{
    let m = moved(s, i, u, s[i]);
    let j = first(s, 0, Mark::Byte(b));
    lemma_first(s, 0, Mark::Byte(b));
    lemma_moved(s, i, u, s[i]);
    let target = if j < s.len() {
        shift(j, i, u)
    } else {
        s.len() as int
    };
    assert forall|k: int| 0 <= k < target implies !Mark::Byte(b).hits(#[trigger] m[k]) by {
        if k == u {
            assert(m[k] == s[i]);
            if s[i] == b {
                assert(j <= i);
                if j < i {
                    assert(s[j] != s[i]);
                }
            }
        } else {
            let j2 = unshift(k, i, u);
            assert(m[k] == s[j2]);
            if s[j2] == b {
                if j < j2 {
                    assert(s[j] != s[j2]);
                }
            }
        }
    }
    if j < s.len() {
        if j == i {
            assert(m[u] == s[i]);
        } else {
            assert(m[shift(j, i, u)] == s[j]);
        }
    }
    lemma_first_is(m, 0, Mark::Byte(b), target);
}

} // verus!
