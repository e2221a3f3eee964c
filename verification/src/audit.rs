//! Checking the priorities of a tree at run time, and copying a tree.

use vstd::prelude::*;
use crate::tree::{total, Node};

verus! {

/// The largest priority, as an `int`.
pub open spec fn top() -> int {
    0xffff_ffff
}

/// What is reported of a sum that no priority can be: the largest priority.
pub open spec fn capped(sum: int) -> u32 {
    if sum > top() {
        0xffff_ffffu32
    } else {
        sum as u32
    }
}

/// The check of the first `n` trees of `s`, one after the other: what the
/// first of them that fails reports, or else their priorities together.
pub open(crate) spec fn audit_all<T>(s: Seq<Node<T>>, n: nat) -> Result<int, (u32, u32)>
    decreases s, n,
{
    if n == 0 || n > s.len() {
        Ok(0)
    } else {
        match audit_all(s, (n - 1) as nat) {
            Err(e) => Err(e),
            Ok(sum) => match s[n - 1].audit() {
                Err(e) => Err(e),
                Ok(p) => Ok(sum + p),
            },
        }
    }
}

impl<T> Node<T> {
    /// The check of the priorities of this tree: first the children in
    /// their order, then this node. The first node whose priority is not one
    /// for its value and the priorities of its children is reported, with
    /// its priority and what that should be.
    pub open(crate) spec fn audit(self) -> Result<u32, (u32, u32)>
        decreases self, 0nat,
    {
        match audit_all(self.children@, self.children@.len()) {
            Err(e) => Err(e),
            Ok(sum) => {
                let own = sum + (if self.value is Some {
                    1int
                } else {
                    0int
                });
                if self.priority != own {
                    Err((self.priority, capped(own)))
                } else {
                    Ok(self.priority)
                }
            },
        }
    }

    /// Checks that the priority of every node of this tree is one for its
    /// own value and the priorities of its children. Returns the priority of
    /// the top; or, for the first node found wrong, its priority and what
    /// that should be (no more than the largest priority).
    pub fn check_priorities(&self) -> (res: Result<u32, (u32, u32)>)
        ensures
            res == self.audit(),
        decreases self,
    {
        let limit: u64 = 0x1_0000_0000;
        let mut sum: u64 = 0;
        let mut i: usize = 0;
        while i < self.children.len()
            invariant
                i <= self.children@.len(),
                limit == top() + 1,
                audit_all(self.children@, i as nat) is Ok,
                sum == if audit_all(self.children@, i as nat)->Ok_0 > limit {
                    limit as int
                } else {
                    audit_all(self.children@, i as nat)->Ok_0
                },
                0 <= audit_all(self.children@, i as nat)->Ok_0,
            decreases self.children@.len() - i,
        {
            match self.children[i].check_priorities() {
                Err(e) => {
                    proof {
                        lemma_audit_fails(self.children@, i as nat, self.children@.len());
                    }
                    return Err(e);
                },
                Ok(p) => {
                    sum = sum + p as u64;
                    if sum > limit {
                        sum = limit;
                    }
                },
            }
            i = i + 1;
        }
        if self.value.is_some() {
            sum = sum + 1;
        }
        if self.priority as u64 != sum {
            let should: u32 = if sum > 0xffff_ffff {
                0xffff_ffff
            } else {
                sum as u32
            };
            return Err((self.priority, should));
        }
        Ok(self.priority)
    }
}

/// Once the tree at `i` fails, the check of any more trees fails the same way.
proof fn lemma_audit_fails<T>(s: Seq<Node<T>>, i: nat, n: nat)
    requires
        i < n <= s.len(),
        audit_all(s, i) is Ok,
        s[i as int].audit() is Err,
    ensures
        audit_all(s, n) == Err::<int, (u32, u32)>(s[i as int].audit()->Err_0),
    decreases n,
{
    if n > i + 1 {
        lemma_audit_fails(s, i, (n - 1) as nat);
    }
}

/// The check of the first `n` trees passes where each has the priority that
/// its value and children give, all the way down.
proof fn lemma_audit_all<T>(s: Seq<Node<T>>, n: nat)
    requires
        n <= s.len(),
        forall|i: int| 0 <= i < s.len() ==> (#[trigger] s[i]).sound() && s[i].priority == s[i].weight(),
    ensures
        audit_all(s, n) == Ok::<int, (u32, u32)>(total(s.take(n as int))),
    decreases s, n,
{
    if n == 0 {
        assert(s.take(0).len() == 0);
    } else {
        lemma_audit_all(s, (n - 1) as nat);
        lemma_audit_passes(s[n - 1]);
        assert(s.take(n as int).drop_last() =~= s.take(n - 1));
        assert(s.take(n as int).last() == s[n - 1]);
    }
}

/// In a well-formed tree the check of the priorities passes, with the
/// priority of the top.
pub proof fn lemma_check_passes<T>(tree: Node<T>)
    requires
        tree.wf(),
    ensures
        tree.audit() == Ok::<u32, (u32, u32)>(tree.count() as u32),
{
    lemma_audit_passes(tree);
}

/// In a tree that is in order the check of the priorities passes.
pub(crate) proof fn lemma_audit_passes<T>(node: Node<T>)
    requires
        node.sound(),
        node.priority == node.weight(),
    ensures
        node.audit() == Ok::<u32, (u32, u32)>(node.priority),
    decreases node, 1nat,
{
    let s = node.children@;
    assert forall|i: int| 0 <= i < s.len() implies (#[trigger] s[i]).sound() && s[i].priority
        == s[i].weight() by {}
    lemma_audit_all(s, s.len());
    assert(s.take(s.len() as int) =~= s);
}

} // verus!
