//! What holds of every well-formed tree.

use vstd::map::*;
use vstd::prelude::*;
use crate::resolve::{get, lemma_same_routes_same_answers};
use crate::tree::Node;

verus! {

impl<T> Node<T> {
    /// The priority of this node is one for its own value, if it has one,
    /// and the priorities of its children.
    pub open(crate) spec fn priority_adds_up(self) -> bool {
        self.count() == self.weight()
    }

    /// There is one byte in `indices` for each static child, and it is the
    /// first byte of that child's prefix: the children in front are the
    /// static ones, as many as `indices` is long.
    pub open(crate) spec fn indices_name_statics(self) -> bool {
        &&& self.index_bytes().len() <= self.child_nodes().len()
        &&& forall|i: int|
            0 <= i < self.child_nodes().len() ==> (i < self.index_bytes().len() <==> !(
            #[trigger] self.child_nodes()[i]).is_wildcard())
        &&& forall|i: int|
            0 <= i < self.index_bytes().len() ==> (#[trigger] self.child_nodes()[i]).prefix_bytes().len()
                > 0 && self.child_nodes()[i].prefix_bytes()[0] == self.index_bytes()[i]
    }

    /// A wildcard child is the last child, and there is one exactly where
    /// `wild_child` says so.
    pub open(crate) spec fn wildcard_is_last(self) -> bool {
        forall|i: int|
            0 <= i < self.child_nodes().len() ==> ((#[trigger] self.child_nodes()[i]).is_wildcard()
                <==> self.wild_last() && i == self.child_nodes().len() - 1)
    }

    /// From one static child to the next the priority does not rise.
    pub open(crate) spec fn statics_by_priority(self) -> bool {
        forall|i: int, j: int|
            0 <= i < j < self.index_bytes().len() ==> (#[trigger] self.child_nodes()[i]).count() >= (
            #[trigger] self.child_nodes()[j]).count()
    }

    /// Whether the four statements above hold of this node and of every
    /// node below it.
    pub open(crate) spec fn in_order_throughout(self) -> bool
        decreases self,
    {
        &&& self.priority_adds_up()
        &&& self.indices_name_statics()
        &&& self.wildcard_is_last()
        &&& self.statics_by_priority()
        &&& forall|i: int|
            0 <= i < self.child_nodes().len() ==> (#[trigger] self.child_nodes()[i]).in_order_throughout()
    }
}

proof fn lemma_in_order<T>(node: Node<T>)
    requires
        node.sound(),
        node.priority == node.weight(),
    ensures
        node.in_order_throughout(),
    decreases node,
{
    let n = node.children@.len() as int;
    let s = node.indices@.len() as int;
    assert forall|i: int| 0 <= i < n implies (#[trigger] node.children@[i]).in_order_throughout()
        && (i < s <==> !node.children@[i].is_wildcard()) by {
        assert(node.children@[i].sound());
        lemma_in_order(node.children@[i]);
    }
}

/// In a well-formed tree, and so after every insertion, every node has the
/// priority that its value and its children give, names its static children
/// in `indices`, has at most one wildcard child, which is the last, and has
/// its static children in the order of their priorities.
pub proof fn lemma_well_formed_in_order<T>(tree: Node<T>)
    requires
        tree.wf(),
    ensures
        tree.in_order_throughout(),
{
    lemma_in_order(tree);
}


/// The patterns of `m` with those of `entries` put in, one after the other.
pub open spec fn with_all<T>(m: Map<Seq<u8>, T>, entries: Seq<(Seq<u8>, T)>) -> Map<Seq<u8>, T>
    decreases entries.len(),
{
    if entries.len() == 0 {
        m
    } else {
        with_all(m, entries.drop_last()).insert(entries.last().0, entries.last().1)
    }
}

/// Whether no two of `entries` have the same pattern.
pub open spec fn distinct_patterns<T>(entries: Seq<(Seq<u8>, T)>) -> bool {
    forall|i: int, j: int|
        0 <= i < j < entries.len() ==> (#[trigger] entries[i]).0 != (#[trigger] entries[j]).0
}

proof fn lemma_with_all<T>(m: Map<Seq<u8>, T>, entries: Seq<(Seq<u8>, T)>, k: Seq<u8>)
    requires
        distinct_patterns(entries),
    ensures
        forall|i: int|
            0 <= i < entries.len() && (#[trigger] entries[i]).0 == k ==> get(with_all(m, entries), k)
                == Some(entries[i].1),
        (forall|i: int| 0 <= i < entries.len() ==> (#[trigger] entries[i]).0 != k) ==> get(
            with_all(m, entries),
            k,
        ) == get(m, k),
    decreases entries.len(),
{
    if entries.len() > 0 {
        let front = entries.drop_last();
        assert forall|i: int, j: int| 0 <= i < j < front.len() implies (#[trigger] front[i]).0 != (
        #[trigger] front[j]).0 by {
            assert(front[i] == entries[i]);
            assert(front[j] == entries[j]);
        }
        lemma_with_all(m, front, k);
        assert forall|i: int| 0 <= i < entries.len() && (#[trigger] entries[i]).0 == k implies get(
            with_all(m, entries),
            k,
        ) == Some(entries[i].1) by {
            if i < entries.len() - 1 {
                assert(front[i] == entries[i]);
                assert(entries[i].0 != entries[entries.len() - 1].0);
            }
        }
        if forall|i: int| 0 <= i < entries.len() ==> (#[trigger] entries[i]).0 != k {
            assert forall|i: int| 0 <= i < front.len() implies (#[trigger] front[i]).0 != k by {
                assert(front[i] == entries[i]);
            }
            assert(entries[entries.len() - 1].0 != k);
        }
    }
}

/// Putting the same patterns in, each once, gives the same patterns in
/// whatever order they are put in.
pub proof fn lemma_any_order<T>(
    m: Map<Seq<u8>, T>,
    first: Seq<(Seq<u8>, T)>,
    second: Seq<(Seq<u8>, T)>,
)
    requires
        distinct_patterns(first),
        distinct_patterns(second),
        forall|x: (Seq<u8>, T)| first.contains(x) <==> second.contains(x),
    ensures
        with_all(m, first) == with_all(m, second),
{
    let a = with_all(m, first);
    let b = with_all(m, second);
    assert_maps_equal!(a, b, k => {
        lemma_with_all(m, first, k);
        lemma_with_all(m, second, k);
        if exists|i: int| 0 <= i < first.len() && (#[trigger] first[i]).0 == k {
            let i = choose|i: int| 0 <= i < first.len() && (#[trigger] first[i]).0 == k;
            assert(first.contains(first[i]));
            assert(second.contains(first[i]));
            let j = choose|j: int| 0 <= j < second.len() && second[j] == first[i];
            assert(second[j].0 == k);
        } else if exists|j: int| 0 <= j < second.len() && (#[trigger] second[j]).0 == k {
            let j = choose|j: int| 0 <= j < second.len() && (#[trigger] second[j]).0 == k;
            assert(second.contains(second[j]));
            assert(first.contains(second[j]));
            let i = choose|i: int| 0 <= i < first.len() && first[i] == second[j];
            assert(first[i].0 == k);
        }
    });
}

/// Two well-formed trees into which the same patterns were inserted, each
/// once and with the same value, answer every path alike, whatever the two
/// orders of insertion were.
pub proof fn lemma_insertion_order<T>(
    a: Node<T>,
    b: Node<T>,
    first: Seq<(Seq<u8>, T)>,
    second: Seq<(Seq<u8>, T)>,
    path: Seq<u8>,
)
    requires
        a.wf(),
        b.wf(),
        distinct_patterns(first),
        distinct_patterns(second),
        forall|x: (Seq<u8>, T)| first.contains(x) <==> second.contains(x),
        a.routes() == with_all(Map::<Seq<u8>, T>::empty(), first),
        b.routes() == with_all(Map::<Seq<u8>, T>::empty(), second),
    ensures
        a.lookup(path) == b.lookup(path),
        a.verdict(path) == b.verdict(path),
{
    lemma_any_order(Map::<Seq<u8>, T>::empty(), first, second);
    lemma_same_routes_same_answers(a, b, path);
}

} // verus!
