//! The radix tree: its nodes and what makes a tree well formed.

use vstd::prelude::*;
use vstd::slice::slice_to_vec;
use crate::pattern::{first, is_wild, Mark, COLON, SLASH, STAR};

verus! {

/// The kinds of node that a tree holds.
#[derive(PartialEq, Eq, Debug, Clone, Copy, Structural)]
pub enum NodeType {
    /// The node at the top of a tree that holds a pattern.
    Root,
    /// A named parameter, such as `:id`.
    Param,
    /// A catch-all parameter, such as `*file`.
    CatchAll,
    /// Literal bytes.
    Static,
}

/// A node of the radix tree, and with its descendants a tree.
pub struct Node<T> {
    pub(crate) priority: u32,
    pub(crate) wild_child: bool,
    pub(crate) indices: Vec<u8>,
    pub(crate) node_type: NodeType,
    pub(crate) value: Option<T>,
    pub(crate) prefix: Vec<u8>,
    pub(crate) children: Vec<Node<T>>,
}

/// The sum of the priorities of the nodes in `s`.
pub open(crate) spec fn total<T>(s: Seq<Node<T>>) -> int
    decreases s.len(),
{
    if s.len() == 0 {
        0
    } else {
        total(s.drop_last()) + s.last().priority
    }
}

/// The number of nodes in the first `n` trees of `s`.
pub open(crate) spec fn sizes<T>(s: Seq<Node<T>>, n: nat) -> nat
    decreases s, n,
{
    if n == 0 || n > s.len() {
        0
    } else {
        sizes(s, (n - 1) as nat) + s[n - 1].size()
    }
}

/// Whether the bytes of a wildcard's name are free of `/`, `:` and `*`.
pub open spec fn clean_name(token: Seq<u8>) -> bool {
    forall|k: int| 1 <= k < token.len() ==> token[k] != SLASH && !is_wild(#[trigger] token[k])
}

impl<T> Node<T> {
    /// The number of nodes in this tree.
    pub open(crate) spec fn size(self) -> nat
        decreases self, 0nat,
    {
        1 + sizes(self.children@, self.children@.len())
    }

    /// What the priority of this node has to be: one for its own value and
    /// the priorities of its children.
    pub open(crate) spec fn weight(self) -> int {
        (if self.value is Some { 1int } else { 0int }) + total(self.children@)
    }

    /// Whether this node is a wildcard.
    pub open(crate) spec fn is_wildcard(self) -> bool {
        self.node_type == NodeType::Param || self.node_type == NodeType::CatchAll
    }

    /// What holds of a node's own fields, by its kind.
    pub open(crate) spec fn kind_ok(self) -> bool {
        match self.node_type {
            NodeType::Param => {
                &&& self.prefix@.len() >= 2
                &&& self.prefix@[0] == COLON
                &&& clean_name(self.prefix@)
                &&& !self.wild_child
                &&& self.children@.len() <= 1
                &&& self.indices@.len() == 1 ==> self.indices@[0] == SLASH
            },
            NodeType::CatchAll => {
                &&& self.prefix@.len() >= 2
                &&& self.prefix@[0] == STAR
                &&& clean_name(self.prefix@)
                &&& self.children@.len() == 0
                &&& self.value is Some
            },
            _ => forall|k: int| 0 <= k < self.prefix@.len() ==> !is_wild(#[trigger] self.prefix@[k]),
        }
    }

    /// What holds between a node and its children: the static children come
    /// first, one for each byte of `indices` and in that order, each
    /// beginning with its byte, no byte twice, by falling priority; a
    /// wildcard child comes last, and only where `wild_child` says so; every
    /// child has a prefix, holds a value somewhere, and has the priority that
    /// its own value and children give.
    pub open(crate) spec fn links_ok(self) -> bool {
        let n = self.children@.len() as int;
        let s = self.indices@.len() as int;
        &&& n == s + (if self.wild_child { 1int } else { 0int })
        &&& forall|i: int|
            0 <= i < n ==> {
                &&& (#[trigger] self.children@[i]).prefix@.len() > 0
                &&& self.children@[i].priority >= 1
                &&& self.children@[i].priority == self.children@[i].weight()
            }
        &&& forall|i: int|
            0 <= i < s ==> {
                &&& (#[trigger] self.children@[i]).node_type == NodeType::Static
                &&& self.children@[i].prefix@[0] == self.indices@[i]
            }
        &&& forall|i: int, j: int|
            0 <= i < j < s ==> #[trigger] self.indices@[i] != #[trigger] self.indices@[j]
        &&& forall|i: int, j: int|
            0 <= i < j < s ==> (#[trigger] self.children@[i]).priority
                >= (#[trigger] self.children@[j]).priority
        &&& self.wild_child ==> self.children@[n - 1].is_wildcard()
    }

    /// Whether every node of this tree is in order by itself and with its
    /// children. The priority of this node itself is left open.
    pub open(crate) spec fn sound(self) -> bool
        decreases self,
    {
        &&& self.kind_ok()
        &&& self.links_ok()
        &&& forall|i: int|
            0 <= i < self.children@.len() ==> (#[trigger] self.children@[i]).sound()
    }

    /// Whether this is a well-formed tree: every node is in order, every
    /// priority is the number of values at and below its node, the top is no
    /// wildcard, and has a prefix only where the tree holds a value.
    pub open(crate) spec fn wf(self) -> bool {
        &&& self.sound()
        &&& self.priority == self.weight()
        &&& !self.is_wildcard()
        &&& self.prefix@.len() > 0 ==> self.weight() >= 1
    }
}


impl<T> Node<T> {
    /// The index of the child that patterns beginning with `b` go to: the
    /// static child for `b`, or the wildcard child where `b` begins its
    /// prefix, or the number of children where there is neither.
    pub open(crate) spec fn slot(self, b: u8) -> int {
        let i = first(self.indices@, 0, Mark::Byte(b));
        let n = self.children@.len() as int;
        if i < self.indices@.len() {
            i
        } else if self.wild_child && n > 0 && self.children@[n - 1].prefix@.len() > 0
            && self.children@[n - 1].prefix@[0] == b {
            n - 1
        } else {
            n
        }
    }

    /// The value that this tree holds for the pattern `r`, where it holds
    /// one: the pattern is the prefixes from this node down to the node of
    /// the value, one after the other.
    pub open(crate) spec fn value_of(self, r: Seq<u8>) -> Option<T>
        decreases self,
    {
        let p = self.prefix@;
        if r == p {
            self.value
        } else if r.len() > p.len() && p.is_prefix_of(r) {
            let rest = r.skip(p.len() as int);
            let i = self.slot(rest[0]);
            if 0 <= i < self.children@.len() {
                self.children@[i].value_of(rest)
            } else {
                None
            }
        } else {
            None
        }
    }

    /// The prefixes below this node along its first children, down to a leaf.
    pub open(crate) spec fn first_chain(self) -> Seq<u8>
        decreases self,
    {
        if self.children@.len() == 0 {
            Seq::<u8>::empty()
        } else {
            self.children@[0].prefix@ + self.children@[0].first_chain()
        }
    }

    /// Whether this node has nothing in it.
    pub open(crate) spec fn blank(self) -> bool {
        &&& self.prefix@.len() == 0
        &&& self.children@.len() == 0
        &&& self.indices@.len() == 0
        &&& self.value is None
        &&& !self.wild_child
    }

    /// This node with one more in its priority.
    pub open(crate) spec fn bumped(self) -> Node<T> {
        Node { priority: (self.priority + 1) as u32, ..self }
    }
}

impl<T> Node<T> {
    /// A static node with nothing in it and the given priority.
    pub(crate) fn fresh(priority: u32) -> (node: Self)
        ensures
            node.blank(),
            node.priority == priority,
            node.node_type == NodeType::Static,
            node.sound(),
            node.weight() == 0,
    {
        let node = Node {
            prefix: Vec::new(),
            wild_child: false,
            node_type: NodeType::Static,
            indices: Vec::new(),
            children: Vec::new(),
            value: None,
            priority,
        };
        assert(total(node.children@) == 0);
        node
    }
}

impl<T> Node<T> {
    /// The patterns that this tree holds, each with its value.
    pub open(crate) spec fn routes(self) -> Map<Seq<u8>, T> {
        Map::new(|r: Seq<u8>| self.value_of(r) is Some, |r: Seq<u8>| self.value_of(r).unwrap())
    }

    /// Whether every pattern of this tree is well-formed UTF-8, as the
    /// patterns that come in as text are.
    pub open(crate) spec fn all_text(self) -> bool {
        forall|r: Seq<u8>| #[trigger] self.routes().contains_key(r) ==> vstd::utf8::valid_utf8(r)
    }

    /// The priority of the top: in a well-formed tree the number of patterns.
    pub open(crate) spec fn count(self) -> nat {
        self.priority as nat
    }

    /// The priority of this node: the number of patterns at and below it.
    pub fn priority(&self) -> (p: u32)
        ensures
            p == self.count(),
    {
        self.priority
    }

    /// The bytes of this node's prefix.
    pub open(crate) spec fn prefix_bytes(self) -> Seq<u8> {
        self.prefix@
    }

    /// The prefix of this node: literal bytes, or a wildcard token.
    pub fn prefix(&self) -> (p: &[u8])
        ensures
            p@ == self.prefix_bytes(),
    {
        self.prefix.as_slice()
    }

    /// The first bytes of the static children, in the order of the children.
    pub open(crate) spec fn index_bytes(self) -> Seq<u8> {
        self.indices@
    }

    /// The first byte of each static child, in the order of the children.
    pub fn indices(&self) -> (b: &[u8])
        ensures
            b@ == self.index_bytes(),
    {
        self.indices.as_slice()
    }

    /// The children of this node, in their order.
    pub open(crate) spec fn child_nodes(self) -> Seq<Node<T>> {
        self.children@
    }

    /// The children of this node: the static ones by falling priority, then
    /// the wildcard child, if there is one.
    pub fn children(&self) -> (c: &[Node<T>])
        ensures
            c@ == self.child_nodes(),
    {
        self.children.as_slice()
    }

    /// The kind of this node.
    pub open(crate) spec fn kind_of(self) -> NodeType {
        self.node_type
    }

    /// The kind of this node.
    pub fn kind(&self) -> (k: NodeType)
        ensures
            k == self.kind_of(),
    {
        self.node_type
    }

    /// Whether the last child of this node is a wildcard.
    pub open(crate) spec fn wild_last(self) -> bool {
        self.wild_child
    }

    /// Whether the last child of this node is a wildcard.
    pub fn has_wild_child(&self) -> (w: bool)
        ensures
            w == self.wild_last(),
    {
        self.wild_child
    }

    /// The value of this node itself, if a pattern ends at it.
    pub open(crate) spec fn own_value(self) -> Option<T> {
        self.value
    }

    /// The value of the pattern that ends at this node, if one does.
    pub fn value(&self) -> (v: Option<&T>)
        ensures
            match v {
                Some(x) => self.own_value() == Some(*x),
                None => self.own_value() is None,
            },
    {
        match &self.value {
            Some(x) => Some(x),
            None => None,
        }
    }

    /// Whether this tree is a copy of `other`: the same nodes with the same
    /// fields, and each value a clone of the value in its place.
    pub open(crate) spec fn mirrors(self, other: Node<T>) -> bool where T: Clone
        decreases self,
    {
        &&& self.priority == other.priority
        &&& self.wild_child == other.wild_child
        &&& self.node_type == other.node_type
        &&& self.indices@ == other.indices@
        &&& self.prefix@ == other.prefix@
        &&& match (other.value, self.value) {
            (Some(a), Some(b)) => cloned(a, b),
            (None, None) => true,
            _ => false,
        }
        &&& self.children@.len() == other.children@.len()
        &&& forall|i: int|
            0 <= i < self.children@.len() ==> (#[trigger] self.children@[i]).mirrors(
                other.children@[i],
            )
    }
}

impl<T: Clone> Clone for Node<T> {
    /// A copy of this tree, node by node, with every value cloned.
    fn clone(&self) -> (res: Self)
        ensures
            res.mirrors(*self),
        decreases self,
    {
        let value = match &self.value {
            Some(v) => Some(v.clone()),
            None => None,
        };
        let mut children: Vec<Node<T>> = Vec::new();
        let mut i: usize = 0;
        while i < self.children.len()
            invariant
                i <= self.children@.len(),
                children@.len() == i,
                forall|k: int| 0 <= k < i ==> (#[trigger] children@[k]).mirrors(self.children@[k]),
            decreases self.children@.len() - i,
        {
            let child = self.children[i].clone();
            children.push(child);
            i = i + 1;
        }
        Node {
            value,
            prefix: slice_to_vec(self.prefix.as_slice()),
            wild_child: self.wild_child,
            node_type: self.node_type,
            indices: slice_to_vec(self.indices.as_slice()),
            children,
            priority: self.priority,
        }
    }
}

impl<T> Default for Node<T> {
    /// The empty tree.
    fn default() -> (node: Self)
        ensures
            node.blank(),
            node.wf(),
            node.all_text(),
            node.routes() == Map::<Seq<u8>, T>::empty(),
    {
        let node = Node::fresh(0);
        assert(node.routes() =~= Map::<Seq<u8>, T>::empty());
        node
    }
}

pub(crate) proof fn lemma_total_push<T>(s: Seq<Node<T>>, x: Node<T>)
    ensures
        total(s.push(x)) == total(s) + x.priority,
{
    assert(s.push(x).drop_last() =~= s);
}

pub(crate) proof fn lemma_total_insert<T>(s: Seq<Node<T>>, i: int, x: Node<T>)
    requires
        0 <= i <= s.len(),
    ensures
        total(s.insert(i, x)) == total(s) + x.priority,
    decreases s.len(),
{
    if i == s.len() {
        assert(s.insert(i, x) =~= s.push(x));
        lemma_total_push(s, x);
    } else {
        assert(s.insert(i, x).drop_last() =~= s.drop_last().insert(i, x));
        lemma_total_insert(s.drop_last(), i, x);
    }
}

pub(crate) proof fn lemma_total_remove<T>(s: Seq<Node<T>>, i: int)
    requires
        0 <= i < s.len(),
    ensures
        total(s.remove(i)) == total(s) - s[i].priority,
    decreases s.len(),
{
    if i == s.len() - 1 {
        assert(s.remove(i) =~= s.drop_last());
    } else {
        assert(s.remove(i).drop_last() =~= s.drop_last().remove(i));
        lemma_total_remove(s.drop_last(), i);
    }
}

pub(crate) proof fn lemma_total_update<T>(s: Seq<Node<T>>, i: int, x: Node<T>)
    requires
        0 <= i < s.len(),
    ensures
        total(s.update(i, x)) == total(s) - s[i].priority + x.priority,
{
    lemma_total_remove(s, i);
    lemma_total_insert(s.remove(i), i, x);
    assert(s.remove(i).insert(i, x) =~= s.update(i, x));
}

/// No child has more priority than all of them together.
pub(crate) proof fn lemma_total_bounds<T>(s: Seq<Node<T>>, i: int)
    requires
        0 <= i < s.len(),
    ensures
        s[i].priority <= total(s),
        0 <= total(s),
    decreases s.len(),
{
    lemma_total_nonneg(s.drop_last());
    if i < s.len() - 1 {
        lemma_total_bounds(s.drop_last(), i);
    }
}

pub(crate) proof fn lemma_total_nonneg<T>(s: Seq<Node<T>>)
    ensures
        0 <= total(s),
    decreases s.len(),
{
    if s.len() > 0 {
        lemma_total_nonneg(s.drop_last());
    }
}

impl<T> Node<T> {
    /// Adds a child: at the end, or where the last child is a wildcard, just
    /// before it, so that the wildcard stays last. Returns the index of the
    /// new child.
    pub(crate) fn add_child(&mut self, child: Node<T>) -> (at: usize)
        ensures
            at == if old(self).wild_child && old(self).children@.len() > 0 {
                old(self).children@.len() - 1
            } else {
                old(self).children@.len() as int
            },
            final(self).children@ == old(self).children@.insert(at as int, child),
            final(self).priority == old(self).priority,
            final(self).wild_child == old(self).wild_child,
            final(self).indices == old(self).indices,
            final(self).node_type == old(self).node_type,
            final(self).value == old(self).value,
            final(self).prefix == old(self).prefix,
    {
        let len: usize = self.children.len();
        if self.wild_child && len > 0 {
            self.children.insert(len - 1, child);
            len - 1
        } else {
            self.children.push(child);
            assert(self.children@ =~= old(self).children@.insert(len as int, child));
            len
        }
    }

    /// Adds one to the priority of the static child at `i` and moves the
    /// child towards the front, past every sibling of less priority; the
    /// bytes of `indices` move with the children. Returns where the child
    /// now stands.
    pub(crate) fn update_child_priority(&mut self, i: usize) -> (updated: usize)
        requires
            i < old(self).children@.len(),
            i < old(self).indices@.len(),
            old(self).children@[i as int].priority < u32::MAX,
        ensures
            updated <= i,
            forall|j: int|
                updated <= j < i ==> (#[trigger] old(self).children@[j]).priority <= old(
                    self,
                ).children@[i as int].priority,
            updated > 0 ==> old(self).children@[updated - 1].priority > old(
                self,
            ).children@[i as int].priority,
            final(self).children@ == old(self).children@.remove(i as int).insert(
                updated as int,
                old(self).children@[i as int].bumped(),
            ),
            final(self).indices@ == old(self).indices@.remove(i as int).insert(
                updated as int,
                old(self).indices@[i as int],
            ),
            final(self).priority == old(self).priority,
            final(self).wild_child == old(self).wild_child,
            final(self).node_type == old(self).node_type,
            final(self).value == old(self).value,
            final(self).prefix == old(self).prefix,
    {
        self.children[i].priority += 1;
        let priority: u32 = self.children[i].priority;
        let ghost raised = self.children@;
        assert(raised =~= old(self).children@.update(i as int, old(self).children@[i as int].bumped()));
        let mut updated: usize = i;
        while updated > 0 && self.children[updated - 1].priority < priority
            invariant
                updated <= i < self.children@.len(),
                self.children@ == raised,
                forall|j: int|
                    updated <= j < i ==> (#[trigger] raised[j]).priority < priority,
            decreases updated,
        {
            updated -= 1;
        }
        assert forall|j: int| updated <= j < i implies (#[trigger] old(self).children@[j]).priority
            <= old(self).children@[i as int].priority by {
            assert(raised[j] == old(self).children@[j]);
        }
        if updated != i {
            let child = self.children.remove(i);
            self.children.insert(updated, child);
            let b: u8 = self.indices.remove(i);
            self.indices.insert(updated, b);
            assert(raised.remove(i as int) =~= old(self).children@.remove(i as int));
        } else {
            assert(self.children@ =~= old(self).children@.remove(i as int).insert(
                i as int,
                old(self).children@[i as int].bumped(),
            ));
            assert(self.indices@ =~= old(self).indices@.remove(i as int).insert(
                i as int,
                old(self).indices@[i as int],
            ));
        }
        updated
    }
}


pub(crate) proof fn lemma_sizes_one<T>(s: Seq<Node<T>>, n: nat, i: int)
    requires
        0 <= i < n <= s.len(),
    ensures
        sizes(s, n) >= s[i].size(),
    decreases n,
{
    if i < n - 1 {
        lemma_sizes_one(s, (n - 1) as nat, i);
    }
}

pub(crate) proof fn lemma_sizes_two<T>(s: Seq<Node<T>>, n: nat, i: int, j: int)
    requires
        0 <= i < j < n <= s.len(),
    ensures
        sizes(s, n) >= s[i].size() + s[j].size(),
    decreases n,
{
    if j < n - 1 {
        lemma_sizes_two(s, (n - 1) as nat, i, j);
    } else {
        lemma_sizes_one(s, (n - 1) as nat, i);
    }
}


} // verus!
