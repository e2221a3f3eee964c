//! Putting a pattern into the tree.

use vstd::prelude::*;
use vstd::slice::{slice_subrange, slice_to_vec};
use vstd::string::StringSliceAdditionalSpecFns;
use crate::error::{InsertError, Refusal};
use crate::pattern::{
    check_tail, find_wildcard, first, is_wild, lemma_first, tail_refusal, token_end,
    token_start, Mark, COLON, SLASH, STAR,
};
use crate::refuse::lemma_no_second_time;
use crate::routes::{adds, bare, only};
use crate::tree::{clean_name, lemma_total_push, total, Node, NodeType};

verus! {

/// No static child begins with a wildcard byte.
pub(crate) proof fn lemma_wild_not_indexed<T>(node: Node<T>, b: u8)
    requires
        node.sound(),
        is_wild(b),
    ensures
        first(node.indices@, 0, Mark::Byte(b)) == node.indices@.len(),
{
    let i = first(node.indices@, 0, Mark::Byte(b));
    lemma_first(node.indices@, 0, Mark::Byte(b));
    if i < node.indices@.len() {
        assert(node.children@[i].sound());
        assert(!is_wild(node.children@[i].prefix@[0]));
    }
}

/// A node without value and children holds nothing.
pub(crate) proof fn lemma_bare<T>(node: Node<T>)
    requires
        node.value is None,
        node.children@.len() == 0,
    ensures
        bare(node),
{
    reveal(bare);
}

/// What is added to nothing is all there is.
pub(crate) proof fn lemma_adds_only<T>(before: Node<T>, after: Node<T>, x: Seq<u8>, val: T)
    requires
        bare(before),
    ensures
        adds(before, after, x, val) <==> only(after, x, val),
{
    reveal(bare);
    reveal(adds);
    reveal(only);
}

/// What the tokens of a tail in order are like.
pub(crate) proof fn lemma_tail_ok(route: Seq<u8>, at: int)
    requires
        0 <= at <= route.len(),
        tail_refusal(route, at) is None,
    ensures
        ({
            let rest = route.skip(at);
            let start = token_start(rest);
            let end = token_end(rest);
            &&& 0 <= start <= rest.len()
            &&& forall|j: int| 0 <= j < start ==> !is_wild(#[trigger] rest[j])
            &&& start < rest.len() ==> {
                &&& start + 2 <= end <= rest.len()
                &&& is_wild(rest[start])
                &&& clean_name(rest.subrange(start, end))
                &&& rest[start] == COLON && end < rest.len() ==> rest[end] == SLASH
                    && tail_refusal(route, at + end) is None
                &&& rest[start] != COLON ==> rest[start] == STAR && end == rest.len()
            }
        }),
{
    reveal(tail_refusal);
    let rest = route.skip(at);
    let start = token_start(rest);
    let end = token_end(rest);
    lemma_first(rest, 0, Mark::Wild);
    if start < rest.len() {
        lemma_first(rest, start + 1, Mark::Slash);
        lemma_first(rest, start + 1, Mark::Wild);
        let token = rest.subrange(start, end);
        assert forall|k: int| 1 <= k < token.len() implies token[k] != SLASH && !is_wild(
            #[trigger] token[k],
        ) by {
            assert(token[k] == rest[start + k]);
        }
    }
}

/// A leaf with a value holds that value for its prefix.
pub(crate) proof fn lemma_leaf_only<T>(node: Node<T>, val: T)
    requires
        node.value == Some(val),
        node.children@.len() == 0,
    ensures
        only(node, node.prefix@, val),
{
    reveal(only);
}

/// A node with one child and no value of its own holds what the child
/// holds, behind its prefix.
pub(crate) proof fn lemma_stem_only<T>(node: Node<T>, x: Seq<u8>, val: T)
    requires
        node.value is None,
        node.children@.len() == 1,
        x.len() > 0,
        node.slot(x[0]) == 0,
        only(node.children@[0], x, val),
    ensures
        only(node, node.prefix@ + x, val),
{
    reveal(only);
    let p = node.prefix@;
    assert forall|q: Seq<u8>| #[trigger]
        node.value_of(q) == (if q == p + x {
            Some(val)
        } else {
            None
        }) by {
        if q.len() > p.len() && p.is_prefix_of(q) {
            let rest = q.skip(p.len() as int);
            assert(q =~= p + rest);
            assert((p + x).skip(p.len() as int) =~= x);
            let i = node.slot(rest[0]);
            if i == 0 {
                assert(node.children@[0].value_of(rest) == (if rest == x {
                    Some(val)
                } else {
                    None::<T>
                }));
            }
        } else {
            assert(p.is_prefix_of(p + x));
        }
    }
}

/// Hanging a wildcard child that holds one pattern into a node that had no
/// wildcard child adds that pattern, behind the node's prefix.
pub(crate) proof fn lemma_hang<T>(before: Node<T>, after: Node<T>, x: Seq<u8>, val: T)
    requires
        !before.wild_child,
        before.children@.len() == before.indices@.len(),
        after.wild_child,
        after.prefix@ == before.prefix@,
        after.value == before.value,
        after.indices@ == before.indices@,
        after.children@.len() == before.children@.len() + 1,
        after.children@.drop_last() == before.children@,
        x.len() > 0,
        first(before.indices@, 0, Mark::Byte(x[0])) == before.indices@.len(),
        after.children@.last().prefix@.len() > 0,
        after.children@.last().prefix@[0] == x[0],
        only(after.children@.last(), x, val),
    ensures
        adds(before, after, before.prefix@ + x, val),
{
    reveal(only);
    reveal(adds);
    let p = before.prefix@;
    let n = before.children@.len() as int;
    assert forall|q: Seq<u8>| #[trigger]
        after.value_of(q) == (if q == p + x {
            Some(val)
        } else {
            before.value_of(q)
        }) by {
        if q.len() > p.len() && p.is_prefix_of(q) {
            let rest = q.skip(p.len() as int);
            assert(q =~= p + rest);
            assert((p + x).skip(p.len() as int) =~= x);
            let i = before.slot(rest[0]);
            let j = after.slot(rest[0]);
            lemma_first(before.indices@, 0, Mark::Byte(rest[0]));
            if i < n {
                assert(j == i);
                assert(after.children@[i] == after.children@.drop_last()[i]);
                assert(rest[0] != x[0]);
            } else if rest[0] == x[0] {
                assert(j == n);
                assert(after.children@[n].value_of(rest) == (if rest == x {
                    Some(val)
                } else {
                    None::<T>
                }));
            } else {
                assert(j == n + 1);
                assert(rest != x);
            }
        } else {
            assert(p.is_prefix_of(p + x));
        }
    }
}

impl<T> Node<T> {
    /// A parameter node that ends a pattern.
    pub(crate) fn param_leaf(token: &[u8], val: T) -> (child: Node<T>)
        requires
            token@.len() >= 2,
            token@[0] == COLON,
            clean_name(token@),
        ensures
            child.sound(),
            child.priority == 1,
            child.weight() == 1,
            child.node_type == NodeType::Param,
            child.prefix@ == token@,
            only(child, token@, val),
    {
        let child = Node {
            node_type: NodeType::Param,
            prefix: slice_to_vec(token),
            priority: 1,
            wild_child: false,
            indices: Vec::new(),
            value: Some(val),
            children: Vec::new(),
        };
        proof {
            assert(total(child.children@) == 0);
            lemma_leaf_only(child, val);
        }
        child
    }

    /// A parameter node with the rest of the pattern below it.
    pub(crate) fn param_stem(token: &[u8], leaf: Node<T>, Ghost(x): Ghost<Seq<u8>>, Ghost(val): Ghost<T>) -> (child: Node<T>)
        requires
            token@.len() >= 2,
            token@[0] == COLON,
            clean_name(token@),
            leaf.sound(),
            leaf.priority == 1,
            leaf.weight() == 1,
            leaf.node_type == NodeType::Static,
            leaf.prefix@.len() > 0,
            leaf.prefix@[0] == SLASH,
            x.len() > 0,
            x[0] == SLASH,
            only(leaf, x, val),
        ensures
            child.sound(),
            child.priority == 1,
            child.weight() == 1,
            child.node_type == NodeType::Param,
            child.prefix@ == token@,
            only(child, token@ + x, val),
    {
        let mut indices: Vec<u8> = Vec::new();
        indices.push(SLASH);
        let mut children: Vec<Node<T>> = Vec::new();
        children.push(leaf);
        let child = Node {
            node_type: NodeType::Param,
            prefix: slice_to_vec(token),
            priority: 1,
            wild_child: false,
            indices,
            value: None,
            children,
        };
        proof {
            assert(child.children@[0] == leaf);
            assert(total(child.children@.drop_last()) == 0);
            assert(child.weight() == 1);
            lemma_first(child.indices@, 0, Mark::Byte(SLASH));
            assert(child.slot(x[0]) == 0);
            lemma_stem_only(child, x, val);
        }
        child
    }

    /// A catch-all node.
    pub(crate) fn catch_all(token: &[u8], val: T) -> (child: Node<T>)
        requires
            token@.len() >= 2,
            token@[0] == STAR,
            clean_name(token@),
        ensures
            child.sound(),
            child.priority == 1,
            child.weight() == 1,
            child.node_type == NodeType::CatchAll,
            child.prefix@ == token@,
            only(child, token@, val),
    {
        let child = Node {
            node_type: NodeType::CatchAll,
            prefix: slice_to_vec(token),
            priority: 1,
            wild_child: false,
            indices: Vec::new(),
            value: Some(val),
            children: Vec::new(),
        };
        proof {
            assert(total(child.children@) == 0);
            lemma_leaf_only(child, val);
        }
        child
    }

    /// Makes `child` the wildcard child of this node.
    pub(crate) fn hang(&mut self, child: Node<T>, Ghost(x): Ghost<Seq<u8>>, Ghost(val): Ghost<T>)
        requires
            old(self).sound(),
            !old(self).wild_child,
            !old(self).is_wildcard(),
            child.sound(),
            child.is_wildcard(),
            child.priority == 1,
            child.weight() == 1,
            x.len() > 0,
            child.prefix@.len() > 0,
            child.prefix@[0] == x[0],
            is_wild(x[0]),
            only(child, x, val),
        ensures
            final(self).sound(),
            final(self).weight() == old(self).weight() + 1,
            final(self).priority == old(self).priority,
            final(self).node_type == old(self).node_type,
            final(self).prefix@ == old(self).prefix@,
            adds(*old(self), *final(self), old(self).prefix@ + x, val),
    {
        proof {
            lemma_wild_not_indexed(*old(self), x[0]);
        }
        self.add_child(child);
        self.wild_child = true;
        proof {
            assert(self.children@ =~= old(self).children@.push(child));
            assert(self.children@.drop_last() =~= old(self).children@);
            lemma_total_push(old(self).children@, child);
            lemma_hang(*old(self), *self, x, val);
            assert forall|i: int| 0 <= i < self.children@.len() implies (
            #[trigger] self.children@[i]).sound() by {
                if i < old(self).children@.len() {
                    assert(self.children@[i] == old(self).children@[i]);
                }
            }
            assert(self.links_ok()) by {
                assert forall|i: int| 0 <= i < self.children@.len() implies {
                    &&& (#[trigger] self.children@[i]).prefix@.len() > 0
                    &&& self.children@[i].priority >= 1
                    &&& self.children@[i].priority == self.children@[i].weight()
                } by {
                    if i < old(self).children@.len() {
                        assert(self.children@[i] == old(self).children@[i]);
                    }
                }
                assert forall|i: int| 0 <= i < self.indices@.len() implies {
                    &&& (#[trigger] self.children@[i]).node_type == NodeType::Static
                    &&& self.children@[i].prefix@[0] == self.indices@[i]
                } by {
                    assert(self.children@[i] == old(self).children@[i]);
                }
                assert forall|i: int, j: int| 0 <= i < j < self.indices@.len() implies (
                #[trigger] self.children@[i]).priority >= (
                #[trigger] self.children@[j]).priority by {
                    assert(self.children@[i] == old(self).children@[i]);
                    assert(self.children@[j] == old(self).children@[j]);
                }
            }
        }
    }

    /// Makes a blank node a leaf: `rest` is its prefix and `val` its value.
    pub(crate) fn fill(&mut self, rest: &[u8], val: T)
        requires
            old(self).blank(),
            !old(self).is_wildcard(),
            forall|j: int| 0 <= j < rest@.len() ==> !is_wild(#[trigger] rest@[j]),
        ensures
            final(self).sound(),
            final(self).weight() == 1,
            final(self).priority == old(self).priority,
            final(self).node_type == old(self).node_type,
            final(self).prefix@ == rest@,
            only(*final(self), rest@, val),
    {
        self.value = Some(val);
        self.prefix = slice_to_vec(rest);
        proof {
            lemma_leaf_only(*self, val);
            assert(total(self.children@) == 0);
        }
    }

    /// Gives a blank node its prefix.
    pub(crate) fn stem(&mut self, bytes: &[u8])
        requires
            old(self).blank(),
            !old(self).is_wildcard(),
            forall|j: int| 0 <= j < bytes@.len() ==> !is_wild(#[trigger] bytes@[j]),
        ensures
            final(self).sound(),
            bare(*final(self)),
            !final(self).wild_child,
            final(self).weight() == 0,
            final(self).priority == old(self).priority,
            final(self).node_type == old(self).node_type,
            final(self).prefix@ == bytes@,
    {
        self.prefix = slice_to_vec(bytes);
        proof {
            lemma_bare(*self);
            assert(total(self.children@) == 0);
        }
    }

    /// The wildcard node for the token of `len` bytes that `route` holds at
    /// `at`, with the rest of the pattern below it.
    pub(crate) fn wildcard(route: &[u8], at: usize, len: usize, val: T) -> (child: Node<T>)
        requires
            at + len <= route@.len(),
            len >= 2,
            is_wild(route@[at as int]),
            clean_name(route@.subrange(at as int, at + len)),
            route@[at as int] == COLON && at + len < route@.len() ==> route@[at + len] == SLASH
                && tail_refusal(route@, at + len) is None,
            route@[at as int] != COLON ==> at + len == route@.len(),
        ensures
            child.sound(),
            child.is_wildcard(),
            child.priority == 1,
            child.weight() == 1,
            child.prefix@ == route@.subrange(at as int, at + len),
            only(child, route@.skip(at as int), val),
        decreases route@.len() - at, 0nat,
    {
        let whole: usize = route.len();
        let token = slice_subrange(route, at, at + len);
        let ghost x = route@.skip(at as int);
        if token[0] == COLON {
            if at + len < whole {
                let mut leaf = Node::fresh(1);
                let ghost seed = leaf;
                let ghost below = route@.skip(at + len);
                proof {
                    lemma_first(below, 0, Mark::Wild);
                    assert(seed.prefix@ + below =~= below);
                    assert(token@ + below =~= x);
                }
                leaf.grow(route, at + len, val);
                proof {
                    lemma_bare(seed);
                    lemma_adds_only(seed, leaf, below, val);
                }
                Node::param_stem(token, leaf, Ghost(below), Ghost(val))
            } else {
                assert(token@ =~= x);
                Node::param_leaf(token, val)
            }
        } else {
            assert(token@ =~= x);
            Node::catch_all(token, val)
        }
    }

    /// Hangs the rest of `route` from `at` on into this node, which is
    /// either blank or gets a wildcard child: the literal bytes up to the
    /// first wildcard become the prefix of a blank node, each parameter a
    /// child of its own with the rest below it, a catch-all the last child.
    pub(crate) fn grow(&mut self, route: &[u8], at: usize, val: T)
        requires
            at <= route@.len(),
            old(self).sound(),
            !old(self).wild_child,
            !old(self).is_wildcard(),
            old(self).blank() || (at < route@.len() && is_wild(route@[at as int])),
            tail_refusal(route@, at as int) is None,
        ensures
            final(self).sound(),
            final(self).weight() == old(self).weight() + 1,
            final(self).priority == old(self).priority,
            final(self).node_type == old(self).node_type,
            final(self).prefix@ == (if old(self).blank() {
                route@.skip(at as int).take(token_start(route@.skip(at as int)))
            } else {
                old(self).prefix@
            }),
            adds(*old(self), *final(self), old(self).prefix@ + route@.skip(at as int), val),
        decreases route@.len() - at, 1nat,
    {
        let rest = slice_subrange(route, at, route.len());
        let ghost start = token_start(rest@);
        let ghost end = token_end(rest@);
        let ghost goal = old(self).prefix@ + rest@;
        proof {
            lemma_tail_ok(route@, at as int);
        }
        let (wildcard, _clean) = find_wildcard(rest);
        match wildcard {
            None => {
                proof {
                    assert(goal =~= rest@);
                    assert(rest@.take(start) =~= rest@);
                    lemma_bare(*old(self));
                }
                self.fill(rest, val);
                proof {
                    lemma_adds_only(*old(self), *self, goal, val);
                }
            },
            Some((token, index)) => {
                if index > 0 {
                    let bytes = slice_subrange(rest, 0, index);
                    assert(bytes@ =~= rest@.take(start));
                    self.stem(bytes);
                }
                let ghost mid = *self;
                let ghost x = route@.skip(at + start);
                proof {
                    assert(rest@.take(0) =~= Seq::<u8>::empty());
                    assert(x =~= rest@.skip(start));
                    assert(mid.prefix@ + x =~= goal);
                    assert(route@.subrange(at + start, at + end) =~= rest@.subrange(start, end));
                }
                let child = Node::wildcard(route, at + index, token.len(), val);
                self.hang(child, Ghost(x), Ghost(val));
                proof {
                    if old(self).blank() {
                        lemma_bare(*old(self));
                        if index == 0 {
                            lemma_bare(mid);
                        }
                        lemma_adds_only(mid, *self, goal, val);
                        lemma_adds_only(*old(self), *self, goal, val);
                    }
                }
            },
        }
    }

    /// Hangs the rest of `route` from `at` on into this node, where its
    /// wildcard tokens are in order; where not, says why and changes nothing.
    pub(crate) fn insert_child(&mut self, route: &[u8], at: usize, val: T) -> (res: Result<
        (),
        InsertError,
    >)
        requires
            at <= route@.len(),
            old(self).sound(),
            !old(self).wild_child,
            !old(self).is_wildcard(),
            old(self).blank() || (at < route@.len() && is_wild(route@[at as int])),
        ensures
            res is Ok <==> tail_refusal(route@, at as int) is None,
            res is Ok ==> {
                &&& final(self).sound()
                &&& final(self).weight() == old(self).weight() + 1
                &&& final(self).priority == old(self).priority
                &&& final(self).node_type == old(self).node_type
                &&& final(self).prefix@ == (if old(self).blank() {
                    route@.skip(at as int).take(token_start(route@.skip(at as int)))
                } else {
                    old(self).prefix@
                })
                &&& adds(*old(self), *final(self), old(self).prefix@ + route@.skip(at as int), val)
            },
            res is Err ==> *final(self) == *old(self) && res->Err_0.reports(
                tail_refusal(route@, at as int).unwrap(),
            ),
    {
        match check_tail(route, at) {
            Some(e) => Err(e),
            None => {
                self.grow(route, at, val);
                Ok(())
            },
        }
    }
}


impl<T> Node<T> {
    /// Why this tree does not take the pattern `route`; `None` where it
    /// does. An empty tree takes every pattern whose wildcard tokens are in
    /// order.
    pub open(crate) spec fn rejection(self, route: Seq<u8>) -> Option<Refusal> {
        if self.blank() {
            tail_refusal(route, 0)
        } else {
            self.refusal(route, 0)
        }
    }

    /// Puts the pattern `route` into the tree, with the value `val`.
    ///
    /// The tree takes the pattern unless its wildcard tokens are out of
    /// order, a pattern that the tree holds ends where it ends, or it goes
    /// on with another wildcard than the tree has at that place. Where the
    /// tree does not take it, the tree stays as it was.
    pub fn insert(&mut self, route: &str, val: T) -> (res: Result<(), InsertError>)
        requires
            old(self).wf(),
            old(self).count() < u32::MAX,
        ensures
            final(self).wf(),
            old(self).all_text() ==> final(self).all_text(),
            match res {
                Ok(()) => {
                    &&& old(self).rejection(route.spec_bytes()) is None
                    &&& !old(self).routes().contains_key(route.spec_bytes())
                    &&& final(self).routes() == old(self).routes().insert(route.spec_bytes(), val)
                    &&& final(self).count() == old(self).count() + 1
                },
                Err(e) => {
                    &&& *final(self) == *old(self)
                    &&& old(self).rejection(route.spec_bytes()) is Some
                    &&& e.reports(old(self).rejection(route.spec_bytes()).unwrap())
                },
            },
    {
        let bytes = route.as_bytes();
        let ghost x = route.spec_bytes();
        proof {
            if old(self).routes().contains_key(x) {
                lemma_no_second_time(*old(self), x);
            }
            vstd::utf8::encode_utf8_valid_utf8(route@);
        }
        if self.prefix.len() == 0 && self.children.len() == 0 && self.value.is_none() {
            match self.insert_child(bytes, 0, val) {
                Err(e) => Err(e),
                Ok(()) => {
                    let ghost mid = *self;
                    self.node_type = NodeType::Root;
                    self.priority += 1;
                    proof {
                        assert(old(self).prefix@ + x.skip(0) =~= x);
                        lemma_adds_routes(*old(self), mid, *self, x, val);
                    }
                    Ok(())
                },
            }
        } else {
            match self.refuse(bytes, 0) {
                Some(e) => Err(e),
                None => {
                    self.plant(bytes, 0, val);
                    let ghost mid = *self;
                    self.priority += 1;
                    proof {
                        assert(x.skip(0) =~= x);
                        lemma_adds_routes(*old(self), mid, *self, x, val);
                    }
                    Ok(())
                },
            }
        }
    }
}

/// What is added to the values of a tree is added to its patterns, whatever
/// the priority and kind of the top.
pub(crate) proof fn lemma_adds_routes<T>(
    before: Node<T>,
    mid: Node<T>,
    after: Node<T>,
    x: Seq<u8>,
    val: T,
)
    requires
        adds(before, mid, x, val),
        mid.prefix@ == after.prefix@,
        mid.value == after.value,
        mid.children@ == after.children@,
        mid.indices@ == after.indices@,
        mid.wild_child == after.wild_child,
    ensures
        after.routes() == before.routes().insert(x, val),
{
    reveal(adds);
    assert forall|q: Seq<u8>| #[trigger] after.value_of(q) == mid.value_of(q) by {}
    assert(after.routes() =~= before.routes().insert(x, val));
}

} // verus!
