//! Matching a path against the tree.

use vstd::prelude::*;
use vstd::slice::{slice_subrange, slice_to_vec};
use crate::error::MatchError;
use crate::params::{Binding, Params};
use crate::pattern::{ends_with, first, lemma_first, same_bytes, seek, starts_with, Mark, SLASH};
use crate::resolve::{answer, lemma_answer_by_routes};
use crate::tree::{lemma_sizes_one, lemma_sizes_two, Node, NodeType};

verus! {

/// A wildcard that was passed over for a static child, kept to come back to.
pub(crate) struct Skipped<'n, 'p, T> {
    pub(crate) path: &'p [u8],
    pub(crate) node: &'n Node<T>,
    pub(crate) params: usize,
}

impl<T> Node<T> {
    /// What matching `path` below this node yields, with `found` bound so
    /// far: the static child that begins with the next byte is tried first,
    /// and the wildcard child where that fails.
    pub open(crate) spec fn search(self, path: Seq<u8>, found: Seq<Binding>) -> Option<
        (T, Seq<Binding>),
    >
        decreases self, 1nat,
    {
        let p = self.prefix@;
        if path.len() > p.len() && p.is_prefix_of(path) {
            let rest = path.skip(p.len() as int);
            let i = first(self.indices@, 0, Mark::Byte(rest[0]));
            let direct = if 0 <= i < self.indices@.len() && i < self.children@.len() {
                self.children@[i].search(rest, found)
            } else {
                None
            };
            if direct is Some {
                direct
            } else {
                self.search_wild(rest, found)
            }
        } else if path == p {
            match self.value {
                Some(v) => Some((v, found)),
                None => None,
            }
        } else {
            None
        }
    }

    /// What the wildcard child of this node makes of `rest`, the path behind
    /// this node's prefix. A parameter takes the bytes up to the next `/`,
    /// at least one, and hands the rest to its child; without a `/` it takes
    /// all. A catch-all takes all.
    pub open(crate) spec fn search_wild(self, rest: Seq<u8>, found: Seq<Binding>) -> Option<
        (T, Seq<Binding>),
    >
        decreases self, 0nat,
    {
        if !self.wild_child || self.children@.len() == 0 {
            None
        } else {
            let w = self.children@[self.children@.len() - 1];
            let name = w.prefix@.skip(1);
            match w.node_type {
                NodeType::Param => {
                    let i = first(rest, 0, Mark::Slash);
                    if i < rest.len() {
                        if i > 0 && w.children@.len() == 1 {
                            w.children@[0].search(rest.skip(i), found.push((name, rest.take(i))))
                        } else {
                            None
                        }
                    } else {
                        match w.value {
                            Some(v) => Some((v, found.push((name, rest)))),
                            None => None,
                        }
                    }
                },
                NodeType::CatchAll => match w.value {
                    Some(v) => Some((v, found.push((name, rest)))),
                    None => None,
                },
                _ => None,
            }
        }
    }

    /// What a tree answers for `path`.
    pub open(crate) spec fn lookup(self, path: Seq<u8>) -> Option<(T, Seq<Binding>)> {
        self.search(path, Seq::empty())
    }

    /// The error for a path that no pattern matches: whether the path
    /// without the `/` at its end would match, or else the path with a `/`
    /// added.
    pub open(crate) spec fn verdict(self, path: Seq<u8>) -> MatchError {
        if path.len() > 0 && path.last() == SLASH && self.lookup(path.drop_last()) is Some {
            MatchError::ExtraTrailingSlash
        } else if self.lookup(path.push(SLASH)) is Some {
            MatchError::MissingTrailingSlash
        } else {
            MatchError::NotFound
        }
    }
}

/// What is still to come once `outcome` is in: a hit stands; after a miss
/// the wildcard passed over last is tried, with the bindings of that time.
pub(crate) open spec fn resume<'n, 'p, T>(
    stack: Seq<Skipped<'n, 'p, T>>,
    found: Seq<Binding>,
    outcome: Option<(T, Seq<Binding>)>,
) -> Option<(T, Seq<Binding>)>
    decreases stack.len(),
{
    if outcome is Some || stack.len() == 0 {
        outcome
    } else {
        let top = stack.last();
        let kept = found.take(top.params as int);
        resume(
            stack.drop_last(),
            kept,
            top.node.search_wild(top.path@.skip(top.node.prefix@.len() as int), kept),
        )
    }
}

/// What holds of the wildcards passed over: each is the wildcard child of a
/// sound node whose prefix its path begins with, and from the oldest to the
/// newest the paths get shorter and the bindings more, up to `path` and
/// `count` of now.
pub(crate) open spec fn stack_ok<'n, 'p, T>(
    stack: Seq<Skipped<'n, 'p, T>>,
    path: Seq<u8>,
    count: int,
) -> bool
    decreases stack.len(),
{
    stack.len() == 0 || {
        let e = stack.last();
        &&& e.node.sound()
        &&& e.node.wild_child
        &&& e.path@.len() > e.node.prefix@.len()
        &&& e.node.prefix@.is_prefix_of(e.path@)
        &&& e.params <= count
        &&& path.is_suffix_of(e.path@)
        &&& stack_ok(stack.drop_last(), e.path@, e.params as int)
    }
}

/// A bound on the steps that trying the wildcards in `stack` can take.
pub(crate) open spec fn backlog<'n, 'p, T>(stack: Seq<Skipped<'n, 'p, T>>) -> nat
    decreases stack.len(),
{
    if stack.len() == 0 {
        0
    } else {
        backlog(stack.drop_last()) + effort(*stack.last().node, true)
    }
}

/// A bound on the steps that the search at hand can take.
pub(crate) open spec fn effort<T>(current: Node<T>, backtracking: bool) -> nat {
    if backtracking {
        2 * current.children@.last().size() + 1
    } else {
        2 * current.size()
    }
}

/// What the search at hand yields.
pub(crate) open spec fn pending<T>(
    current: Node<T>,
    path: Seq<u8>,
    found: Seq<Binding>,
    backtracking: bool,
) -> Option<(T, Seq<Binding>)> {
    if backtracking {
        current.search_wild(path.skip(current.prefix@.len() as int), found)
    } else {
        current.search(path, found)
    }
}

/// What the walk does next at `current` with `path` left.
pub(crate) enum Step<T> {
    /// Go to the static child at this index.
    Static(int),
    /// Bind so many bytes to the parameter and go to its child.
    Param(int),
    /// The value is found, with these bindings.
    Hit(T, Seq<Binding>),
    /// Nothing matches here.
    Miss,
}

pub(crate) open spec fn step<T>(
    current: Node<T>,
    path: Seq<u8>,
    found: Seq<Binding>,
    backtracking: bool,
) -> Step<T> {
    let p = current.prefix@;
    if path.len() > p.len() && p.is_prefix_of(path) {
        let rest = path.skip(p.len() as int);
        let hit = first(current.indices@, 0, Mark::Byte(rest[0]));
        if !backtracking && hit < current.indices@.len() {
            Step::Static(hit)
        } else if current.wild_child {
            let w = current.children@[current.children@.len() - 1];
            let name = w.prefix@.skip(1);
            match w.node_type {
                NodeType::Param => {
                    let i = first(rest, 0, Mark::Slash);
                    if i < rest.len() {
                        if i > 0 && w.children@.len() == 1 {
                            Step::Param(i)
                        } else {
                            Step::Miss
                        }
                    } else {
                        match w.value {
                            Some(v) => Step::Hit(v, found.push((name, rest))),
                            None => Step::Miss,
                        }
                    }
                },
                NodeType::CatchAll => match w.value {
                    Some(v) => Step::Hit(v, found.push((name, rest))),
                    None => Step::Miss,
                },
                _ => Step::Miss,
            }
        } else {
            Step::Miss
        }
    } else if path == p {
        match current.value {
            Some(v) => Step::Hit(v, found),
            None => Step::Miss,
        }
    } else {
        Step::Miss
    }
}

/// What holds while the walk is under way: the answer for the whole path is
/// what the search at hand and the wildcards passed over will give.
#[verifier::opaque]
pub(crate) open spec fn walking<'n, 'p, T>(
    answer: Option<(T, Seq<Binding>)>,
    stack: Seq<Skipped<'n, 'p, T>>,
    current: Node<T>,
    path: Seq<u8>,
    found: Seq<Binding>,
    backtracking: bool,
) -> bool {
    &&& current.sound()
    &&& stack_ok(stack, path, found.len() as int)
    &&& backtracking ==> current.wild_child && path.len() > current.prefix@.len()
        && current.prefix@.is_prefix_of(path)
    &&& answer == resume(stack, found, pending(current, path, found, backtracking))
}

proof fn lemma_suffix_trans(a: Seq<u8>, b: Seq<u8>, c: Seq<u8>)
    requires
        a.is_suffix_of(b),
        b.is_suffix_of(c),
    ensures
        a.is_suffix_of(c),
{
    assert(a =~= c.subrange(c.len() - a.len(), c.len() as int)) by {
        assert(b =~= c.subrange(c.len() - b.len(), c.len() as int));
        assert(a =~= b.subrange(b.len() - a.len(), b.len() as int));
    }
}

/// The stack stays in order when the path gets shorter and the bindings more.
proof fn lemma_stack_on<'n, 'p, T>(
    stack: Seq<Skipped<'n, 'p, T>>,
    path: Seq<u8>,
    count: int,
    rest: Seq<u8>,
    more: int,
)
    requires
        stack_ok(stack, path, count),
        rest.is_suffix_of(path),
        count <= more,
    ensures
        stack_ok(stack, rest, more),
{
    if stack.len() > 0 {
        lemma_suffix_trans(rest, path, stack.last().path@);
    }
}

/// A static step keeps the walk in order and takes effort off.
proof fn lemma_step_static<'n, 'p, T>(
    answer: Option<(T, Seq<Binding>)>,
    stack: Seq<Skipped<'n, 'p, T>>,
    current: Node<T>,
    path: Seq<u8>,
    found: Seq<Binding>,
    e: Skipped<'n, 'p, T>,
)
    requires
        walking(answer, stack, current, path, found, false),
        step(current, path, found, false) is Static,
        e.path@ == path,
        *e.node == current,
        e.params == found.len(),
    ensures
        ({
            let hit = step(current, path, found, false)->Static_0;
            let rest = path.skip(current.prefix@.len() as int);
            let next = if current.wild_child {
                stack.push(e)
            } else {
                stack
            };
            &&& 0 <= hit < current.children@.len()
            &&& walking(answer, next, current.children@[hit], rest, found, false)
            &&& backlog(next) + effort(current.children@[hit], false) < backlog(stack) + effort(
                current,
                false,
            )
        }),
{
    reveal(walking);
    let hit = step(current, path, found, false)->Static_0;
    let rest = path.skip(current.prefix@.len() as int);
    lemma_first(current.indices@, 0, Mark::Byte(rest[0]));
    assert(rest.is_suffix_of(path));
    let child = current.children@[hit];
    assert(child.sound());
    if current.wild_child {
        let next = stack.push(e);
        assert(next.drop_last() =~= stack);
        assert(found.take(found.len() as int) =~= found);
        assert(path.is_suffix_of(path));
        lemma_sizes_two(
            current.children@,
            current.children@.len(),
            hit,
            current.children@.len() - 1,
        );
    } else {
        lemma_stack_on(stack, path, found.len() as int, rest, found.len() as int);
        lemma_sizes_one(current.children@, current.children@.len(), hit);
    }
}

/// A step through a parameter keeps the walk in order and takes effort off.
proof fn lemma_step_param<'n, 'p, T>(
    answer: Option<(T, Seq<Binding>)>,
    stack: Seq<Skipped<'n, 'p, T>>,
    current: Node<T>,
    path: Seq<u8>,
    found: Seq<Binding>,
    backtracking: bool,
)
    requires
        walking(answer, stack, current, path, found, backtracking),
        step(current, path, found, backtracking) is Param,
    ensures
        ({
            let i = step(current, path, found, backtracking)->Param_0;
            let rest = path.skip(current.prefix@.len() as int);
            let w = current.children@[current.children@.len() - 1];
            let bound = found.push((w.prefix@.skip(1), rest.take(i)));
            &&& current.children@.len() > 0
            &&& w.children@.len() == 1
            &&& w.prefix@.len() >= 1
            &&& 0 < i < rest.len()
            &&& walking(answer, stack, w.children@[0], rest.skip(i), bound, false)
            &&& backlog(stack) + effort(w.children@[0], false) < backlog(stack) + effort(
                current,
                backtracking,
            )
        }),
{
    reveal(walking);
    let i = step(current, path, found, backtracking)->Param_0;
    let rest = path.skip(current.prefix@.len() as int);
    let w = current.children@[current.children@.len() - 1];
    let x = (w.prefix@.skip(1), rest.take(i));
    lemma_first(current.indices@, 0, Mark::Byte(rest[0]));
    lemma_first(rest, 0, Mark::Slash);
    assert(w.sound());
    assert(w.children@[0].sound());
    assert(rest.is_suffix_of(path));
    assert(rest.skip(i).is_suffix_of(rest));
    lemma_suffix_trans(rest.skip(i), rest, path);
    lemma_stack_on(stack, path, found.len() as int, rest.skip(i), found.len() as int + 1);
    let goal = pending(current, path, found, backtracking);
    assert(goal == w.children@[0].search(rest.skip(i), found.push(x)));
    if goal is None && stack.len() > 0 {
        let k = stack.last().params as int;
        assert(found.push(x).take(k) =~= found.take(k));
    }
    lemma_sizes_one(current.children@, current.children@.len(), current.children@.len() - 1);
    lemma_sizes_one(w.children@, 1, 0);
}

/// A hit is the answer.
proof fn lemma_step_hit<'n, 'p, T>(
    answer: Option<(T, Seq<Binding>)>,
    stack: Seq<Skipped<'n, 'p, T>>,
    current: Node<T>,
    path: Seq<u8>,
    found: Seq<Binding>,
    backtracking: bool,
)
    requires
        walking(answer, stack, current, path, found, backtracking),
        step(current, path, found, backtracking) is Hit,
    ensures
        answer == Some(
            (
                step(current, path, found, backtracking)->Hit_0,
                step(current, path, found, backtracking)->Hit_1,
            ),
        ),
        current.wild_child && path.len() > current.prefix@.len() ==> current.children@.len() > 0
            && current.children@.last().prefix@.len() >= 1,
{
    reveal(walking);
    let rest = path.skip(current.prefix@.len() as int);
    if path.len() > current.prefix@.len() {
        lemma_first(current.indices@, 0, Mark::Byte(rest[0]));
        if current.wild_child {
            assert(current.children@[current.children@.len() - 1].sound());
        }
    }
}

/// After a miss the wildcards passed over decide.
proof fn lemma_step_miss<'n, 'p, T>(
    answer: Option<(T, Seq<Binding>)>,
    stack: Seq<Skipped<'n, 'p, T>>,
    current: Node<T>,
    path: Seq<u8>,
    found: Seq<Binding>,
    backtracking: bool,
    left: Seq<u8>,
)
    requires
        walking(answer, stack, current, path, found, backtracking),
        step(current, path, found, backtracking) is Miss,
        left.is_suffix_of(path),
    ensures
        answer == resume(stack, found, None),
        stack_ok(stack, left, found.len() as int),
        current.wild_child && path.len() > current.prefix@.len() ==> current.children@.len() > 0
            && current.children@.last().prefix@.len() >= 1,
{
    reveal(walking);
    let rest = path.skip(current.prefix@.len() as int);
    if path.len() > current.prefix@.len() {
        lemma_first(current.indices@, 0, Mark::Byte(rest[0]));
        if current.wild_child {
            assert(current.children@[current.children@.len() - 1].sound());
        }
    }
    lemma_stack_on(stack, path, found.len() as int, left, found.len() as int);
}

/// Coming back to the wildcard passed over last keeps the walk in order.
proof fn lemma_pop<'n, 'p, T>(
    answer: Option<(T, Seq<Binding>)>,
    stack: Seq<Skipped<'n, 'p, T>>,
    path: Seq<u8>,
    found: Seq<Binding>,
)
    requires
        stack.len() > 0,
        stack_ok(stack, path, found.len() as int),
        answer == resume(stack, found, None),
    ensures
        ({
            let e = stack.last();
            &&& path.is_suffix_of(e.path@)
            &&& e.params <= found.len()
            &&& walking(
                answer,
                stack.drop_last(),
                *e.node,
                e.path@,
                found.take(e.params as int),
                true,
            )
            &&& backlog(stack.drop_last()) + effort(*e.node, true) == backlog(stack)
        }),
{
    reveal(walking);
    let e = stack.last();
    let kept = found.take(e.params as int);
    assert(kept.len() == e.params);
}

impl<T> Node<T> {
    /// Walks the tree along `full_path`. Where a static child is taken and
    /// the node has a wildcard child too, the wildcard is kept on a stack,
    /// and the walk comes back to the newest of them when it gets stuck.
    pub(crate) fn walk<'n, 'p>(&'n self, full_path: &'p [u8]) -> (res: Option<
        (&'n T, Params<'n, 'p>),
    >)
        requires
            self.sound(),
        ensures
            match res {
                Some((v, ps)) => self.lookup(full_path@) == Some((*v, ps@)),
                None => self.lookup(full_path@) is None,
            },
    {
        let mut current: &'n Node<T> = self;
        let mut path: &'p [u8] = full_path;
        let mut backtracking = false;
        let mut params: Params<'n, 'p> = Params::new();
        let mut skipped: Vec<Skipped<'n, 'p, T>> = Vec::new();
        let ghost answer = self.lookup(full_path@);
        proof {
            reveal(walking);
        }
        loop
            invariant
                walking(answer, skipped@, *current, path@, params@, backtracking),
                answer == self.lookup(full_path@),
            decreases backlog(skipped@) + effort(*current, backtracking),
        {
            let ghost stack0 = skipped@;
            let ghost found0 = params@;
            let ghost path0 = path@;
            let ghost node0 = *current;
            let ghost back0 = backtracking;
            let plen: usize = current.prefix.len();
            if path.len() > plen && starts_with(path, current.prefix.as_slice()) {
                let rest: &'p [u8] = slice_subrange(path, plen, path.len());
                assert(rest@ == path@.skip(plen as int));
                let next: u8 = rest[0];
                let hit: usize = if backtracking {
                    current.indices.len()
                } else {
                    seek(current.indices.as_slice(), 0, Mark::Byte(next))
                };
                if hit < current.indices.len() {
                    let e = Skipped { path, node: current, params: params.len() };
                    proof {
                        lemma_step_static(answer, stack0, node0, path0, found0, e);
                    }
                    if current.wild_child {
                        skipped.push(e);
                    }
                    current = &current.children[hit];
                    path = rest;
                    continue ;
                }
                if current.wild_child {
                    proof {
                        if step(node0, path0, found0, back0) is Miss {
                            lemma_step_miss(answer, stack0, node0, path0, found0, back0, rest@);
                        } else if step(node0, path0, found0, back0) is Hit {
                            lemma_step_hit(answer, stack0, node0, path0, found0, back0);
                        } else {
                            lemma_step_param(answer, stack0, node0, path0, found0, back0);
                        }
                    }
                    let w: &'n Node<T> = &current.children[current.children.len() - 1];
                    let name: &'n [u8] = slice_subrange(w.prefix.as_slice(), 1, w.prefix.len());
                    match w.node_type {
                        NodeType::Param => {
                            let i: usize = seek(rest, 0, Mark::Slash);
                            if i < rest.len() {
                                if i > 0 && w.children.len() == 1 {
                                    params.push(name, slice_subrange(rest, 0, i));
                                    path = slice_subrange(rest, i, rest.len());
                                    current = &w.children[0];
                                    backtracking = false;
                                    continue ;
                                }
                            } else {
                                match &w.value {
                                    Some(v) => {
                                        params.push(name, rest);
                                        return Some((v, params));
                                    },
                                    None => {},
                                }
                            }
                        },
                        NodeType::CatchAll => {
                            match &w.value {
                                Some(v) => {
                                    params.push(name, rest);
                                    return Some((v, params));
                                },
                                None => {},
                            }
                        },
                        _ => {},
                    }
                } else {
                    proof {
                        lemma_step_miss(answer, stack0, node0, path0, found0, back0, rest@);
                    }
                }
                path = rest;
            } else if same_bytes(path, current.prefix.as_slice()) {
                match &current.value {
                    Some(v) => {
                        proof {
                            lemma_step_hit(answer, stack0, node0, path0, found0, back0);
                        }
                        return Some((v, params));
                    },
                    None => {
                        proof {
                            lemma_step_miss(answer, stack0, node0, path0, found0, back0, path0);
                        }
                    },
                }
            } else {
                proof {
                    lemma_step_miss(answer, stack0, node0, path0, found0, back0, path0);
                }
            }
            let mut resumed = false;
            while !resumed && skipped.len() > 0
                invariant
                    !resumed ==> skipped@ == stack0 && params@ == found0,
                    !resumed ==> stack_ok(skipped@, path@, params@.len() as int),
                    !resumed ==> answer == resume(skipped@, params@, None),
                    resumed ==> walking(answer, skipped@, *current, path@, params@, backtracking)
                        && backlog(skipped@) + effort(*current, backtracking) == backlog(stack0),
                decreases (if resumed { 0int } else { 1int }) + skipped@.len(),
            {
                proof {
                    lemma_pop(answer, skipped@, path@, params@);
                }
                let s = skipped.pop().unwrap();
                if ends_with(s.path, path) {
                    path = s.path;
                    current = s.node;
                    params.truncate(s.params);
                    backtracking = true;
                    resumed = true;
                }
            }
            if !resumed {
                return None;
            }
        }
    }

    /// Matches `full_path` against the tree: the value of the pattern that
    /// matches, with the parameters bound on the way. Where none matches, the
    /// error says whether one would without the `/` at the path's end, or
    /// else with a `/` added.
    pub fn at<'n, 'p>(&'n self, full_path: &'p [u8]) -> (res: Result<
        (&'n T, Params<'n, 'p>),
        MatchError,
    >)
        requires
            self.wf(),
        ensures
            match res {
                Ok((v, ps)) => self.lookup(full_path@) == Some((*v, ps@)),
                Err(e) => self.lookup(full_path@) is None && e == self.verdict(full_path@),
            },
            match res {
                Ok((v, ps)) => answer(self.routes(), full_path@) == Ok::<
                    (T, Seq<Binding>),
                    MatchError,
                >((*v, ps@)),
                Err(e) => answer(self.routes(), full_path@) == Err::<
                    (T, Seq<Binding>),
                    MatchError,
                >(e),
            },
    {
        proof {
            lemma_answer_by_routes(*self, full_path@);
        }
        match self.walk(full_path) {
            Some(hit) => Ok(hit),
            None => {
                let n: usize = full_path.len();
                if n > 0 && full_path[n - 1] == SLASH {
                    let shorter = slice_subrange(full_path, 0, n - 1);
                    assert(shorter@ =~= full_path@.drop_last());
                    if self.walk(shorter).is_some() {
                        return Err(MatchError::unsure(full_path));
                    }
                }
                let mut longer: Vec<u8> = slice_to_vec(full_path);
                longer.push(SLASH);
                if self.walk(longer.as_slice()).is_some() {
                    Err(MatchError::MissingTrailingSlash)
                } else {
                    Err(MatchError::NotFound)
                }
            },
        }
    }
}

} // verus!
