//! The parameter bindings that a match yields.

use vstd::prelude::*;
use crate::pattern::same_bytes;

verus! {

/// A binding as contracts speak of it: a parameter's name and the piece of
/// the path bound to it.
pub type Binding = (Seq<u8>, Seq<u8>);

/// An ordered list of bindings. A name borrows from the tree and a value
/// from the path that was matched; neither is copied.
pub struct Params<'k, 'v> {
    pairs: Vec<(&'k [u8], &'v [u8])>,
}

impl<'k, 'v> View for Params<'k, 'v> {
    type V = Seq<Binding>;

    closed spec fn view(&self) -> Seq<Binding> {
        Seq::new(self.pairs@.len(), |i: int| (self.pairs@[i].0@, self.pairs@[i].1@))
    }
}

impl<'k, 'v> Params<'k, 'v> {
    /// No bindings.
    pub fn new() -> (p: Self)
        ensures
            p@ == Seq::<Binding>::empty(),
    {
        let p = Params { pairs: Vec::new() };
        assert(p@ =~= Seq::<Binding>::empty());
        p
    }

    /// The number of bindings.
    pub fn len(&self) -> (n: usize)
        ensures
            n == self@.len(),
    {
        self.pairs.len()
    }

    /// Whether there is no binding.
    pub fn is_empty(&self) -> (b: bool)
        ensures
            b == (self@.len() == 0),
    {
        self.pairs.len() == 0
    }

    /// Adds a binding at the end.
    pub fn push(&mut self, name: &'k [u8], value: &'v [u8])
        ensures
            final(self)@ == old(self)@.push((name@, value@)),
    {
        self.pairs.push((name, value));
        assert(self@ =~= old(self)@.push((name@, value@)));
    }

    /// Keeps the first `len` bindings and drops the rest; with `len` beyond
    /// the end nothing changes.
    pub fn truncate(&mut self, len: usize)
        ensures
            final(self)@ == if len <= old(self)@.len() {
                old(self)@.take(len as int)
            } else {
                old(self)@
            },
    {
        self.pairs.truncate(len);
        proof {
            if len <= old(self)@.len() {
                assert(self@ =~= old(self)@.take(len as int));
            } else {
                assert(self@ =~= old(self)@);
            }
        }
    }

    /// The name of the binding at `i`.
    pub fn name(&self, i: usize) -> (n: &'k [u8])
        requires
            i < self@.len(),
        ensures
            n@ == self@[i as int].0,
    {
        self.pairs[i].0
    }

    /// The value of the binding at `i`.
    pub fn value(&self, i: usize) -> (v: &'v [u8])
        requires
            i < self@.len(),
        ensures
            v@ == self@[i as int].1,
    {
        self.pairs[i].1
    }

    /// The index of the first binding called `name`, or the length.
    pub open spec fn position(s: Seq<Binding>, name: Seq<u8>) -> int
        decreases s.len(),
    {
        if s.len() == 0 {
            0
        } else if s[0].0 == name {
            0
        } else {
            1 + Self::position(s.skip(1), name)
        }
    }

    /// The value of the first binding called `name`.
    pub fn get(&self, name: &[u8]) -> (v: Option<&'v [u8]>)
        ensures
            match v {
                Some(x) => {
                    let i = Self::position(self@, name@);
                    i < self@.len() && x@ == self@[i].1
                },
                None => Self::position(self@, name@) == self@.len(),
            },
    {
        let mut i: usize = 0;
        assert(self@.skip(0) =~= self@);
        while i < self.pairs.len()
            invariant
                i <= self@.len(),
                self@.len() == self.pairs@.len(),
                Self::position(self@, name@) == i + Self::position(self@.skip(i as int), name@),
            decreases self@.len() - i,
        {
            let ghost tail = self@.skip(i as int);
            assert(tail[0] == self@[i as int]);
            if same_bytes(self.pairs[i].0, name) {
                return Some(self.pairs[i].1);
            }
            assert(tail.skip(1) =~= self@.skip(i + 1));
            i = i + 1;
        }
        None
    }
}

} // verus!
