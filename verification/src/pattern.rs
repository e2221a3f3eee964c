//! The pattern lexer: where wildcard tokens start and end.

use vstd::prelude::*;
use vstd::slice::slice_subrange;
use crate::error::{InsertError, Refusal};

verus! {

/// The byte that separates path segments.
pub const SLASH: u8 = 47;

/// The byte that starts a named single-segment parameter.
pub const COLON: u8 = 58;

/// The byte that starts a catch-all parameter.
pub const STAR: u8 = 42;

/// What a scan over a byte string looks for.
#[derive(Clone, Copy, Debug)]
pub enum Mark {
    /// A byte that starts a wildcard token: `:` or `*`.
    Wild,
    /// The segment separator `/`.
    Slash,
    /// One given byte.
    Byte(u8),
}

impl Mark {
    pub open spec fn hits(self, b: u8) -> bool {
        match self {
            Mark::Wild => b == COLON || b == STAR,
            Mark::Slash => b == SLASH,
            Mark::Byte(c) => b == c,
        }
    }

    pub fn accepts(self, b: u8) -> (r: bool)
        ensures
            r == self.hits(b),
    {
        match self {
            Mark::Wild => b == COLON || b == STAR,
            Mark::Slash => b == SLASH,
            Mark::Byte(c) => b == c,
        }
    }
}

pub open spec fn is_wild(b: u8) -> bool {
    b == COLON || b == STAR
}

/// The least index `i >= from` with `mark.hits(s[i])`, or `s.len()` when
/// there is none.
pub open spec fn first(s: Seq<u8>, from: int, mark: Mark) -> int
    decreases s.len() - from,
{
    if from < 0 || from >= s.len() {
        s.len() as int
    } else if mark.hits(s[from]) {
        from
    } else {
        first(s, from + 1, mark)
    }
}

/// `first` is in range, nothing before it is hit, and it is hit itself
/// unless it is the length.
pub proof fn lemma_first(s: Seq<u8>, from: int, mark: Mark)
    requires
        0 <= from <= s.len(),
    ensures
        from <= first(s, from, mark) <= s.len(),
        forall|j: int| from <= j < first(s, from, mark) ==> !mark.hits(#[trigger] s[j]),
        first(s, from, mark) < s.len() ==> mark.hits(s[first(s, from, mark)]),
    decreases s.len() - from,
{
    if from < s.len() && !mark.hits(s[from]) {
        lemma_first(s, from + 1, mark);
    }
}

/// An index with the three properties of `lemma_first` is `first`.
pub proof fn lemma_first_is(s: Seq<u8>, from: int, mark: Mark, r: int)
    requires
        0 <= from <= r <= s.len(),
        forall|j: int| from <= j < r ==> !mark.hits(#[trigger] s[j]),
        r < s.len() ==> mark.hits(s[r]),
    ensures
        first(s, from, mark) == r,
    decreases s.len() - from,
{
    if from < r {
        assert(!mark.hits(s[from]));
        lemma_first_is(s, from + 1, mark, r);
    }
}

/// The first index at or after `from` whose byte `mark` accepts.
pub fn seek(s: &[u8], from: usize, mark: Mark) -> (r: usize)
    requires
        from <= s@.len(),
    ensures
        r == first(s@, from as int, mark),
        from <= r <= s@.len(),
{
    let mut i: usize = from;
    while i < s.len() && !mark.accepts(s[i])
        invariant
            from <= i <= s@.len(),
            first(s@, from as int, mark) == first(s@, i as int, mark),
        decreases s@.len() - i,
    {
        i = i + 1;
    }
    proof {
        lemma_first(s@, from as int, mark);
    }
    i
}

/// Where the first wildcard token of `s` starts: `s.len()` when `s` holds none.
pub open spec fn token_start(s: Seq<u8>) -> int {
    first(s, 0, Mark::Wild)
}

/// Where the first wildcard token of `s` ends: at the next `/` or at the end.
pub open spec fn token_end(s: Seq<u8>) -> int {
    first(s, token_start(s) + 1, Mark::Slash)
}

/// Whether the name of the first wildcard token of `s` is free of `:` and `*`.
pub open spec fn token_clean(s: Seq<u8>) -> bool {
    first(s, token_start(s) + 1, Mark::Wild) >= token_end(s)
}

/// Searches for the first wildcard token and checks its name for `:` and `*`.
///
/// Returns the token with the index at which it starts, and whether its name
/// is free of further wildcard bytes. Without any token the answer is
/// `(None, false)`.
pub fn find_wildcard(path: &[u8]) -> (res: (Option<(&[u8], usize)>, bool))
    ensures
        token_start(path@) == path@.len() ==> res == (None::<(&[u8], usize)>, false),
        token_start(path@) < path@.len() ==> {
            &&& res.0 is Some
            &&& res.0.unwrap().0@ == path@.subrange(token_start(path@), token_end(path@))
            &&& res.0.unwrap().1 == token_start(path@)
            &&& res.1 == token_clean(path@)
        },
{
    let start: usize = seek(path, 0, Mark::Wild);
    if start == path.len() {
        return (None, false);
    }
    let end: usize = seek(path, start + 1, Mark::Slash);
    let other: usize = seek(path, start + 1, Mark::Wild);
    (Some((slice_subrange(path, start, end), start)), other >= end)
}

} // verus!

verus! {

/// Whether `s` begins with `p`.
pub fn starts_with(s: &[u8], p: &[u8]) -> (r: bool)
    ensures
        r == p@.is_prefix_of(s@),
{
    if p.len() > s.len() {
        return false;
    }
    let mut i: usize = 0;
    while i < p.len()
        invariant
            i <= p@.len() <= s@.len(),
            forall|j: int| 0 <= j < i ==> s@[j] == p@[j],
        decreases p@.len() - i,
    {
        if s[i] != p[i] {
            assert(s@.subrange(0, p@.len() as int)[i as int] == s@[i as int]);
            return false;
        }
        i = i + 1;
    }
    assert(p@ =~= s@.subrange(0, p@.len() as int));
    true
}

/// Whether `s` ends with `p`.
pub fn ends_with(s: &[u8], p: &[u8]) -> (r: bool)
    ensures
        r == p@.is_suffix_of(s@),
{
    if p.len() > s.len() {
        return false;
    }
    let d: usize = s.len() - p.len();
    let mut i: usize = 0;
    while i < p.len()
        invariant
            i <= p@.len() <= s@.len() <= usize::MAX,
            d == s@.len() - p@.len(),
            forall|j: int| 0 <= j < i ==> s@[d + j] == p@[j],
        decreases p@.len() - i,
    {
        if s[d + i] != p[i] {
            assert(s@.subrange(d as int, s@.len() as int)[i as int] == s@[d + i]);
            return false;
        }
        i = i + 1;
    }
    assert(p@ =~= s@.subrange(d as int, s@.len() as int));
    true
}

/// Whether `a` and `b` hold the same bytes.
pub fn same_bytes(a: &[u8], b: &[u8]) -> (r: bool)
    ensures
        r == (a@ == b@),
{
    if a.len() != b.len() {
        return false;
    }
    let r = starts_with(a, b);
    assert(r ==> a@ =~= b@) by {
        if r {
            assert(a@.subrange(0, a@.len() as int) =~= a@);
        }
    }
    assert(a@ == b@ ==> b@ =~= a@.subrange(0, b@.len() as int));
    r
}

} // verus!

verus! {

/// Why the rest of `route` from `at` on cannot be hung into the tree, going
/// by its wildcard tokens from left to right: a name holds `:` or `*`; a
/// name is empty; a catch-all does not end the pattern, or does not stand
/// behind a `/`, or stands in a pattern that is handed over whole and does
/// not begin with `/`.
#[verifier::opaque]
pub open spec fn tail_refusal(route: Seq<u8>, at: int) -> Option<Refusal>
    decreases route.len() - at,
{
    let rest = route.skip(at);
    let start = token_start(rest);
    let end = token_end(rest);
    if at < 0 || at > route.len() || start >= rest.len() {
        None
    } else if !token_clean(rest) {
        Some(Refusal::TooManyParams)
    } else if end - start < 2 {
        Some(Refusal::UnnamedParam)
    } else if rest[start] == COLON {
        if start < end < rest.len() {
            tail_refusal(route, at + end)
        } else {
            None
        }
    } else if end != rest.len() {
        Some(Refusal::InvalidCatchAll)
    } else if at + start > 0 && route[at + start - 1] != SLASH {
        Some(Refusal::InvalidCatchAll)
    } else if at == 0 && route[0] != SLASH {
        Some(Refusal::InvalidCatchAll)
    } else {
        None
    }
}

/// Checks the wildcard tokens of `route` from `at` on.
pub fn check_tail(route: &[u8], at: usize) -> (r: Option<InsertError>)
    requires
        at <= route@.len(),
    ensures
        r is Some <==> tail_refusal(route@, at as int) is Some,
        r is Some ==> r.unwrap().reports(tail_refusal(route@, at as int).unwrap()),
{
    let mut from: usize = at;
    loop
        invariant
            at <= from <= route@.len(),
            tail_refusal(route@, at as int) == tail_refusal(route@, from as int),
        decreases route@.len() - from,
    {
        reveal(tail_refusal);
        let rest = slice_subrange(route, from, route.len());
        assert(rest@ == route@.skip(from as int));
        let (wildcard, clean) = find_wildcard(rest);
        proof {
            lemma_first(rest@, 0, Mark::Wild);
            if token_start(rest@) < rest@.len() {
                lemma_first(rest@, token_start(rest@) + 1, Mark::Slash);
            }
        }
        match wildcard {
            None => {
                return None;
            },
            Some((token, start)) => {
                if !clean {
                    return Some(InsertError::TooManyParams);
                }
                if token.len() < 2 {
                    return Some(InsertError::UnnamedParam);
                }
                let end: usize = start + token.len();
                if token[0] == COLON {
                    if end < rest.len() {
                        from = from + end;
                        continue ;
                    }
                    return None;
                }
                if end != rest.len() {
                    return Some(InsertError::InvalidCatchAll);
                }
                if from + start > 0 && route[from + start - 1] != SLASH {
                    return Some(InsertError::InvalidCatchAll);
                }
                if from == 0 && route[0] != SLASH {
                    return Some(InsertError::InvalidCatchAll);
                }
                return None;
            },
        }
    }
}

} // verus!

verus! {

/// How far `a` and `b` hold the same bytes, counted from `i` on.
pub open spec fn agree(a: Seq<u8>, b: Seq<u8>, i: int) -> int
    decreases a.len() - i,
{
    if 0 <= i < a.len() && i < b.len() && a[i] == b[i] {
        agree(a, b, i + 1)
    } else {
        i
    }
}

/// The bytes that `a` and `b` begin with in common.
pub open spec fn common(a: Seq<u8>, b: Seq<u8>) -> int {
    agree(a, b, 0)
}

pub proof fn lemma_agree(a: Seq<u8>, b: Seq<u8>, i: int)
    requires
        0 <= i <= a.len(),
        i <= b.len(),
    ensures
        i <= agree(a, b, i) <= a.len(),
        agree(a, b, i) <= b.len(),
        forall|j: int| i <= j < agree(a, b, i) ==> a[j] == b[j],
        agree(a, b, i) < a.len() && agree(a, b, i) < b.len() ==> a[agree(a, b, i)] != b[agree(
            a,
            b,
            i,
        )],
    decreases a.len() - i,
{
    if i < a.len() && i < b.len() && a[i] == b[i] {
        lemma_agree(a, b, i + 1);
    }
}

/// What `common` is when one string begins with the other, and the other
/// way round.
pub proof fn lemma_common(a: Seq<u8>, b: Seq<u8>)
    ensures
        0 <= common(a, b) <= a.len(),
        common(a, b) <= b.len(),
        a.take(common(a, b)) == b.take(common(a, b)),
        common(a, b) == b.len() <==> b.is_prefix_of(a),
        common(a, b) < a.len() && common(a, b) < b.len() ==> a[common(a, b)] != b[common(a, b)],
{
    lemma_agree(a, b, 0);
    let c = common(a, b);
    assert(a.take(c) =~= b.take(c));
    if c == b.len() {
        assert(b =~= a.subrange(0, b.len() as int));
    }
    if b.is_prefix_of(a) && c < b.len() {
        assert(b[c] == a.subrange(0, b.len() as int)[c]);
    }
}

/// How many bytes `route` from `at` on and `prefix` begin with in common.
pub fn common_len(route: &[u8], at: usize, prefix: &[u8]) -> (c: usize)
    requires
        at <= route@.len(),
    ensures
        c == common(route@.skip(at as int), prefix@),
        c <= prefix@.len(),
        at + c <= route@.len(),
{
    let ghost rest = route@.skip(at as int);
    let n: usize = route.len() - at;
    let mut i: usize = 0;
    while i < n && i < prefix.len() && route[at + i] == prefix[i]
        invariant
            i <= n,
            i <= prefix@.len(),
            n == route@.len() - at,
            route@.len() <= usize::MAX,
            rest == route@.skip(at as int),
            agree(rest, prefix@, 0) == agree(rest, prefix@, i as int),
        decreases n - i,
    {
        assert(rest[i as int] == route@[at + i]);
        i = i + 1;
    }
    proof {
        if i < n && i < prefix@.len() {
            assert(rest[i as int] == route@[at + i]);
        }
    }
    i
}

/// Adds the bytes of `more` at the end of `bytes`.
pub fn append_bytes(bytes: &mut Vec<u8>, more: &[u8])
    ensures
        final(bytes)@ == old(bytes)@ + more@,
{
    let mut i: usize = 0;
    while i < more.len()
        invariant
            i <= more@.len(),
            bytes@ == old(bytes)@ + more@.take(i as int),
        decreases more@.len() - i,
    {
        bytes.push(more[i]);
        assert(more@.take(i + 1) =~= more@.take(i as int).push(more@[i as int]));
        i = i + 1;
    }
    assert(more@.take(more@.len() as int) =~= more@);
}

} // verus!
