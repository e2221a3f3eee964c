//! The errors of insertion and of matching.

use vstd::prelude::*;
use vstd::string::StringExecFns;
use vstd::utf8::{decode_utf8, valid_utf8};
use vstd::slice::{slice_subrange, slice_to_vec};
use crate::pattern::{append_bytes, ends_with, same_bytes, SLASH};
use crate::tree::{lemma_sizes_one, Node};

verus! {

/// Why a pattern was not inserted.
#[non_exhaustive]
#[derive(Clone, Debug, Eq, Hash, Ord, PartialEq, PartialOrd)]
pub enum InsertError {
    /// The pattern collides with one that the tree already holds.
    Conflict {
        /// The pattern already in the tree that the new one collides with.
        with: String,
    },
    /// A segment holds more than one wildcard.
    TooManyParams,
    /// A wildcard has no name.
    UnnamedParam,
    /// A catch-all stands elsewhere than at the end of the pattern, or not
    /// behind a `/`.
    InvalidCatchAll,
}

/// A refusal as contracts speak of it: the colliding pattern is a byte string.
pub enum Refusal {
    Conflict { with: Seq<u8> },
    TooManyParams,
    UnnamedParam,
    InvalidCatchAll,
}

/// The text that `String::from_utf8_lossy` makes of a byte string.
pub uninterp spec fn lossy_text(bytes: Seq<u8>) -> Seq<char>;

/// `String::from_utf8_lossy`, made an owned string. The text depends on the
/// bytes alone; of well-formed UTF-8 it is the decoding, as the function's
/// documentation says (any other byte run becomes a replacement character,
/// which this contract leaves to `lossy_text`).
#[verifier::external_body]
pub(crate) fn text_of(bytes: &[u8]) -> (s: String)
    ensures
        s@ == lossy_text(bytes@),
        valid_utf8(bytes@) ==> s@ == decode_utf8(bytes@),
{
    String::from_utf8_lossy(bytes).into_owned()
}

/// The pattern that a new one collides with at `node`, where the walk along
/// `route` has come to `at`: `route` itself where what is left of it is the
/// node's prefix; else what the walk has passed, then the node's prefix
/// unless that ends in it already, then the prefixes along the first
/// children down to a leaf.
pub open(crate) spec fn conflict_route<T>(route: Seq<u8>, at: int, node: Node<T>) -> Seq<u8> {
    if route.skip(at) == node.prefix@ {
        route
    } else {
        let base = route.take(at);
        let stem = if node.prefix@.is_suffix_of(base) {
            base
        } else {
            base + node.prefix@
        };
        stem + node.first_chain()
    }
}

impl InsertError {
    /// The conflict of `route` with the pattern that the tree holds at
    /// `current`, which the walk along `route` has reached at `at`.
    pub(crate) fn conflict<T>(route: &[u8], at: usize, current: &Node<T>) -> (e: InsertError)
        requires
            at <= route@.len(),
        ensures
            e.reports(Refusal::Conflict { with: conflict_route(route@, at as int, *current) }),
    {
        let rest = slice_subrange(route, at, route.len());
        assert(rest@ == route@.skip(at as int));
        if same_bytes(rest, current.prefix.as_slice()) {
            return InsertError::colliding(route);
        }
        let mut bytes: Vec<u8> = slice_to_vec(slice_subrange(route, 0, at));
        assert(bytes@ == route@.take(at as int));
        if !ends_with(bytes.as_slice(), current.prefix.as_slice()) {
            append_bytes(&mut bytes, current.prefix.as_slice());
        }
        let ghost stem = bytes@;
        let mut node: &Node<T> = current;
        assert(bytes@ + node.first_chain() == stem + current.first_chain());
        while node.children.len() > 0
            invariant
                bytes@ + node.first_chain() == stem + current.first_chain(),
            decreases node.size(),
        {
            proof {
                lemma_sizes_one(node.children@, node.children@.len(), 0);
            }
            let ghost before = bytes@;
            let ghost parent = *node;
            node = &node.children[0];
            append_bytes(&mut bytes, node.prefix.as_slice());
            assert(bytes@ + node.first_chain() =~= before + parent.first_chain());
        }
        assert(bytes@ + node.first_chain() =~= bytes@);
        InsertError::colliding(bytes.as_slice())
    }

    /// Whether this error is the one that `r` calls for.
    pub open spec fn reports(self, r: Refusal) -> bool {
        match (self, r) {
            (InsertError::Conflict { with }, Refusal::Conflict { with: bytes }) => {
                &&& with@ == lossy_text(bytes)
                &&& valid_utf8(bytes) ==> with@ == decode_utf8(bytes)
            },
            (InsertError::TooManyParams, Refusal::TooManyParams) => true,
            (InsertError::UnnamedParam, Refusal::UnnamedParam) => true,
            (InsertError::InvalidCatchAll, Refusal::InvalidCatchAll) => true,
            _ => false,
        }
    }

    /// The conflict with the pattern `bytes`.
    pub(crate) fn colliding(bytes: &[u8]) -> (e: InsertError)
        ensures
            e.reports(Refusal::Conflict { with: bytes@ }),
            valid_utf8(bytes@) ==> e == (InsertError::Conflict { with: e->with })
                && e->with@ == decode_utf8(bytes@),
    {
        InsertError::Conflict { with: text_of(bytes) }
    }

    /// The text that describes this error.
    pub fn message(&self) -> (s: String)
        ensures
            s@ == self.spec_message(),
    {
        match self {
            InsertError::Conflict { with } => {
                String::from_str(
                    "insertion failed due to conflict with previously registered route: ",
                ).concat(with.as_str())
            },
            InsertError::TooManyParams => String::from_str(
                "only one parameter is allowed per path segment",
            ),
            InsertError::UnnamedParam => String::from_str(
                "parameters must be registered with a name",
            ),
            InsertError::InvalidCatchAll => String::from_str(
                "catch-all parameters are only allowed at the end of a route",
            ),
        }
    }

    pub open spec fn spec_message(self) -> Seq<char> {
        match self {
            InsertError::Conflict { with } =>
                "insertion failed due to conflict with previously registered route: "@ + with@,
            InsertError::TooManyParams => "only one parameter is allowed per path segment"@,
            InsertError::UnnamedParam => "parameters must be registered with a name"@,
            InsertError::InvalidCatchAll =>
                "catch-all parameters are only allowed at the end of a route"@,
        }
    }
}

/// Why a path was not matched.
#[derive(Debug, PartialEq, Eq, Clone, Copy, Structural)]
pub enum MatchError {
    /// The path with a `/` added at its end would have matched.
    MissingTrailingSlash,
    /// The path without the `/` at its end would have matched.
    ExtraTrailingSlash,
    /// No pattern matches.
    NotFound,
}

impl MatchError {
    /// The trailing-slash verdict for a path that only a trailing `/` keeps
    /// from matching: extra where the path ends in `/`, missing where not.
    pub fn unsure(full_path: &[u8]) -> (e: MatchError)
        requires
            full_path@.len() > 0,
        ensures
            e == if full_path@.last() == SLASH {
                MatchError::ExtraTrailingSlash
            } else {
                MatchError::MissingTrailingSlash
            },
    {
        if full_path[full_path.len() - 1] == SLASH {
            MatchError::ExtraTrailingSlash
        } else {
            MatchError::MissingTrailingSlash
        }
    }

    /// The text that describes this error.
    pub fn message(&self) -> (s: String)
        ensures
            s@ == self.spec_message(),
    {
        match self {
            MatchError::MissingTrailingSlash => String::from_str(
                "match error: expected trailing slash",
            ),
            MatchError::ExtraTrailingSlash => String::from_str(
                "match error: found extra trailing slash",
            ),
            MatchError::NotFound => String::from_str("match error: route not found"),
        }
    }

    pub open spec fn spec_message(self) -> Seq<char> {
        match self {
            MatchError::MissingTrailingSlash => "match error: expected trailing slash"@,
            MatchError::ExtraTrailingSlash => "match error: found extra trailing slash"@,
            MatchError::NotFound => "match error: route not found"@,
        }
    }
}

} // verus!
