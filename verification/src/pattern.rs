//! Regular-expression matching, delegated to the `regex` crate.

use vstd::prelude::*;
use crate::text::byte_offset;

verus! {

/// `b` is a byte offset at which a character of `h` starts, or the byte
/// length of `h`.
pub open spec fn is_char_boundary_at(h: Seq<char>, b: int) -> bool {
    exists|k: int| 0 <= k <= h.len() && #[trigger] byte_offset(h, k) == b
}

/// What the `regex` crate guarantees of the matches that `find_iter`
/// yields: each is a byte range `start <= end` whose ends fall on character
/// boundaries of the haystack, and successive matches do not overlap.
pub open spec fn spans_well_formed(h: Seq<char>, spans: Seq<(usize, usize)>) -> bool {
    &&& forall|k: int|
        0 <= k < spans.len() ==> {
            &&& (#[trigger] spans[k]).0 <= spans[k].1
            &&& is_char_boundary_at(h, spans[k].0 as int)
            &&& is_char_boundary_at(h, spans[k].1 as int)
        }
    &&& forall|k: int| 0 <= k < spans.len() - 1 ==> (#[trigger] spans[k]).1 <= spans[k + 1].0
}

/// The byte ranges of the successive non-overlapping matches that
/// `regex::Regex::new(pattern)` finds in `haystack` with `find_iter`, or
/// `None` where `pattern` does not compile.
pub uninterp spec fn regex_matches(pattern: Seq<char>, haystack: Seq<char>) -> Option<Seq<(usize, usize)>>;

/// Compiles `pattern` with `regex::Regex::new` and collects the byte ranges
/// of `find_iter` over `haystack`. Trusted: the result is `regex_matches`
/// of the arguments, and, as the crate documents for `Match`, the ranges are
/// well formed; which ranges a pattern matches is not stated.
#[verifier::external_body]
pub(crate) fn find_match_spans(pattern: &str, haystack: &str) -> (res: Option<Vec<(usize, usize)>>)
    ensures
        match res {
            Some(v) => regex_matches(pattern@, haystack@) == Some(v@) && spans_well_formed(
                haystack@,
                v@,
            ),
            None => regex_matches(pattern@, haystack@) is None,
        },
{
    match regex::Regex::new(pattern) {
        Ok(re) => Some(re.find_iter(haystack).map(|m| (m.start(), m.end())).collect()),
        Err(_) => None,
    }
}

} // verus!
