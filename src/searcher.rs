use vstd::prelude::*;
use aho_corasick::AhoCorasick;

verus! {

#[verifier::external_type_specification]
#[verifier::external_body]
pub struct ExAhoCorasick(aho_corasick::AhoCorasick);

#[verifier::external_type_specification]
#[verifier::external_body]
pub struct ExBuildError(aho_corasick::BuildError);

/// The patterns a searcher was built from, in order: pattern `i` is reported
/// under identifier `i`.
pub uninterp spec fn searcher_patterns(s: AhoCorasick) -> Seq<Seq<u8>>;

/// The searcher's fixed limits (number of patterns, pattern length, number
/// of states) admit these patterns, so that building it succeeds.
pub uninterp spec fn searcher_builds(pats: Seq<Seq<u8>>) -> bool;

/// Pattern `p` occupies `text[end - len .. end]` (`end` exclusive).
pub open spec fn occurs(pats: Seq<Seq<u8>>, text: Seq<u8>, p: int, end: int) -> bool {
    &&& 0 <= p < pats.len()
    &&& pats[p].len() <= end <= text.len()
    &&& text.subrange(end - pats[p].len(), end) == pats[p]
}

pub open spec fn byte_patterns(pats: Seq<Vec<u8>>) -> Seq<Seq<u8>> {
    pats.map_values(|p: Vec<u8>| p@)
}

/// Relies on `AhoCorasick::new`: with the default (standard) match kind it
/// builds a searcher over the patterns in the order given, or fails with a
/// `BuildError` when its internal limits are exceeded; those limits depend on
/// the patterns alone.
#[verifier::external_body]
pub(crate) fn new_searcher(patterns: &Vec<Vec<u8>>) -> (r: Result<AhoCorasick, aho_corasick::BuildError>)
    ensures
        r is Ok <==> searcher_builds(byte_patterns(patterns@)),
        r matches Ok(s) ==> searcher_patterns(s) == byte_patterns(patterns@),
{
    AhoCorasick::new(patterns)
}

/// Relies on `AhoCorasick::find_overlapping_iter`: it reports all possible
/// matches at every position, as (pattern identifier, exclusive end). It
/// panics only for non-standard match kinds or anchored searches, neither of
/// which `new_searcher` builds.
#[verifier::external_body]
pub(crate) fn overlapping_matches(s: &AhoCorasick, text: &[u8]) -> (r: Vec<(usize, usize)>)
    requires
        forall|k: int| 0 <= k < searcher_patterns(*s).len() ==> searcher_patterns(*s)[k].len() > 0,
    ensures
        forall|k: int| 0 <= k < r@.len() ==> occurs(searcher_patterns(*s), text@, r@[k].0 as int, #[trigger] r@[k].1 as int),
        forall|p: int, e: int| occurs(searcher_patterns(*s), text@, p, e) ==> r@.contains((p as usize, e as usize)),
{
    s.find_overlapping_iter(text).map(|m| (m.pattern().as_usize(), m.end())).collect()
}

} // verus!
