//! Fuzzy ranking of candidate strings against a query, and the predicates
//! that pin down the ranked result list.

use vstd::prelude::*;

verus! {

/// The similarity score the fuzzy matcher assigns to `candidate` against
/// `query`: `None` when the candidate does not fuzzily contain the query's
/// characters in order, `Some(score)` otherwise. The matcher's answer is a
/// deterministic function of the two character sequences alone.
pub uninterp spec fn score_of(candidate: Seq<char>, query: Seq<char>) -> Option<i64>;

/// Relies on fuzzy_matcher's `SkimMatcherV2::fuzzy_match` (through the
/// `FuzzyMatcher` trait): its result depends only on the two strings, and an
/// empty pattern matches every choice with score 0.
#[verifier::external_body]
pub(crate) fn fuzzy_score(candidate: &String, query: &String) -> (r: Option<i64>)
    ensures
        r == score_of(candidate@, query@),
        query@.len() == 0 ==> r == Some(0i64),
{
    let matcher = fuzzy_matcher::skim::SkimMatcherV2::default();
    fuzzy_matcher::FuzzyMatcher::fuzzy_match(&matcher, candidate.as_str(), query.as_str())
}

/// The score of a candidate already known to match the query.
pub open spec fn score_val(candidate: Seq<char>, query: Seq<char>) -> i64 {
    match score_of(candidate, query) {
        Some(s) => s,
        None => 0,
    }
}

/// Candidate `a` ranks strictly before candidate `b` (both given by their
/// positions in `keys`): a higher score, or an equal score and an earlier
/// position in the candidate set (stable ordering).
pub open spec fn ranks_before(keys: Seq<String>, query: Seq<char>, a: int, b: int) -> bool {
    let sa = score_val(keys[a]@, query);
    let sb = score_val(keys[b]@, query);
    sa > sb || (sa == sb && a < b)
}

/// `res` is the ranked filtering of `keys` by `query`, witnessed by `perm`:
/// `perm[j]` is the position in `keys` that `res[j]` came from. The witness
/// makes the ordering exact: positions strictly decrease in score, ties keep
/// their original order, and every matching candidate appears.
pub open spec fn ranked(keys: Seq<String>, query: Seq<char>, res: Seq<String>, perm: Seq<int>) -> bool {
    &&& perm.len() == res.len()
    &&& (forall|j: int| 0 <= j < perm.len() ==> 0 <= #[trigger] perm[j] < keys.len())
    &&& (forall|j: int| 0 <= j < perm.len() ==> #[trigger] res[j] == keys[perm[j]])
    &&& (forall|j: int| 0 <= j < perm.len() ==> score_of(keys[#[trigger] perm[j]]@, query) is Some)
    &&& (forall|j: int, l: int|
        0 <= j < l < perm.len() ==> ranks_before(keys, query, #[trigger] perm[j], #[trigger] perm[l]))
    &&& (forall|k: int|
        0 <= k < keys.len() && #[trigger] score_of(keys[k]@, query) is Some
            ==> exists|j: int| 0 <= j < perm.len() && #[trigger] perm[j] == k)
}

/// `res` is the ranked filtering of `keys` by `query`, for some witness.
pub open spec fn result_ok(keys: Seq<String>, query: Seq<char>, res: Seq<String>) -> bool {
    exists|perm: Seq<int>| ranked(keys, query, res, perm)
}

/// Every element of a ranked result list matches the query and is drawn from
/// the candidate set.
pub proof fn lemma_ranked_membership(keys: Seq<String>, query: Seq<char>, res: Seq<String>, perm: Seq<int>)
    requires
        ranked(keys, query, res, perm),
    ensures
        forall|j: int| 0 <= j < res.len() ==> score_of(#[trigger] res[j]@, query) is Some,
        forall|j: int| 0 <= j < res.len() ==> keys.contains(#[trigger] res[j]),
{
    assert forall|j: int| 0 <= j < res.len() implies score_of(#[trigger] res[j]@, query) is Some
        && keys.contains(res[j]) by {
        assert(res[j] == keys[perm[j]]);
        assert(score_of(keys[perm[j]]@, query) is Some);
    }
}

/// A ranked result list is sorted by non-increasing score, and elements of
/// equal score keep their relative order from the candidate set: the stable
/// sort contract.
pub proof fn lemma_ranked_sorted(keys: Seq<String>, query: Seq<char>, res: Seq<String>, perm: Seq<int>)
    requires
        ranked(keys, query, res, perm),
    ensures
        forall|a: int, b: int|
            0 <= a < b < res.len() ==> score_val(#[trigger] res[b]@, query) <= score_val(#[trigger] res[a]@, query),
        forall|a: int, b: int|
            0 <= a < b < res.len() && score_val(#[trigger] res[a]@, query) == score_val(#[trigger] res[b]@, query)
                ==> perm[a] < perm[b],
{
    assert forall|a: int, b: int| 0 <= a < b < res.len() implies
        score_val(#[trigger] res[b]@, query) <= score_val(#[trigger] res[a]@, query)
        && (score_val(res[a]@, query) == score_val(res[b]@, query) ==> perm[a] < perm[b]) by {
        assert(ranks_before(keys, query, perm[a], perm[b]));
        assert(res[a] == keys[perm[a]]);
        assert(res[b] == keys[perm[b]]);
    }
}

} // verus!
