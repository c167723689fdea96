//! The similarity search: what is checked before scoring, and which corpus
//! positions are returned once every corpus vector has its score.
//!
//! The caller computes one score per corpus vector, in corpus order, and hands
//! the scores over as bit patterns. The search answers with positions into the
//! corpus, best match first.

use vstd::prelude::*;
use crate::ranking::{covers, is_top_ranking, lesser, ranks_before, top_positions};
use crate::score::{all_defined, is_undefined, key_of, keys_of, lemma_key_orders_as_value, scaled_value, score_key};

verus! {

/// No search returns more matches than this, whatever number was asked for.
pub const MAX_RESULTS: usize = 25;

/// Why a search was refused.
#[derive(Clone, Copy, Debug, PartialEq, Eq)]
pub enum SearchError {
    /// A corpus vector has another number of components than the query.
    DimensionMismatch,
    /// A score is not a number, as that of a vector of zero magnitude.
    ScoreUndefined,
    /// The corpus holds no vector.
    EmptyCorpus,
}

/// Every corpus vector has the dimension of the query.
pub open spec fn dimensions_agree(query_dimension: usize, corpus_dimensions: Seq<usize>) -> bool {
    forall|i: int| 0 <= i < corpus_dimensions.len() ==> #[trigger] corpus_dimensions[i] == query_dimension
}

/// What `check_dimensions` answers: an empty corpus is refused first, then a
/// corpus with a vector of another dimension than the query.
pub open spec fn dimension_verdict(query_dimension: usize, corpus_dimensions: Seq<usize>) -> Result<
    (),
    SearchError,
> {
    if corpus_dimensions.len() == 0 {
        Err(SearchError::EmptyCorpus)
    } else if !dimensions_agree(query_dimension, corpus_dimensions) {
        Err(SearchError::DimensionMismatch)
    } else {
        Ok(())
    }
}

/// Checks, before anything is scored, that there is a corpus and that each of
/// its vectors can be compared with the query. `corpus_dimensions` holds the
/// number of components of each corpus vector, in corpus order.
pub fn check_dimensions(query_dimension: usize, corpus_dimensions: &Vec<usize>) -> (verdict: Result<
    (),
    SearchError,
>)
    ensures
        verdict == dimension_verdict(query_dimension, corpus_dimensions@),
{
    if corpus_dimensions.len() == 0 {
        return Err(SearchError::EmptyCorpus);
    }
    let mut at: usize = 0;
    while at < corpus_dimensions.len()
        invariant
            at <= corpus_dimensions.len(),
            forall|i: int| 0 <= i < at ==> #[trigger] corpus_dimensions@[i] == query_dimension,
        decreases corpus_dimensions.len() - at,
    {
        if corpus_dimensions[at] != query_dimension {
            return Err(SearchError::DimensionMismatch);
        }
        at += 1;
    }
    Ok(())
}

/// The number of matches that a search for `top_k` returns at most.
pub open spec fn result_limit(top_k: usize) -> int {
    lesser(top_k as int, MAX_RESULTS as int)
}

/// The positions of the best matches, best first.
///
/// `scores` holds the score of each corpus vector against the query, in corpus
/// order. The search is refused if and only if a score is undefined. Otherwise
/// it returns `min(top_k, MAX_RESULTS, corpus size)` positions by descending
/// score; positions of equal score come in corpus order.
pub fn similarity_search(scores: &Vec<u32>, top_k: usize) -> (result: Result<Vec<usize>, SearchError>)
    ensures
        all_defined(scores@) <==> result is Ok,
        result matches Err(error) ==> error == SearchError::ScoreUndefined,
        result matches Ok(picks) ==> {
            &&& is_top_ranking(keys_of(scores@), result_limit(top_k), picks@)
            &&& picks.len() == lesser(lesser(top_k as int, MAX_RESULTS as int), scores.len() as int)
            &&& forall|i: int| 0 <= i < picks.len() ==> (#[trigger] picks[i]) < scores.len()
            &&& forall|i: int, j: int|
                0 <= i < j < picks.len() ==> scaled_value(scores[#[trigger] picks[i] as int])
                    >= scaled_value(scores[#[trigger] picks[j] as int])
            &&& forall|i: int, j: int|
                0 <= i < j < picks.len() && scaled_value(scores[#[trigger] picks[i] as int])
                    == scaled_value(scores[#[trigger] picks[j] as int]) ==> picks[i] < picks[j]
            &&& forall|i: int, m: usize|
                0 <= i < picks.len() && m < scores.len() && !picks@.contains(m) ==> scaled_value(
                    scores[#[trigger] picks[i] as int],
                ) >= scaled_value(#[trigger] scores[m as int])
            &&& top_k >= scores.len() && scores.len() <= MAX_RESULTS ==> covers(
                picks@,
                scores.len() as int,
            )
        },
{
    let mut keys: Vec<i32> = Vec::new();
    let mut at: usize = 0;
    while at < scores.len()
        invariant
            at <= scores.len(),
            keys.len() == at,
            forall|i: int| 0 <= i < at ==> !is_undefined(#[trigger] scores@[i]),
            forall|i: int| 0 <= i < at ==> #[trigger] keys@[i] == key_of(scores@[i]),
        decreases scores.len() - at,
    {
        match score_key(scores[at]) {
            None => {
                return Err(SearchError::ScoreUndefined);
            },
            Some(key) => {
                keys.push(key);
            },
        }
        at += 1;
    }
    assert(keys@ =~= keys_of(scores@));
    let limit: usize = if top_k < MAX_RESULTS { top_k } else { MAX_RESULTS };
    let picks = top_positions(&keys, limit);
    proof {
        assert forall|i: int, j: int| 0 <= i < j < picks.len() implies scaled_value(
            scores[#[trigger] picks[i] as int],
        ) >= scaled_value(scores[#[trigger] picks[j] as int]) && (scaled_value(scores[picks[i] as int])
            == scaled_value(scores[picks[j] as int]) ==> picks[i] < picks[j]) by {
            lemma_key_orders_as_value(scores[picks[j] as int], scores[picks[i] as int]);
        }
        assert forall|i: int, m: usize|
            0 <= i < picks.len() && m < scores.len() && !picks@.contains(m) implies scaled_value(
            scores[#[trigger] picks[i] as int],
        ) >= scaled_value(#[trigger] scores[m as int]) by {
            assert(ranks_before(keys@, picks[i] as int, m as int));
            lemma_key_orders_as_value(scores[m as int], scores[picks[i] as int]);
        }
    }
    Ok(picks)
}

} // verus!
