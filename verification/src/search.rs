//! The search engine: ranks a dataset against per-entry similarity scores
//! and returns the top matches.
//!
//! Scores are 32-bit IEEE-754 values carried as their exact bit patterns.
//! `score_key` maps a bit pattern to its rank: on non-NaN scores this
//! sign-magnitude order is exactly the usual float order (with the two zeros
//! tied), and every NaN ranks strictly below every non-NaN score. Computing a
//! score from two vectors is float arithmetic and stays with the caller; the
//! engine validates dimensions, sorts non-increasing by rank, and truncates.

use vstd::prelude::*;
use vstd::seq_lib::*;
use vstd::multiset::Multiset;

use crate::errors::StoreError;
use crate::storage::VectorData;

verus! {

/// The similarity metrics a query can select.
#[derive(Clone, Copy, Debug, PartialEq, Eq, Structural)]
pub enum Metrics {
    Cosine,
    Euclidean,
}

/// The mathematical model of one search result.
#[verifier::ext_equal]
pub ghost struct ResultModel {
    pub chunk: Seq<char>,
    pub score: u32,
}

/// One ranked answer: a chunk and its score's float bits.
#[derive(Debug, Clone)]
pub struct SearchResult {
    pub chunk: String,
    pub score: u32,
}

impl View for SearchResult {
    type V = ResultModel;

    open spec fn view(&self) -> ResultModel {
        ResultModel { chunk: self.chunk@, score: self.score }
    }
}

/// Whether a score's bit pattern is a NaN: exponent all ones, mantissa
/// nonzero.
pub open spec fn is_nan_bits(b: u32) -> bool {
    (b >> 23) & 0xff == 0xff && (b & 0x7fffff) != 0
}

/// The rank of a score's bit pattern. On non-NaN patterns this is the
/// sign-magnitude reading of IEEE-754, so it agrees with the usual float
/// order (the two zeros tie); every NaN ranks strictly below every non-NaN
/// score.
pub open spec fn score_key(b: u32) -> int {
    if is_nan_bits(b) {
        -0x1_0000_0000
    } else if b >> 31 == 0 {
        (b & 0x7fffffff) as int
    } else {
        -((b & 0x7fffffff) as int)
    }
}

/// Computes `score_key` of a bit pattern.
fn score_key_exec(b: u32) -> (k: i64)
    ensures
        k == score_key(b),
{
    proof {
        assert(b & 0x7fffffff <= 0x7fffffff) by (bit_vector);
    }
    let exponent: u32 = (b >> 23) & 0xff;
    let mantissa: u32 = b & 0x7fffff;
    if exponent == 0xff && mantissa != 0 {
        -0x1_0000_0000i64
    } else if (b >> 31) == 0 {
        (b & 0x7fffffff) as i64
    } else {
        -((b & 0x7fffffff) as i64)
    }
}

/// A run of results is sorted non-increasing by score rank.
pub open spec fn sorted_desc(s: Seq<ResultModel>) -> bool {
    forall|i: int, j: int|
        0 <= i <= j < s.len() ==> score_key(s[i].score) >= score_key(s[j].score)
}

/// In a run sorted non-increasing by rank, every NaN-scored entry stands
/// after every non-NaN entry: once a NaN appears, everything after it is NaN.
pub proof fn lemma_nan_sorts_last(s: Seq<ResultModel>, i: int, j: int)
    requires
        sorted_desc(s),
        0 <= i <= j < s.len(),
        is_nan_bits(s[i].score),
    ensures
        is_nan_bits(s[j].score),
{
    let b = s[j].score;
    assert(b & 0x7fffffff <= 0x7fffffff) by (bit_vector);
}

/// The models of a run of results, in order.
pub open spec fn results_view(rs: Seq<SearchResult>) -> Seq<ResultModel> {
    Seq::new(rs.len(), |i: int| rs[i]@)
}

/// The unranked pairing of each dataset entry with its score.
pub open spec fn scored_view(chunks: Seq<String>, scores: Seq<u32>) -> Seq<ResultModel> {
    Seq::new(scores.len(), |i: int| ResultModel { chunk: chunks[i]@, score: scores[i] })
}

/// The smaller of two integers.
pub open spec fn spec_min(a: int, b: int) -> int {
    if a <= b {
        a
    } else {
        b
    }
}

/// `results` is the first `top_k` of some non-increasing arrangement of
/// exactly the scored entries.
pub open spec fn ranked(results: Seq<ResultModel>, scored: Seq<ResultModel>, top_k: int) -> bool {
    exists|s: Seq<ResultModel>|
        {
            &&& s.to_multiset() == scored.to_multiset()
            &&& sorted_desc(s)
            &&& results == s.take(spec_min(top_k, scored.len() as int))
        }
}

/// Sorts results non-increasing by score rank. The output is a permutation
/// of the input (as a multiset of models).
fn sort_results_desc(input: Vec<SearchResult>) -> (r: Vec<SearchResult>)
    ensures
        r@.len() == input@.len(),
        results_view(r@).to_multiset() == results_view(input@).to_multiset(),
        sorted_desc(results_view(r@)),
{
    broadcast use vstd::seq_lib::group_to_multiset_ensures;
    broadcast use vstd::multiset::group_multiset_axioms;

    let mut rest = input;
    let mut out: Vec<SearchResult> = Vec::new();
    proof {
        assert(results_view(out@).to_multiset() =~= Multiset::<ResultModel>::empty());
        assert(results_view(out@).to_multiset().add(results_view(rest@).to_multiset())
            =~= results_view(input@).to_multiset());
    }
    while rest.len() > 0
        invariant
            out@.len() + rest@.len() == input@.len(),
            results_view(out@).to_multiset().add(results_view(rest@).to_multiset())
                == results_view(input@).to_multiset(),
            sorted_desc(results_view(out@)),
            forall|a: int, b: int|
                #![trigger out@[a], rest@[b]]
                0 <= a < out@.len() && 0 <= b < rest@.len() ==> score_key(out@[a]@.score)
                    >= score_key(rest@[b]@.score),
        decreases rest@.len(),
    {
        let mut mi: usize = 0;
        let mut j: usize = 1;
        let mut mk: i64 = score_key_exec(rest[0].score);
        while j < rest.len()
            invariant
                0 <= mi < j <= rest@.len(),
                rest@.len() > 0,
                mk == score_key(rest@[mi as int].score),
                forall|t: int|
                    0 <= t < j ==> mk >= score_key(#[trigger] rest@[t]@.score),
            decreases rest@.len() - j,
        {
            let k = score_key_exec(rest[j].score);
            if k > mk {
                mi = j;
                mk = k;
            }
            j = j + 1;
        }
        let ghost pre_out = out@;
        let ghost pre_rest = rest@;
        let x = rest.remove(mi);
        out.push(x);
        proof {
            assert(results_view(out@) =~= results_view(pre_out).push(x@));
            assert(results_view(rest@) =~= results_view(pre_rest).remove(mi as int));
            vstd::seq_lib::to_multiset_remove(results_view(pre_rest), mi as int);
            vstd::seq_lib::to_multiset_build(results_view(pre_out), x@);
            vstd::seq_lib::to_multiset_contains(results_view(pre_rest), x@);
            assert(results_view(pre_rest).to_multiset().count(x@) > 0) by {
                assert(results_view(pre_rest)[mi as int] == x@);
                assert(results_view(pre_rest).contains(x@));
            }
            assert(results_view(out@).to_multiset().add(results_view(rest@).to_multiset())
                =~= results_view(input@).to_multiset());
            assert forall|a: int, b: int|
                #![trigger out@[a], rest@[b]]
                0 <= a < out@.len() && 0 <= b < rest@.len() implies score_key(out@[a]@.score)
                >= score_key(rest@[b]@.score) by {
                if a < pre_out.len() {
                    if b < mi {
                        assert(rest@[b] == pre_rest[b]);
                    } else {
                        assert(rest@[b] == pre_rest[b + 1]);
                    }
                } else {
                    assert(out@[a]@ == x@);
                    if b < mi {
                        assert(rest@[b] == pre_rest[b]);
                    } else {
                        assert(rest@[b] == pre_rest[b + 1]);
                    }
                }
            }
        }
    }
    proof {
        assert(results_view(rest@).to_multiset() =~= Multiset::<ResultModel>::empty());
        assert(results_view(out@).to_multiset() =~= results_view(input@).to_multiset());
    }
    out
}

/// Whatever `top_k` was, a ranked result is sorted non-increasing by score
/// rank: it is a prefix of a non-increasing arrangement.
pub proof fn lemma_ranked_sorted(results: Seq<ResultModel>, scored: Seq<ResultModel>, top_k: int)
    requires
        top_k >= 0,
        ranked(results, scored, top_k),
    ensures
        sorted_desc(results),
{
    let s = choose|s: Seq<ResultModel>|
        {
            &&& s.to_multiset() == scored.to_multiset()
            &&& sorted_desc(s)
            &&& results == s.take(spec_min(top_k, scored.len() as int))
        };
    vstd::seq_lib::to_multiset_len(s);
    vstd::seq_lib::to_multiset_len(scored);
    assert forall|i: int, j: int|
        0 <= i <= j < results.len() implies score_key(results[i].score) >= score_key(
        results[j].score,
    ) by {
        assert(results.len() == spec_min(top_k, scored.len() as int));
        assert(results[i] == s[i]);
        assert(results[j] == s[j]);
    }
}

/// A `top_k` at least the number of entries returns the entire dataset,
/// fully sorted: the result is a non-increasing arrangement of exactly the
/// scored entries.
pub proof fn lemma_full_ranking(results: Seq<ResultModel>, scored: Seq<ResultModel>, top_k: int)
    requires
        ranked(results, scored, top_k),
        top_k >= scored.len(),
        top_k >= 0,
    ensures
        results.len() == scored.len(),
        results.to_multiset() == scored.to_multiset(),
        sorted_desc(results),
{
    let s = choose|s: Seq<ResultModel>|
        {
            &&& s.to_multiset() == scored.to_multiset()
            &&& sorted_desc(s)
            &&& results == s.take(spec_min(top_k, scored.len() as int))
        };
    vstd::seq_lib::to_multiset_len(s);
    vstd::seq_lib::to_multiset_len(scored);
    assert(s.take(spec_min(top_k, scored.len() as int)) =~= s);
}

/// A query: how many results to return, the query vector's float bits, and
/// the metric to score with.
#[derive(Debug, Clone)]
pub struct SearchQuery {
    pub top_k: usize,
    pub query_vector: Vec<u32>,
    pub metric: Metrics,
}

impl SearchQuery {
    /// Pure data constructor.
    pub fn new(top_k: usize, query_vector: Vec<u32>, metric: Metrics) -> (r: Self)
        ensures
            r.top_k == top_k,
            r.query_vector == query_vector,
            r.metric == metric,
    {
        SearchQuery { top_k, query_vector, metric }
    }

    /// Ranks the dataset against one precomputed score per entry (the caller
    /// scores each dataset vector against the query vector with the selected
    /// metric, float work that stays outside the library). Fails with
    /// `DimensionMismatch` exactly when the query vector's length differs
    /// from the dataset's dimensions, before any ranking. Otherwise returns
    /// the first `top_k` of a non-increasing arrangement of all entries;
    /// NaN-scored entries rank below all others.
    pub fn search(&self, data: &VectorData, scores: &Vec<u32>) -> (r: Result<
        Vec<SearchResult>,
        StoreError,
    >)
        requires
            data.wf(),
            scores@.len() == data.embedding@.len(),
        ensures
            match r {
                Ok(results) => {
                    &&& self.query_vector@.len() == data.dimensions
                    &&& results@.len() == spec_min(self.top_k as int, scores@.len() as int)
                    &&& ranked(
                        results_view(results@),
                        scored_view(data.chunk@, scores@),
                        self.top_k as int,
                    )
                },
                Err(e) => {
                    &&& e == StoreError::DimensionMismatch
                    &&& self.query_vector@.len() != data.dimensions
                },
            },
    {
        if self.query_vector.len() != data.dimensions {
            return Err(StoreError::DimensionMismatch);
        }
        let ghost scored = scored_view(data.chunk@, scores@);
        let mut entries: Vec<SearchResult> = Vec::new();
        proof {
            assert(results_view(entries@) =~= scored.take(0));
        }
        let mut i: usize = 0;
        while i < scores.len()
            invariant
                0 <= i <= scores@.len(),
                scores@.len() == data.chunk@.len(),
                scored == scored_view(data.chunk@, scores@),
                results_view(entries@) == scored.take(i as int),
            decreases scores@.len() - i,
        {
            let ghost pre_entries = entries@;
            let chunk = data.chunk[i].clone();
            proof {
                assert(chunk@ == data.chunk@[i as int]@);
            }
            entries.push(SearchResult { chunk, score: scores[i] });
            proof {
                assert(scored.len() == scores@.len());
                assert(results_view(pre_entries).len() == pre_entries.len());
                assert(pre_entries.len() == i);
                assert(entries@.len() == i + 1);
                assert(entries@[i as int] == SearchResult { chunk: data.chunk@[i as int], score: scores@[i as int] });
                assert(entries@[i as int]@ =~= scored[i as int]);
                assert forall|k: int| 0 <= k < entries@.len() implies results_view(entries@)[k]
                    == scored.take(i + 1)[k] by {
                    if k < i {
                        assert(results_view(pre_entries)[k] == scored.take(i as int)[k]);
                    }
                }
                assert(results_view(entries@) =~= scored.take(i + 1));
            }
            i = i + 1;
        }
        proof {
            assert(scored.take(scores@.len() as int) =~= scored);
        }
        let mut sorted = sort_results_desc(entries);
        let ghost witness = results_view(sorted@);
        sorted.truncate(self.top_k);
        proof {
            assert(results_view(sorted@) =~= witness.take(
                spec_min(self.top_k as int, scored.len() as int),
            ));
        }
        Ok(sorted)
    }
}

} // verus!
