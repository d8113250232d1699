//! Scoring a corpus against a query vector, ranking and filtering by threshold.
use vstd::prelude::*;
use crate::corpus::File;
use crate::embeddings::EmbeddingError;
use crate::similarity::{cosine, cosine_similarity, MAX_DIMENSION};

verus! {

/// The score of each file against the query, in corpus order.
pub open spec fn scores_of(query: Seq<i16>, files: Seq<File>) -> Seq<int> {
    files.map_values(|f: File| cosine(query, f.embedding@))
}

/// Item `i` comes before item `j`: a higher score, or an equal score and an
/// earlier place in the corpus.
pub open spec fn ranks_before(s: Seq<int>, i: int, j: int) -> bool {
    s[i] > s[j] || (s[i] == s[j] && i < j)
}

/// `ix` lists, best first, exactly the corpus positions whose score exceeds
/// `threshold`, ordered by descending score with ties in corpus order.
pub open spec fn is_ranking(ix: Seq<int>, s: Seq<int>, threshold: int) -> bool {
    &&& forall|k: int| 0 <= k < ix.len() ==> 0 <= #[trigger] ix[k] < s.len() && s[ix[k]] > threshold
    &&& forall|j: int| 0 <= j < s.len() && s[j] > threshold ==> #[trigger] ix.contains(j)
    &&& forall|k1: int, k2: int|
        0 <= k1 < k2 < ix.len() ==> ranks_before(s, #[trigger] ix[k1], #[trigger] ix[k2])
}

/// `r` holds the files at the positions `ix`, each with its score.
pub open spec fn holds_ranked(r: Seq<(File, i64)>, ix: Seq<int>, files: Seq<File>, s: Seq<int>) -> bool {
    &&& r.len() == ix.len()
    &&& forall|k: int| 0 <= k < r.len() ==> (#[trigger] r[k]).0 == files[ix[k]] && r[k].1 == s[ix[k]]
}

/// In a ranking every item scores strictly above the threshold, scores never
/// increase along the list, and items with equal scores keep corpus order.
pub proof fn lemma_ranking_sorted_and_filtered(ix: Seq<int>, s: Seq<int>, threshold: int)
    requires
        is_ranking(ix, s, threshold),
    ensures
        forall|k: int| 0 <= k < ix.len() ==> s[#[trigger] ix[k]] > threshold,
        forall|k1: int, k2: int| 0 <= k1 < k2 < ix.len() ==> s[#[trigger] ix[k1]] >= s[#[trigger] ix[k2]],
        forall|k1: int, k2: int|
            0 <= k1 < k2 < ix.len() && s[#[trigger] ix[k1]] == s[#[trigger] ix[k2]] ==> ix[k1] < ix[k2],
{
}

/// Every embedding fits the dimension that scoring supports.
pub open spec fn dimensions_fit(files: Seq<File>) -> bool {
    forall|i: int| 0 <= i < files.len() ==> (#[trigger] files[i]).embedding@.len() <= MAX_DIMENSION
}

/// All vectors share the query's dimension.
pub open spec fn same_dimension(query: Seq<i16>, files: Seq<File>) -> bool {
    forall|i: int| 0 <= i < files.len() ==> (#[trigger] files[i]).embedding@.len() == query.len()
}

/// Why a corpus cannot be ranked against a query, if it cannot.
pub open spec fn ranking_error(query: Seq<i16>, files: Seq<File>) -> Option<EmbeddingError> {
    if query.len() > MAX_DIMENSION {
        Some(EmbeddingError::DimensionTooLarge)
    } else if !same_dimension(query, files) {
        Some(EmbeddingError::DimensionMismatch)
    } else {
        None
    }
}

/// Scores every file against `query_embedding` and returns those scoring
/// strictly above `precision`, best first; equal scores keep corpus order.
/// A file whose vector's dimension differs from the query's fails the whole
/// ranking, as does a query longer than scoring supports.
pub fn get_files_matching_query_with_precision(
    query_embedding: &Vec<i16>,
    files: Vec<File>,
    precision: i64,
) -> (r: Result<Vec<(File, i64)>, EmbeddingError>)
    ensures
        match r {
            Ok(v) => ranking_error(query_embedding@, files@) is None && exists|ix: Seq<int>|
                is_ranking(ix, scores_of(query_embedding@, files@), precision as int)
                    && holds_ranked(v@, ix, files@, scores_of(query_embedding@, files@)),
            Err(e) => ranking_error(query_embedding@, files@) == Some(e),
        },
{
    if query_embedding.len() > MAX_DIMENSION {
        return Err(EmbeddingError::DimensionTooLarge);
    }
    let mut i: usize = 0;
    while i < files.len()
        invariant
            i <= files@.len(),
            query_embedding@.len() <= MAX_DIMENSION,
            forall|k: int| 0 <= k < i ==> (#[trigger] files@[k]).embedding@.len() == query_embedding@.len(),
        decreases files@.len() - i,
    {
        if files[i].embedding.len() != query_embedding.len() {
            assert(!same_dimension(query_embedding@, files@)) by {
                assert(files@[i as int].embedding@.len() != query_embedding@.len());
            }
            return Err(EmbeddingError::DimensionMismatch);
        }
        i = i + 1;
    }
    let ghost all = files@;
    let ghost s = scores_of(query_embedding@, files@);
    let ghost total = files@.len() as int;
    let mut files = files;
    let mut result: Vec<(File, i64)> = Vec::new();
    let ghost mut ix: Seq<int> = Seq::empty();
    while files.len() > 0
        invariant
            query_embedding@.len() <= MAX_DIMENSION,
            same_dimension(query_embedding@, all),
            s == scores_of(query_embedding@, all),
            total == all.len(),
            files@.len() <= total,
            files@ == all.subrange(0, files@.len() as int),
            forall|k: int| 0 <= k < ix.len() ==>
                files@.len() <= #[trigger] ix[k] < total && s[ix[k]] > precision,
            forall|j: int| files@.len() <= j < total && s[j] > precision ==> #[trigger] ix.contains(j),
            forall|k1: int, k2: int|
                0 <= k1 < k2 < ix.len() ==> ranks_before(s, #[trigger] ix[k1], #[trigger] ix[k2]),
            holds_ranked(result@, ix, all, s),
        decreases files@.len(),
    {
        let file = files.pop().unwrap();
        let ghost j = files@.len() as int;
        assert(file == all[j]);
        let score = cosine_similarity(query_embedding.as_slice(), file.embedding.as_slice());
        assert(score == s[j]);
        if score > precision {
            let mut p: usize = 0;
            while p < result.len() && result[p].1 > score
                invariant
                    p <= result@.len(),
                    forall|k: int| 0 <= k < p ==> (#[trigger] result@[k]).1 > score,
                decreases result@.len() - p,
            {
                p = p + 1;
            }
            let ghost old_ix = ix;
            let ghost old_result = result@;
            result.insert(p, (file, score));
            proof {
                ix = old_ix.insert(p as int, j);
                old_ix.insert_ensures(p as int, j);
                assert forall|k: int| p <= k < old_ix.len() implies s[#[trigger] old_ix[k]] <= score
                    && (s[old_ix[k]] == score ==> j < old_ix[k]) by {
                    if k > p {
                        assert(ranks_before(s, old_ix[p as int], old_ix[k]));
                    }
                    assert(old_result[p as int].1 <= score);
                }
                assert forall|k1: int, k2: int|
                    0 <= k1 < k2 < ix.len() implies ranks_before(s, #[trigger] ix[k1], #[trigger] ix[k2]) by {
                    if k2 < p {
                        assert(ix[k1] == old_ix[k1] && ix[k2] == old_ix[k2]);
                    } else if k2 == p {
                        assert(ix[k1] == old_ix[k1]);
                        assert(old_result[k1].1 > score);
                    } else if k1 == p {
                        assert(ix[k2] == old_ix[k2 - 1]);
                    } else if k1 < p {
                        assert(ix[k1] == old_ix[k1] && ix[k2] == old_ix[k2 - 1]);
                    } else {
                        assert(ix[k1] == old_ix[k1 - 1] && ix[k2] == old_ix[k2 - 1]);
                    }
                }
                assert forall|jj: int| files@.len() <= jj < total && s[jj] > precision implies #[trigger] ix.contains(jj) by {
                    if jj == j {
                        assert(ix[p as int] == j);
                    } else {
                        assert(old_ix.contains(jj));
                        let k = choose|k: int| 0 <= k < old_ix.len() && old_ix[k] == jj;
                        if k < p {
                            assert(ix[k] == jj);
                        } else {
                            assert(ix[k + 1] == jj);
                        }
                    }
                }
                assert forall|k: int| 0 <= k < result@.len() implies (#[trigger] result@[k]).0 == all[ix[k]]
                    && result@[k].1 == s[ix[k]] by {
                    if k < p {
                        assert(result@[k] == old_result[k]);
                    } else if k > p {
                        assert(result@[k] == old_result[k - 1]);
                    }
                }
            }
        } else {
            proof {
                assert forall|jj: int| files@.len() <= jj < total && s[jj] > precision implies #[trigger] ix.contains(jj) by {
                    assert(jj != j);
                }
            }
        }
    }
    assert(is_ranking(ix, s, precision as int) && holds_ranked(result@, ix, all, s));
    Ok(result)
}

} // verus!
