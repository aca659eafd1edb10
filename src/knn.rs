//! The streaming nearest-neighbour engine and the merge of chunk results.

use vstd::prelude::*;
use crate::metrics::{metric_valid, polarity_of, score_spec, Engine, KNNMetric, Polarity, MAX_GRADE};
use crate::ratings::RatingVector;
use crate::topk::{
    all_wf, distinct_ids, is_top_k, lemma_merge_top_k, lemma_top_k_unique, merge_ranked, ranked,
    PairDist, TopKSelector,
};

verus! {

/// One user of a corpus with that user's ratings.
#[derive(Clone, Debug)]
pub struct UserRatings {
    pub id: u64,
    pub ratings: RatingVector,
}

/// A corpus, or a chunk of one: valid rating vectors under distinct user ids.
pub open spec fn corpus_valid(c: Seq<UserRatings>) -> bool {
    &&& forall|i: int| 0 <= i < c.len() ==> (#[trigger] c[i]).ratings.wf()
    &&& forall|i: int, j: int| 0 <= i < c.len() && 0 <= j < c.len() && i != j ==> c[i].id != c[j].id
}

/// The candidates that a scan of `corpus` offers for `target_id`: every other
/// user whose score against the target is defined, in corpus order.
pub open spec fn knn_candidates(
    target_id: u64,
    target: Seq<(u64, u8)>,
    corpus: Seq<UserRatings>,
    m: KNNMetric,
) -> Seq<PairDist>
    decreases corpus.len(),
{
    if corpus.len() == 0 {
        Seq::empty()
    } else {
        let rest = knn_candidates(target_id, target, corpus.drop_last(), m);
        let u = corpus.last();
        if u.id == target_id {
            rest
        } else {
            match score_spec(m, target, u.ratings@) {
                Some(s) => rest.push(PairDist { id: u.id, value: s }),
                None => rest,
            }
        }
    }
}

/// Why a neighbour search or a merge was refused.
#[derive(Clone, Copy, Debug, PartialEq, Eq, Structural)]
pub enum KnnError {
    /// `k` was zero or negative.
    InvalidK,
    /// A Minkowski grade lay outside `1..=MAX_GRADE`.
    InvalidGrade,
}

/// Each candidate comes from a user of the corpus, has a fractional score,
/// and no two share an id.
pub proof fn lemma_candidates_props(
    target_id: u64,
    target: Seq<(u64, u8)>,
    corpus: Seq<UserRatings>,
    m: KNNMetric,
)
    requires
        corpus_valid(corpus),
        crate::ratings::valid_ratings(target),
        metric_valid(m),
    ensures
        all_wf(knn_candidates(target_id, target, corpus, m)),
        distinct_ids(knn_candidates(target_id, target, corpus, m)),
        forall|i: int|
            0 <= i < knn_candidates(target_id, target, corpus, m).len() ==> exists|j: int|
                0 <= j < corpus.len() && corpus[j].id == (#[trigger] knn_candidates(
                    target_id,
                    target,
                    corpus,
                    m,
                )[i]).id,
    decreases corpus.len(),
{
    if corpus.len() > 0 {
        let c0 = corpus.drop_last();
        assert(corpus_valid(c0)) by {
            assert forall|i: int| 0 <= i < c0.len() implies (#[trigger] c0[i]).ratings.wf() by {
                assert(c0[i] == corpus[i]);
            }
        }
        lemma_candidates_props(target_id, target, c0, m);
        let rest = knn_candidates(target_id, target, c0, m);
        let cands = knn_candidates(target_id, target, corpus, m);
        let u = corpus.last();
        assert(u.ratings.wf());
        crate::metrics::lemma_score_wf(m, target, u.ratings@);
        assert forall|i: int| 0 <= i < rest.len() implies exists|j: int|
            0 <= j < corpus.len() && corpus[j].id == (#[trigger] rest[i]).id by {
            let j = choose|j: int| 0 <= j < c0.len() && c0[j].id == rest[i].id;
            assert(corpus[j] == c0[j]);
        }
        if u.id != target_id && score_spec(m, target, u.ratings@) is Some {
            assert forall|i: int| 0 <= i < rest.len() implies (#[trigger] rest[i]).id != u.id by {
                let j = choose|j: int| 0 <= j < c0.len() && c0[j].id == rest[i].id;
                assert(corpus[j] == c0[j]);
            }
            assert(cands == rest.push(cands.last()));
            assert forall|i: int| 0 <= i < cands.len() implies exists|j: int|
                0 <= j < corpus.len() && corpus[j].id == (#[trigger] cands[i]).id by {
                if i < rest.len() {
                    assert(cands[i] == rest[i]);
                } else {
                    assert(corpus[corpus.len() - 1].id == cands[i].id);
                }
            }
            assert forall|i: int| 0 <= i < cands.len() implies (#[trigger] cands[i]).value.wf() by {
                if i < rest.len() {
                    assert(cands[i] == rest[i]);
                }
            }
            assert forall|i: int, j: int| 0 <= i < cands.len() && 0 <= j < cands.len() && i != j
                implies cands[i].id != cands[j].id by {
                if i < rest.len() && j < rest.len() {
                    assert(cands[i] == rest[i] && cands[j] == rest[j]);
                } else if i < rest.len() {
                    assert(cands[i] == rest[i]);
                } else if j < rest.len() {
                    assert(cands[j] == rest[j]);
                }
            }
        }
    }
}

impl Engine {
    /// The `k` nearest neighbours of `target_id`, whose ratings are
    /// `target_ratings`, among the users of `ratings` (a whole corpus or one
    /// chunk of it), best first under the metric's polarity. The target itself
    /// is never its own neighbour, and users whose score is undefined are left
    /// out. Ties in score go to the smaller id.
    pub fn k_nearest_neighbors(
        &self,
        k: i32,
        target_id: u64,
        target_ratings: &RatingVector,
        ratings: &Vec<UserRatings>,
        metric: &KNNMetric,
    ) -> (r: Result<Vec<PairDist>, KnnError>)
        requires
            target_ratings.wf(),
            corpus_valid(ratings@),
        ensures
            k <= 0 <==> r == Err::<Vec<PairDist>, KnnError>(KnnError::InvalidK),
            k > 0 && !metric_valid(*metric) <==> r == Err::<Vec<PairDist>, KnnError>(
                KnnError::InvalidGrade,
            ),
            r matches Ok(v) ==> is_top_k(
                v@,
                knn_candidates(target_id, target_ratings@, ratings@, *metric),
                k as int,
                polarity_of(*metric),
            ),
    {
        if k <= 0 {
            return Err(KnnError::InvalidK);
        }
        if let KNNMetric::Minkowski(g) = metric {
            if *g < 1 || *g > MAX_GRADE {
                return Err(KnnError::InvalidGrade);
            }
        }
        let pol = metric.polarity();
        let mut selector = TopKSelector::new(k as usize, pol);
        let mut i: usize = 0;
        while i < ratings.len()
            invariant
                target_ratings.wf(),
                corpus_valid(ratings@),
                metric_valid(*metric),
                0 <= i <= ratings@.len(),
                selector.wf(),
                selector.k == k as usize,
                selector.pol == polarity_of(*metric),
                selector.seen@ == knn_candidates(
                    target_id,
                    target_ratings@,
                    ratings@.take(i as int),
                    *metric,
                ),
            decreases ratings@.len() - i,
        {
            let u = &ratings[i];
            let ghost prefix = ratings@.take(i as int);
            proof {
                assert(ratings@.take(i as int + 1).drop_last() =~= prefix);
                assert(corpus_valid(prefix)) by {
                    assert forall|p: int| 0 <= p < prefix.len() implies (#[trigger] prefix[p]).ratings.wf() by {
                        assert(prefix[p] == ratings@[p]);
                    }
                }
                lemma_candidates_props(target_id, target_ratings@, prefix, *metric);
                assert(ratings@[i as int].ratings.wf());
            }
            if u.id != target_id {
                let score = self.score_between(target_ratings, &u.ratings, metric);
                match score {
                    Some(s) => {
                        proof {
                            let seen = selector.seen@;
                            assert forall|p: int| 0 <= p < seen.len() implies (#[trigger] seen[p]).id != u.id by {
                                let j = choose|j: int| 0 <= j < prefix.len() && prefix[j].id == seen[p].id;
                                assert(prefix[j] == ratings@[j]);
                            }
                        }
                        selector.offer(PairDist { id: u.id, value: s });
                    },
                    None => {},
                }
            }
            i = i + 1;
        }
        proof {
            assert(ratings@.take(ratings@.len() as int) =~= ratings@);
        }
        Ok(selector.into_sorted())
    }
}

/// The users of all chunks, chunk after chunk.
pub open spec fn concat_chunks(chunks: Seq<Seq<UserRatings>>) -> Seq<UserRatings>
    decreases chunks.len(),
{
    if chunks.len() == 0 {
        Seq::empty()
    } else {
        concat_chunks(chunks.drop_last()) + chunks.last()
    }
}

/// Scanning two corpora one after the other offers the candidates of the
/// first, then those of the second.
pub proof fn lemma_candidates_concat(
    target_id: u64,
    target: Seq<(u64, u8)>,
    c1: Seq<UserRatings>,
    c2: Seq<UserRatings>,
    m: KNNMetric,
)
    ensures
        knn_candidates(target_id, target, c1 + c2, m) == knn_candidates(target_id, target, c1, m)
            + knn_candidates(target_id, target, c2, m),
    decreases c2.len(),
{
    if c2.len() == 0 {
        assert(c1 + c2 =~= c1);
        assert(knn_candidates(target_id, target, c1, m) + Seq::<PairDist>::empty() =~= knn_candidates(target_id, target, c1, m));
    } else {
        lemma_candidates_concat(target_id, target, c1, c2.drop_last(), m);
        assert((c1 + c2).drop_last() =~= c1 + c2.drop_last());
        assert((c1 + c2).last() == c2.last());
        let a = knn_candidates(target_id, target, c1, m);
        let b = knn_candidates(target_id, target, c2.drop_last(), m);
        let u = c2.last();
        if u.id != target_id {
            if let Some(sc) = score_spec(m, target, u.ratings@) {
                assert(a + b.push(PairDist { id: u.id, value: sc }) =~= (a + b).push(PairDist { id: u.id, value: sc }));
            }
        }
    }
}

/// The users of the first `j` chunks come first among the users of all.
proof fn lemma_concat_prefix(chunks: Seq<Seq<UserRatings>>, j: int)
    requires
        0 <= j <= chunks.len(),
    ensures
        concat_chunks(chunks.take(j)).len() <= concat_chunks(chunks).len(),
        forall|p: int|
            0 <= p < concat_chunks(chunks.take(j)).len() ==> #[trigger] concat_chunks(chunks.take(j))[p]
                == concat_chunks(chunks)[p],
    decreases chunks.len(),
{
    if j == chunks.len() {
        assert(chunks.take(j) =~= chunks);
    } else {
        let c0 = chunks.drop_last();
        assert(chunks.take(j) =~= c0.take(j));
        lemma_concat_prefix(c0, j);
    }
}

/// After `i` merges, the running result is the top `k` of the first `i`
/// chunks.
proof fn lemma_fold_prefix(
    k: int,
    target_id: u64,
    target: Seq<(u64, u8)>,
    chunks: Seq<Seq<UserRatings>>,
    m: KNNMetric,
    partial: Seq<Seq<PairDist>>,
    running: Seq<Seq<PairDist>>,
    i: int,
)
    requires
        k > 0,
        crate::ratings::valid_ratings(target),
        metric_valid(m),
        corpus_valid(concat_chunks(chunks)),
        partial.len() == chunks.len(),
        forall|j: int|
            0 <= j < chunks.len() ==> is_top_k(
                #[trigger] partial[j],
                knn_candidates(target_id, target, chunks[j], m),
                k,
                polarity_of(m),
            ),
        running.len() == chunks.len() + 1,
        running[0] == Seq::<PairDist>::empty(),
        forall|j: int|
            0 <= j < chunks.len() ==> is_top_k(
                #[trigger] running[j + 1],
                running[j] + partial[j],
                k,
                polarity_of(m),
            ),
        0 <= i <= chunks.len(),
    ensures
        is_top_k(
            running[i],
            knn_candidates(target_id, target, concat_chunks(chunks.take(i)), m),
            k,
            polarity_of(m),
        ),
    decreases i,
{
    let pol = polarity_of(m);
    if i == 0 {
        assert(chunks.take(0) =~= Seq::<Seq<UserRatings>>::empty());
    } else {
        let j = i - 1;
        lemma_fold_prefix(k, target_id, target, chunks, m, partial, running, j);
        let pre = concat_chunks(chunks.take(j));
        let next = concat_chunks(chunks.take(i));
        assert(chunks.take(i).drop_last() =~= chunks.take(j));
        assert(next == pre + chunks[j]);
        lemma_candidates_concat(target_id, target, pre, chunks[j], m);
        lemma_concat_prefix(chunks, i);
        let whole_corpus = concat_chunks(chunks);
        assert(corpus_valid(next)) by {
            assert forall|p: int| 0 <= p < next.len() implies (#[trigger] next[p]).ratings.wf() by {
                assert(next[p] == whole_corpus[p]);
            }
            assert forall|p: int, q: int|
                0 <= p < next.len() && 0 <= q < next.len() && p != q implies next[p].id != next[q].id by {
                assert(next[p] == whole_corpus[p]);
                assert(next[q] == whole_corpus[q]);
            }
        }
        lemma_candidates_props(target_id, target, next, m);
        assert(is_top_k(running[j + 1], running[j] + partial[j], k, pol));
        assert(is_top_k(partial[j], knn_candidates(target_id, target, chunks[j], m), k, pol));
        lemma_merge_top_k(
            running[j],
            partial[j],
            knn_candidates(target_id, target, pre, m),
            knn_candidates(target_id, target, chunks[j], m),
            running[i],
            k,
            pol,
        );
    }
}

/// Chunk equivalence: folding `merge_heap_results_for_knn` over the
/// per-chunk results of `k_nearest_neighbors`, starting from the empty list,
/// gives exactly the result of `k_nearest_neighbors` on the whole corpus.
///
/// `partial[i]` is what the search returned on chunk `i`, `running[i + 1]`
/// what the merge of `running[i]` with `partial[i]` returned, and `whole` what
/// the search returned on all chunks together. Each is described by the
/// contract of the function that produced it.
pub proof fn lemma_chunk_equivalence(
    k: int,
    target_id: u64,
    target: Seq<(u64, u8)>,
    chunks: Seq<Seq<UserRatings>>,
    m: KNNMetric,
    partial: Seq<Seq<PairDist>>,
    running: Seq<Seq<PairDist>>,
    whole: Seq<PairDist>,
)
    requires
        k > 0,
        crate::ratings::valid_ratings(target),
        metric_valid(m),
        corpus_valid(concat_chunks(chunks)),
        partial.len() == chunks.len(),
        forall|i: int|
            0 <= i < chunks.len() ==> is_top_k(
                #[trigger] partial[i],
                knn_candidates(target_id, target, chunks[i], m),
                k,
                polarity_of(m),
            ),
        running.len() == chunks.len() + 1,
        running[0] == Seq::<PairDist>::empty(),
        forall|i: int|
            0 <= i < chunks.len() ==> is_top_k(
                #[trigger] running[i + 1],
                running[i] + partial[i],
                k,
                polarity_of(m),
            ),
        is_top_k(whole, knn_candidates(target_id, target, concat_chunks(chunks), m), k, polarity_of(m)),
    ensures
        running.last() == whole,
{
    let n = chunks.len() as int;
    lemma_fold_prefix(k, target_id, target, chunks, m, partial, running, n);
    assert(chunks.take(n) =~= chunks);
    lemma_candidates_props(target_id, target, concat_chunks(chunks), m);
    lemma_top_k_unique(
        running[n],
        whole,
        knn_candidates(target_id, target, concat_chunks(chunks), m),
        k,
        polarity_of(m),
    );
}

/// A scan offers no more candidates than the corpus has users.
proof fn lemma_candidates_len(target_id: u64, target: Seq<(u64, u8)>, corpus: Seq<UserRatings>, m: KNNMetric)
    ensures
        knn_candidates(target_id, target, corpus, m).len() <= corpus.len(),
    decreases corpus.len(),
{
    if corpus.len() > 0 {
        lemma_candidates_len(target_id, target, corpus.drop_last(), m);
    }
}

/// What a neighbour search returns is bounded: never more than `k` entries,
/// never more than the candidates (users other than the target whose score
/// is defined), hence never more than the corpus holds; and every returned
/// neighbour ranks strictly before every candidate left out.
pub proof fn lemma_knn_result_bound(
    k: int,
    target_id: u64,
    target: Seq<(u64, u8)>,
    corpus: Seq<UserRatings>,
    m: KNNMetric,
    r: Seq<PairDist>,
)
    requires
        is_top_k(r, knn_candidates(target_id, target, corpus, m), k, polarity_of(m)),
    ensures
        r.len() <= k,
        r.len() <= knn_candidates(target_id, target, corpus, m).len(),
        r.len() <= corpus.len(),
        forall|i: int, x: PairDist|
            0 <= i < r.len() && knn_candidates(target_id, target, corpus, m).contains(x) && !r.contains(x)
                ==> #[trigger] crate::topk::better(r[i], x, polarity_of(m)),
{
    crate::topk::lemma_top_k_bound(r, knn_candidates(target_id, target, corpus, m), k, polarity_of(m));
    lemma_candidates_len(target_id, target, corpus, m);
}

/// Merges the results of separate neighbour searches.
pub struct Auxiliar {}

impl Auxiliar {
    pub fn new() -> (r: Auxiliar) {
        Auxiliar {  }
    }

    /// The best `k` of two lists of similarities (larger first).
    pub fn merge_min_heap(&self, k: usize, first_heap: &Vec<PairDist>, second_heap: &Vec<PairDist>) -> (r:
        Vec<PairDist>)
        requires
            ranked(first_heap@, Polarity::Maximize),
            ranked(second_heap@, Polarity::Maximize),
            all_wf(first_heap@),
            all_wf(second_heap@),
            distinct_ids(first_heap@ + second_heap@),
        ensures
            is_top_k(r@, first_heap@ + second_heap@, k as int, Polarity::Maximize),
    {
        merge_ranked(k, first_heap, second_heap, Polarity::Maximize)
    }

    /// The best `k` of two lists of distances (smaller first).
    pub fn merge_max_heap(&self, k: usize, first_heap: &Vec<PairDist>, second_heap: &Vec<PairDist>) -> (r:
        Vec<PairDist>)
        requires
            ranked(first_heap@, Polarity::Minimize),
            ranked(second_heap@, Polarity::Minimize),
            all_wf(first_heap@),
            all_wf(second_heap@),
            distinct_ids(first_heap@ + second_heap@),
        ensures
            is_top_k(r@, first_heap@ + second_heap@, k as int, Polarity::Minimize),
    {
        merge_ranked(k, first_heap, second_heap, Polarity::Minimize)
    }

    /// The best `k` of two neighbour lists of `metric`, as computed on two
    /// disjoint chunks, best first.
    pub fn merge_heap_results_for_knn(
        &self,
        k: i32,
        first_heap: &Vec<PairDist>,
        second_heap: &Vec<PairDist>,
        metric: &KNNMetric,
    ) -> (r: Result<Vec<PairDist>, KnnError>)
        requires
            ranked(first_heap@, polarity_of(*metric)),
            ranked(second_heap@, polarity_of(*metric)),
            all_wf(first_heap@),
            all_wf(second_heap@),
            distinct_ids(first_heap@ + second_heap@),
        ensures
            k <= 0 <==> r is Err,
            r is Err ==> r == Err::<Vec<PairDist>, KnnError>(KnnError::InvalidK),
            r matches Ok(v) ==> is_top_k(
                v@,
                first_heap@ + second_heap@,
                k as int,
                polarity_of(*metric),
            ),
    {
        if k <= 0 {
            return Err(KnnError::InvalidK);
        }
        match metric {
            KNNMetric::Manhattan | KNNMetric::Euclidean | KNNMetric::Minkowski(_)
            | KNNMetric::JaccardDistance => Ok(self.merge_max_heap(k as usize, first_heap, second_heap)),
            KNNMetric::Pearson | KNNMetric::Cosine | KNNMetric::JaccardIndex => Ok(
                self.merge_min_heap(k as usize, first_heap, second_heap),
            ),
        }
    }
}

} // verus!
