//! Rating prediction and recommendation from a weighted neighbour list.

use vstd::prelude::*;
use crate::metrics::{lemma_mul_bound, Polarity};
use crate::ratings::{lookup, RatingVector};
use crate::ratio::Score;
use crate::similarity::{merge_items, strictly_sorted};
use crate::topk::{better, is_top_k, lemma_contains_at, ranked, PairDist, TopKSelector};

verus! {

/// A neighbour of the target user: its id, its weight (a similarity on the
/// caller's fixed-point scale, `None` where it is undefined) and its ratings.
#[derive(Clone, Debug)]
pub struct WeightedNeighbor {
    pub id: u64,
    pub weight: Option<i32>,
    pub ratings: RatingVector,
}

/// All neighbours' ratings are valid vectors.
pub open spec fn neighbors_valid(ns: Seq<WeightedNeighbor>) -> bool {
    forall|i: int| 0 <= i < ns.len() ==> (#[trigger] ns[i]).ratings.wf()
}

/// Σ rating × weight over the neighbours with a defined weight who rated
/// `item`.
pub open spec fn weighted_sum(ns: Seq<WeightedNeighbor>, item: u64) -> int
    decreases ns.len(),
{
    if ns.len() == 0 {
        0
    } else {
        let rest = weighted_sum(ns.drop_last(), item);
        match (ns.last().weight, lookup(ns.last().ratings@, item)) {
            (Some(w), Some(x)) => rest + x * w,
            _ => rest,
        }
    }
}

/// Σ weight over the neighbours with a defined weight who rated `item`.
pub open spec fn weight_sum(ns: Seq<WeightedNeighbor>, item: u64) -> int
    decreases ns.len(),
{
    if ns.len() == 0 {
        0
    } else {
        let rest = weight_sum(ns.drop_last(), item);
        match (ns.last().weight, lookup(ns.last().ratings@, item)) {
            (Some(w), Some(_)) => rest + w,
            _ => rest,
        }
    }
}

/// How many neighbours with a defined weight rated `item`.
pub open spec fn qualifying(ns: Seq<WeightedNeighbor>, item: u64) -> int
    decreases ns.len(),
{
    if ns.len() == 0 {
        0
    } else {
        let rest = qualifying(ns.drop_last(), item);
        match (ns.last().weight, lookup(ns.last().ratings@, item)) {
            (Some(_), Some(_)) => rest + 1,
            _ => rest,
        }
    }
}

/// An integer as a score.
pub open spec fn int_score(v: int) -> Score {
    Score { neg: v < 0, num: (if v < 0 { -v } else { v }) as u128, den: 1 }
}

/// The largest magnitude of one rating times one weight.
spec fn term_bound() -> int {
    547608330240
}

/// The largest magnitude of one weight.
spec fn weight_bound() -> int {
    2147483648
}

proof fn lemma_term_bound(x: u8, w: i32)
    ensures
        -term_bound() <= x * w <= term_bound(),
{
    assert(-547608330240 <= x * w <= 547608330240) by (nonlinear_arith)
        requires
            0 <= x <= 255,
            -2147483648 <= w <= 2147483647,
    ;
}

proof fn lemma_sums_bounds(ns: Seq<WeightedNeighbor>, item: u64)
    ensures
        -(term_bound() * ns.len()) <= weighted_sum(ns, item) <= term_bound() * ns.len(),
        -(weight_bound() * ns.len()) <= weight_sum(ns, item) <= weight_bound() * ns.len(),
        0 <= qualifying(ns, item) <= ns.len(),
    decreases ns.len(),
{
    if ns.len() > 0 {
        lemma_sums_bounds(ns.drop_last(), item);
        if let (Some(w), Some(x)) = (ns.last().weight, lookup(ns.last().ratings@, item)) {
            lemma_term_bound(x, w);
        }
    }
}

/// The three sums of a prediction, accumulated over the neighbours.
fn prediction_sums(neighbors: &Vec<WeightedNeighbor>, item: u64) -> (r: (i128, i128, u64))
    requires
        neighbors_valid(neighbors@),
    ensures
        r.0 == weighted_sum(neighbors@, item),
        r.1 == weight_sum(neighbors@, item),
        r.2 == qualifying(neighbors@, item),
{
    let mut num: i128 = 0;
    let mut den: i128 = 0;
    let mut count: u64 = 0;
    let mut i: usize = 0;
    while i < neighbors.len()
        invariant
            i <= neighbors@.len(),
            neighbors_valid(neighbors@),
            num == weighted_sum(neighbors@.take(i as int), item),
            den == weight_sum(neighbors@.take(i as int), item),
            count == qualifying(neighbors@.take(i as int), item),
        decreases neighbors@.len() - i,
    {
        let n = &neighbors[i];
        proof {
            assert(neighbors@.take(i + 1).drop_last() =~= neighbors@.take(i as int));
            lemma_sums_bounds(neighbors@.take(i as int), item);
            assert(neighbors@[i as int].ratings.wf());
        }
        match n.weight {
            Some(w) => {
                match n.ratings.get(item) {
                    Some(x) => {
                        proof {
                            lemma_mul_bound(i as int, term_bound(), 0x1_0000_0000_0000_0000, term_bound());
                            lemma_mul_bound(i as int, weight_bound(), 0x1_0000_0000_0000_0000, weight_bound());
                            lemma_term_bound(x, w);
                        }
                        num = num + (x as i128) * (w as i128);
                        den = den + w as i128;
                        count = count + 1;
                    },
                    None => {},
                }
            },
            None => {},
        }
        i = i + 1;
    }
    proof {
        assert(neighbors@.take(neighbors@.len() as int) =~= neighbors@);
    }
    (num, den, count)
}

/// Predicted rating of `item`: `Σ(rating × weight) / Σ(weight)` over the
/// neighbours with a defined weight who rated it, as an exact fraction.
/// `None` (undefined, never zero) when no such neighbour exists or their
/// weights cancel out.
pub fn predict_rating(neighbors: &Vec<WeightedNeighbor>, item: u64) -> (r: Option<Score>)
    requires
        neighbors_valid(neighbors@),
    ensures
        r is None <==> weight_sum(neighbors@, item) == 0,
        r matches Some(s) ==> s.wf() && s.numer() * weight_sum(neighbors@, item) == weighted_sum(
            neighbors@,
            item,
        ) * s.den,
{
    let (num, den, _count) = prediction_sums(neighbors, item);
    if den == 0 {
        return None;
    }
    let len = neighbors.len();
    proof {
        lemma_sums_bounds(neighbors@, item);
        lemma_mul_bound(len as int, term_bound(), 0x1_0000_0000_0000_0000, term_bound());
        lemma_mul_bound(len as int, weight_bound(), 0x1_0000_0000_0000_0000, weight_bound());
    }
    let (n, d) = if den < 0 {
        (-num, -den)
    } else {
        (num, den)
    };
    let s = Score { neg: n < 0, num: (if n < 0 { -n } else { n }) as u128, den: d as u128 };
    proof {
        assert(s.numer() == n);
        assert(n * den == num * d) by (nonlinear_arith)
            requires
                (n == num && d == den) || (n == -num && d == -den),
        ;
    }
    Some(s)
}

/// A prediction from no qualifying neighbour is undefined.
pub proof fn lemma_no_raters_no_prediction(ns: Seq<WeightedNeighbor>, item: u64)
    requires
        qualifying(ns, item) == 0,
    ensures
        weight_sum(ns, item) == 0,
        weighted_sum(ns, item) == 0,
    decreases ns.len(),
{
    if ns.len() > 0 {
        lemma_sums_bounds(ns.drop_last(), item);
        lemma_no_raters_no_prediction(ns.drop_last(), item);
    }
}


/// `item` is rated by some neighbour with a defined weight and not by the
/// target.
pub open spec fn recommendable(ns: Seq<WeightedNeighbor>, target: Seq<(u64, u8)>, item: u64) -> bool {
    &&& exists|i: int|
        0 <= i < ns.len() && ns[i].weight is Some && (#[trigger] lookup(ns[i].ratings@, item)) is Some
    &&& lookup(target, item) is None
}

/// The recommendation entry of `item`: its raw accumulated score
/// `Σ rating × weight`, not divided by any sum of weights.
pub open spec fn rec_entry(ns: Seq<WeightedNeighbor>, item: u64) -> PairDist {
    PairDist { id: item, value: int_score(weighted_sum(ns, item)) }
}

/// `r` is the top `n` recommendable items, highest accumulated score first,
/// ties going to the smaller item id.
pub open spec fn is_top_n_items(r: Seq<PairDist>, ns: Seq<WeightedNeighbor>, target: Seq<(u64, u8)>, n: int) -> bool {
    &&& r.len() <= n
    &&& ranked(r, Polarity::Maximize)
    &&& forall|i: int|
        0 <= i < r.len() ==> recommendable(ns, target, (#[trigger] r[i]).id) && r[i] == rec_entry(ns, r[i].id)
    &&& forall|item: u64, i: int|
        #![trigger recommendable(ns, target, item), r[i]]
        recommendable(ns, target, item) && (forall|j: int| 0 <= j < r.len() ==> r[j].id != item) && 0 <= i
            < r.len() ==> better(r[i], rec_entry(ns, item), Polarity::Maximize)
    &&& r.len() < n ==> forall|item: u64|
        recommendable(ns, target, item) ==> exists|j: int| 0 <= j < r.len() && (#[trigger] r[j]).id == item
}

/// An integer as a score.
fn score_of_int(v: i128) -> (s: Score)
    requires
        v > i128::MIN,
    ensures
        s == int_score(v as int),
        s.wf(),
{
    let mag: i128 = if v < 0 {
        -v
    } else {
        v
    };
    Score { neg: v < 0, num: mag as u128, den: 1 }
}

/// The items that neighbours with a defined weight rated, in increasing order.
fn neighbor_items(neighbors: &Vec<WeightedNeighbor>) -> (items: Vec<u64>)
    requires
        neighbors_valid(neighbors@),
    ensures
        strictly_sorted(items@),
        forall|x: u64| #[trigger] items@.contains(x) <==> exists|i: int|
            0 <= i < neighbors@.len() && neighbors@[i].weight is Some && (#[trigger] lookup(neighbors@[i].ratings@, x)) is Some,
{
    let mut items: Vec<u64> = Vec::new();
    let mut p: usize = 0;
    while p < neighbors.len()
        invariant
            p <= neighbors@.len(),
            neighbors_valid(neighbors@),
            strictly_sorted(items@),
            forall|x: u64| #[trigger] items@.contains(x) <==> exists|i: int|
                0 <= i < p && neighbors@[i].weight is Some && (#[trigger] lookup(neighbors@[i].ratings@, x)) is Some,
        decreases neighbors@.len() - p,
    {
        assert(neighbors@[p as int].ratings.wf());
        if neighbors[p].weight.is_some() {
            let next = merge_items(&items, &neighbors[p].ratings);
            proof {
                assert forall|x: u64| #[trigger] next@.contains(x) <==> exists|i: int|
                    0 <= i < p + 1 && neighbors@[i].weight is Some && (#[trigger] lookup(neighbors@[i].ratings@, x)) is Some by {
                    if lookup(neighbors@[p as int].ratings@, x) is Some {
                        assert(neighbors@[p as int].weight is Some);
                    }
                }
            }
            items = next;
        } else {
            proof {
                assert forall|x: u64| #[trigger] items@.contains(x) <==> exists|i: int|
                    0 <= i < p + 1 && neighbors@[i].weight is Some && (#[trigger] lookup(neighbors@[i].ratings@, x)) is Some by {
                    if exists|i: int| 0 <= i < p + 1 && neighbors@[i].weight is Some && (#[trigger] lookup(neighbors@[i].ratings@, x)) is Some {
                        let i = choose|i: int| 0 <= i < p + 1 && neighbors@[i].weight is Some && (#[trigger] lookup(neighbors@[i].ratings@, x)) is Some;
                        assert(i < p);
                    }
                }
            }
        }
        p = p + 1;
    }
    items
}

/// The `top_n` best items to recommend to the target: every item that a
/// neighbour with a defined weight rated and the target did not, scored by
/// its raw accumulated `Σ rating × weight`, highest first.
pub fn recommend(neighbors: &Vec<WeightedNeighbor>, target_ratings: &RatingVector, top_n: usize) -> (r:
    Vec<PairDist>)
    requires
        neighbors_valid(neighbors@),
        target_ratings.wf(),
    ensures
        is_top_n_items(r@, neighbors@, target_ratings@, top_n as int),
{
    let items = neighbor_items(neighbors);
    let mut selector = TopKSelector::new(top_n, Polarity::Maximize);
    let mut q: usize = 0;
    let ghost ns = neighbors@;
    let ghost target = target_ratings@;
    while q < items.len()
        invariant
            q <= items@.len(),
            ns == neighbors@,
            target == target_ratings@,
            neighbors_valid(ns),
            target_ratings.wf(),
            strictly_sorted(items@),
            forall|x: u64| #[trigger] items@.contains(x) <==> exists|i: int|
                0 <= i < ns.len() && ns[i].weight is Some && (#[trigger] lookup(ns[i].ratings@, x)) is Some,
            selector.wf(),
            selector.k == top_n,
            selector.pol == Polarity::Maximize,
            forall|p: int|
                0 <= p < selector.seen@.len() ==> exists|t: int|
                    0 <= t < q && items@[t] == (#[trigger] selector.seen@[p]).id,
            forall|p: int|
                0 <= p < selector.seen@.len() ==> recommendable(ns, target, (#[trigger] selector.seen@[p]).id)
                    && selector.seen@[p] == rec_entry(ns, selector.seen@[p].id),
            forall|t: int|
                0 <= t < q && recommendable(ns, target, #[trigger] items@[t]) ==> selector.seen@.contains(
                    rec_entry(ns, items@[t]),
                ),
        decreases items@.len() - q,
    {
        let item = items[q];
        let ghost before = selector.seen@;
        if target_ratings.get(item).is_none() {
            let (acc, _den, _count) = prediction_sums(neighbors, item);
            proof {
                lemma_sums_bounds(ns, item);
                assert(items@.contains(item)) by {
                    lemma_contains_at(items@, q as int);
                }
                assert forall|p: int| 0 <= p < before.len() implies (#[trigger] before[p]).id != item by {
                    let t = choose|t: int| 0 <= t < q && items@[t] == before[p].id;
                    assert(items@[t] < items@[q as int]);
                }
            }
            let len = neighbors.len();
            proof {
                lemma_mul_bound(len as int, term_bound(), 0x1_0000_0000_0000_0000, term_bound());
            }
            let value = score_of_int(acc);
            selector.offer(PairDist { id: item, value });
            proof {
                let seen = selector.seen@;
                assert(seen == before.push(rec_entry(ns, item)));
                assert forall|p: int| 0 <= p < seen.len() implies exists|t: int|
                    0 <= t < q + 1 && items@[t] == (#[trigger] seen[p]).id by {
                    if p < before.len() {
                        assert(seen[p] == before[p]);
                        let t = choose|t: int| 0 <= t < q && items@[t] == before[p].id;
                    } else {
                        assert(items@[q as int] == seen[p].id);
                    }
                }
                assert forall|p: int| 0 <= p < seen.len() implies recommendable(ns, target, (#[trigger] seen[p]).id)
                    && seen[p] == rec_entry(ns, seen[p].id) by {
                    if p < before.len() {
                        assert(seen[p] == before[p]);
                    }
                }
                assert forall|t: int| 0 <= t < q + 1 && recommendable(ns, target, #[trigger] items@[t]) implies seen.contains(
                    rec_entry(ns, items@[t]),
                ) by {
                    if t < q {
                        let p = choose|p: int| 0 <= p < before.len() && before[p] == rec_entry(ns, items@[t]);
                        assert(seen[p] == before[p]);
                    } else {
                        assert(seen[before.len() as int] == rec_entry(ns, items@[t]));
                    }
                }
            }
        } else {
            proof {
                assert forall|t: int| 0 <= t < q + 1 && recommendable(ns, target, #[trigger] items@[t]) implies selector.seen@.contains(
                    rec_entry(ns, items@[t]),
                ) by {
                    if t == q {
                        assert(lookup(target, item) is Some);
                    }
                }
                assert forall|p: int| 0 <= p < selector.seen@.len() implies exists|t: int|
                    0 <= t < q + 1 && items@[t] == (#[trigger] selector.seen@[p]).id by {
                    let t = choose|t: int| 0 <= t < q && items@[t] == selector.seen@[p].id;
                }
            }
        }
        q = q + 1;
    }
    let ghost seen = selector.seen@;
    let r = selector.into_sorted();
    proof {
        assert forall|i: int| 0 <= i < r@.len() implies recommendable(ns, target, (#[trigger] r@[i]).id) && r@[i] == rec_entry(ns, r@[i].id) by {
            assert(seen.contains(r@[i]));
            let p = choose|p: int| 0 <= p < seen.len() && seen[p] == r@[i];
        }
        assert forall|item: u64, i: int|
            #![trigger recommendable(ns, target, item), r@[i]]
            recommendable(ns, target, item) && (forall|j: int| 0 <= j < r@.len() ==> r@[j].id != item) && 0 <= i < r@.len()
            implies better(r@[i], rec_entry(ns, item), Polarity::Maximize) by {
            let w = choose|w: int| 0 <= w < ns.len() && ns[w].weight is Some && (#[trigger] lookup(ns[w].ratings@, item)) is Some;
            assert(items@.contains(item));
            let t = choose|t: int| 0 <= t < items@.len() && items@[t] == item;
            assert(seen.contains(rec_entry(ns, item)));
            if r@.contains(rec_entry(ns, item)) {
                let j = choose|j: int| 0 <= j < r@.len() && r@[j] == rec_entry(ns, item);
                assert(r@[j].id == item);
            }
        }
        if r@.len() < top_n {
            assert forall|item: u64| recommendable(ns, target, item) implies exists|j: int| 0 <= j < r@.len() && (#[trigger] r@[j]).id == item by {
                let w = choose|w: int| 0 <= w < ns.len() && ns[w].weight is Some && (#[trigger] lookup(ns[w].ratings@, item)) is Some;
                assert(items@.contains(item));
                let t = choose|t: int| 0 <= t < items@.len() && items@[t] == item;
                assert(seen.contains(rec_entry(ns, item)));
                assert(r@.contains(rec_entry(ns, item)));
                let j = choose|j: int| 0 <= j < r@.len() && r@[j] == rec_entry(ns, item);
                assert(r@[j].id == item);
            }
        }
    }
    r
}

} // verus!
