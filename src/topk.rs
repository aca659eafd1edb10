//! Scored candidates, their ranking under a polarity, the bounded top-k
//! selector and the merge of two top-k lists.

use vstd::prelude::*;
use crate::metrics::Polarity;
use crate::ratio::{lemma_score_trans, Score};

verus! {

/// A candidate: an entity id with its score.
#[derive(Clone, Copy, Debug, PartialEq, Eq)]
pub struct PairDist {
    pub id: u64,
    pub value: Score,
}

/// `x` ranks before `y`: its score is better under `pol`, or the scores are
/// equal and its id is smaller.
pub open spec fn better(x: PairDist, y: PairDist, pol: Polarity) -> bool {
    match pol {
        Polarity::Minimize => x.value.lt(y.value) || (x.value.same_value(y.value) && x.id < y.id),
        Polarity::Maximize => y.value.lt(x.value) || (x.value.same_value(y.value) && x.id < y.id),
    }
}

/// Every score in `s` is a fraction.
pub open spec fn all_wf(s: Seq<PairDist>) -> bool {
    forall|i: int| 0 <= i < s.len() ==> (#[trigger] s[i]).value.wf()
}

/// No two entries of `s` share an id.
pub open spec fn distinct_ids(s: Seq<PairDist>) -> bool {
    forall|i: int, j: int| 0 <= i < s.len() && 0 <= j < s.len() && i != j ==> s[i].id != s[j].id
}

/// `s` is in ranking order, best first, without ties.
pub open spec fn ranked(s: Seq<PairDist>, pol: Polarity) -> bool {
    forall|i: int, j: int| 0 <= i < j < s.len() ==> better(s[i], s[j], pol)
}

/// The smaller of two integers.
pub open spec fn min_int(a: int, b: int) -> int {
    if a < b {
        a
    } else {
        b
    }
}

/// `r` is the best `k` of `cands` under `pol`, best first: it has
/// `min(k, |cands|)` entries, all taken from `cands`, in ranking order, and
/// each of them ranks before every candidate left out.
pub open spec fn is_top_k(r: Seq<PairDist>, cands: Seq<PairDist>, k: int, pol: Polarity) -> bool {
    &&& r.len() == min_int(k, cands.len() as int)
    &&& ranked(r, pol)
    &&& forall|i: int| 0 <= i < r.len() ==> cands.contains(#[trigger] r[i])
    &&& forall|x: PairDist, i: int|
        #![trigger cands.contains(x), r[i]]
        cands.contains(x) && !r.contains(x) && 0 <= i < r.len() ==> better(r[i], x, pol)
    &&& r.len() < k ==> forall|x: PairDist| cands.contains(x) ==> r.contains(x)
}

/// A top-`k` result never holds more than `min(k, |cands|)` entries, and each
/// entry it holds ranks strictly before every candidate it leaves out: taking
/// any entry away leaves only worse ones behind.
pub proof fn lemma_top_k_bound(r: Seq<PairDist>, cands: Seq<PairDist>, k: int, pol: Polarity)
    requires
        is_top_k(r, cands, k, pol),
    ensures
        r.len() <= k,
        r.len() <= cands.len(),
        forall|i: int, x: PairDist|
            0 <= i < r.len() && cands.contains(x) && !r.contains(x) ==> #[trigger] better(r[i], x, pol),
{
    assert forall|i: int, x: PairDist|
        0 <= i < r.len() && cands.contains(x) && !r.contains(x) implies #[trigger] better(r[i], x, pol) by {
        assert(cands.contains(x));
    }
}

/// The ranking is a strict total order on candidates with distinct ids.
pub proof fn lemma_better_order(x: PairDist, y: PairDist, z: PairDist, pol: Polarity)
    requires
        x.value.wf(),
        y.value.wf(),
        z.value.wf(),
    ensures
        !better(x, x, pol),
        better(x, y, pol) ==> !better(y, x, pol),
        x.id != y.id ==> better(x, y, pol) || better(y, x, pol),
        better(x, y, pol) && better(y, z, pol) ==> better(x, z, pol),
{
    lemma_score_trans(x.value, y.value, z.value);
    lemma_score_trans(z.value, y.value, x.value);
}

/// Whether `x` ranks before `y` under `pol`.
pub fn is_better(x: &PairDist, y: &PairDist, pol: Polarity) -> (r: bool)
    requires
        x.value.wf(),
        y.value.wf(),
    ensures
        r == better(*x, *y, pol),
{
    let c = x.value.compare(&y.value);
    match pol {
        Polarity::Minimize => c < 0 || (c == 0 && x.id < y.id),
        Polarity::Maximize => c > 0 || (c == 0 && x.id < y.id),
    }
}

/// An entry of a sequence is contained in it.
pub proof fn lemma_contains_at<T>(s: Seq<T>, i: int)
    requires
        0 <= i < s.len(),
    ensures
        s.contains(s[i]),
{
    assert(s[i] == s[i]);
}

proof fn lemma_insert_contains(r: Seq<PairDist>, p: int, c: PairDist)
    requires
        0 <= p <= r.len(),
    ensures
        forall|x: PairDist| #[trigger] r.insert(p, c).contains(x) <==> (r.contains(x) || x == c),
{
    r.insert_ensures(p, c);
    let r2 = r.insert(p, c);
    assert forall|x: PairDist| r2.contains(x) <==> (r.contains(x) || x == c) by {
        if r2.contains(x) {
            let i = choose|i: int| 0 <= i < r2.len() && r2[i] == x;
            if i < p {
                assert(r[i] == x);
            } else if i > p {
                assert(r[i - 1] == x);
            }
        }
        if r.contains(x) {
            let i = choose|i: int| 0 <= i < r.len() && r[i] == x;
            if i < p {
                assert(r2[i] == x);
            } else {
                assert(r2[i + 1] == x);
            }
        }
        if x == c {
            assert(r2[p] == x);
        }
    }
}

proof fn lemma_push_contains(r: Seq<PairDist>, c: PairDist)
    ensures
        forall|x: PairDist| #[trigger] r.push(c).contains(x) <==> (r.contains(x) || x == c),
{
    let r2 = r.push(c);
    assert forall|x: PairDist| r2.contains(x) <==> (r.contains(x) || x == c) by {
        if r2.contains(x) {
            let i = choose|i: int| 0 <= i < r2.len() && r2[i] == x;
            if i < r.len() {
                assert(r[i] == x);
            }
        }
        if r.contains(x) {
            let i = choose|i: int| 0 <= i < r.len() && r[i] == x;
            assert(r2[i] == x);
        }
        if x == c {
            assert(r2[r.len() as int] == x);
        }
    }
}

/// Inserting `c` where everything before ranks above it and everything after
/// ranks below keeps the sequence ranked.
proof fn lemma_insert_ranked(r: Seq<PairDist>, p: int, c: PairDist, pol: Polarity)
    requires
        0 <= p <= r.len(),
        ranked(r, pol),
        forall|i: int| 0 <= i < p ==> better(#[trigger] r[i], c, pol),
        forall|i: int| p <= i < r.len() ==> better(c, #[trigger] r[i], pol),
    ensures
        ranked(r.insert(p, c), pol),
{
    r.insert_ensures(p, c);
    let r2 = r.insert(p, c);
    assert forall|i: int, j: int| 0 <= i < j < r2.len() implies better(r2[i], r2[j], pol) by {
        if j < p {
            assert(r2[i] == r[i] && r2[j] == r[j]);
        } else if j == p {
            assert(r2[i] == r[i]);
        } else if i < p {
            assert(r2[i] == r[i] && r2[j] == r[j - 1]);
        } else if i == p {
            assert(r2[j] == r[j - 1]);
        } else {
            assert(r2[i] == r[i - 1] && r2[j] == r[j - 1]);
        }
    }
}

/// Where `c` belongs in the ranked `items`: everything before the position
/// ranks above `c`, everything from it on ranks below. Binary search.
fn insert_position(items: &Vec<PairDist>, c: &PairDist, pol: Polarity) -> (p: usize)
    requires
        ranked(items@, pol),
        all_wf(items@),
        c.value.wf(),
        forall|i: int| 0 <= i < items@.len() ==> (#[trigger] items@[i]).id != c.id,
    ensures
        p <= items@.len(),
        forall|i: int| 0 <= i < p ==> better(#[trigger] items@[i], *c, pol),
        forall|i: int| p <= i < items@.len() ==> better(*c, #[trigger] items@[i], pol),
{
    let mut lo: usize = 0;
    let mut hi: usize = items.len();
    while lo < hi
        invariant
            0 <= lo <= hi <= items@.len(),
            ranked(items@, pol),
            all_wf(items@),
            c.value.wf(),
            forall|i: int| 0 <= i < items@.len() ==> (#[trigger] items@[i]).id != c.id,
            forall|i: int| 0 <= i < lo ==> better(#[trigger] items@[i], *c, pol),
            forall|i: int| hi <= i < items@.len() ==> better(*c, #[trigger] items@[i], pol),
        decreases hi - lo,
    {
        let mid = lo + (hi - lo) / 2;
        let m = items[mid];
        if is_better(&m, c, pol) {
            assert forall|i: int| 0 <= i < mid + 1 implies better(#[trigger] items@[i], *c, pol) by {
                if i < mid {
                    lemma_better_order(items@[i], m, *c, pol);
                }
            }
            lo = mid + 1;
        } else {
            proof {
                lemma_better_order(m, *c, *c, pol);
            }
            assert forall|i: int| mid <= i < items@.len() implies better(*c, #[trigger] items@[i], pol) by {
                if i > mid {
                    lemma_better_order(*c, m, items@[i], pol);
                }
            }
            hi = mid;
        }
    }
    lo
}

/// The bounded top-k selector: keeps, best first, the `k` best candidates
/// offered so far under a fixed polarity.
pub struct TopKSelector {
    pub k: usize,
    pub pol: Polarity,
    pub items: Vec<PairDist>,
    pub seen: Ghost<Seq<PairDist>>,
}

impl TopKSelector {
    /// The kept items are the top `k` of all candidates offered, whose scores
    /// are fractions and whose ids differ.
    pub open spec fn wf(&self) -> bool {
        &&& is_top_k(self.items@, self.seen@, self.k as int, self.pol)
        &&& all_wf(self.seen@)
        &&& distinct_ids(self.seen@)
    }

    /// A selector that has seen nothing.
    pub fn new(k: usize, pol: Polarity) -> (r: TopKSelector)
        ensures
            r.wf(),
            r.k == k,
            r.pol == pol,
            r.seen@ == Seq::<PairDist>::empty(),
    {
        TopKSelector { k, pol, items: Vec::new(), seen: Ghost(Seq::empty()) }
    }

    /// Offers one more candidate, whose id has not been offered before.
    pub fn offer(&mut self, c: PairDist)
        requires
            old(self).wf(),
            c.value.wf(),
            forall|i: int| 0 <= i < old(self).seen@.len() ==> (#[trigger] old(self).seen@[i]).id != c.id,
        ensures
            final(self).wf(),
            final(self).k == old(self).k,
            final(self).pol == old(self).pol,
            final(self).seen@ == old(self).seen@.push(c),
    {
        let ghost s = self.seen@;
        let ghost r = self.items@;
        let k = self.k;
        let pol = self.pol;
        proof {
            lemma_push_contains(s, c);
            assert forall|i: int| 0 <= i < r.len() implies (#[trigger] r[i]).id != c.id && r[i].value.wf() by {
                assert(s.contains(r[i]));
                let j = choose|j: int| 0 <= j < s.len() && s[j] == r[i];
            }
            assert(distinct_ids(s.push(c))) by {
                assert forall|i: int, j: int| 0 <= i < s.len() + 1 && 0 <= j < s.len() + 1 && i != j
                    implies s.push(c)[i].id != s.push(c)[j].id by {
                    if i < s.len() && j < s.len() {
                        assert(s.push(c)[i] == s[i] && s.push(c)[j] == s[j]);
                    } else if i < s.len() {
                        assert(s.push(c)[i] == s[i]);
                    } else if j < s.len() {
                        assert(s.push(c)[j] == s[j]);
                    }
                }
            }
        }
        if self.items.len() < k {
            let p = insert_position(&self.items, &c, pol);
            self.items.insert(p, c);
            proof {
                lemma_insert_ranked(r, p as int, c, pol);
                lemma_insert_contains(r, p as int, c);
                r.insert_ensures(p as int, c);
                let r2 = r.insert(p as int, c);
                assert forall|i: int| 0 <= i < r2.len() implies s.push(c).contains(#[trigger] r2[i]) by {
                    lemma_contains_at(r2, i);
                    if r2[i] != c {
                        let j = choose|j: int| 0 <= j < r.len() && r[j] == r2[i];
                        assert(s.contains(r[j]));
                        assert(s.contains(r2[i]));
                    }
                    assert(s.contains(r2[i]) || r2[i] == c);
                    lemma_push_contains(s, c);
                    assert(s.push(c).contains(r2[i]));
                }
            }
        } else if k > 0 && is_better(&c, &self.items[k - 1], pol) {
            let ghost last = r[k - 1];
            let ghost r1 = r.drop_last();
            self.items.pop();
            proof {
                assert forall|i: int, j: int| 0 <= i < j < r1.len() implies better(r1[i], r1[j], pol) by {
                    assert(r1[i] == r[i] && r1[j] == r[j]);
                }
                assert forall|i: int| 0 <= i < r1.len() implies (#[trigger] r1[i]).id != c.id && r1[i].value.wf() by {
                    assert(r1[i] == r[i]);
                }
                assert(all_wf(r1));
            }
            let p = insert_position(&self.items, &c, pol);
            self.items.insert(p, c);
            proof {
                lemma_insert_ranked(r1, p as int, c, pol);
                lemma_insert_contains(r1, p as int, c);
                lemma_push_contains(r1, last);
                assert(r1.push(last) =~= r);
                r1.insert_ensures(p as int, c);
                let r2 = r1.insert(p as int, c);
                assert forall|i: int| 0 <= i < r2.len() implies s.push(c).contains(#[trigger] r2[i]) by {
                    lemma_contains_at(r2, i);
                    if r2[i] != c {
                        assert(r1.contains(r2[i]));
                        let j = choose|j: int| 0 <= j < r1.len() && r1[j] == r2[i];
                        assert(r[j] == r2[i]);
                        assert(s.contains(r[j]));
                    }
                }
                assert forall|x: PairDist, i: int|
                    s.push(c).contains(x) && !r2.contains(x) && 0 <= i < r2.len() implies better(
                    r2[i],
                    x,
                    pol,
                ) by {
                    assert(x != c);
                    assert(s.contains(x));
                    lemma_contains_at(r2, i);
                    assert(s.contains(last));
                    lemma_better_order(r2[i], last, x, pol);
                    if x == last {
                        if r2[i] != c {
                            let j = choose|j: int| 0 <= j < r1.len() && r1[j] == r2[i];
                            assert(r[j] == r1[j]);
                        }
                    } else {
                        assert(!r.contains(x));
                        assert(better(last, x, pol)) by {
                            assert(r[k - 1] == last);
                        }
                        if r2[i] != c {
                            let j = choose|j: int| 0 <= j < r1.len() && r1[j] == r2[i];
                            assert(r[j] == r1[j]);
                        }
                    }
                }
            }
        } else {
            proof {
                if k > 0 {
                    let last = r[k - 1];
                    assert(s.contains(last));
                    lemma_better_order(c, last, c, pol);
                    assert forall|x: PairDist, i: int|
                        s.push(c).contains(x) && !r.contains(x) && 0 <= i < r.len() implies better(
                        r[i],
                        x,
                        pol,
                    ) by {
                        if x == c {
                            if i < k - 1 {
                                lemma_better_order(r[i], last, c, pol);
                            }
                        } else {
                            assert(s.contains(x));
                        }
                    }
                }
                assert forall|i: int| 0 <= i < r.len() implies s.push(c).contains(#[trigger] r[i]) by {
                    assert(s.contains(r[i]));
                }
            }
        }
        proof {
            self.seen = Ghost(s.push(c));
            assert(all_wf(s.push(c))) by {
                assert forall|i: int| 0 <= i < s.len() + 1 implies (#[trigger] s.push(c)[i]).value.wf() by {
                    if i < s.len() {
                        assert(s.push(c)[i] == s[i]);
                    }
                }
            }
        }
    }

    /// The kept candidates, best first.
    pub fn into_sorted(self) -> (r: Vec<PairDist>)
        requires
            self.wf(),
        ensures
            is_top_k(r@, self.seen@, self.k as int, self.pol),
    {
        self.items
    }
}


/// `a + b` holds exactly what `a` or `b` holds.
pub proof fn lemma_concat_contains(a: Seq<PairDist>, b: Seq<PairDist>)
    ensures
        forall|x: PairDist| #[trigger] (a + b).contains(x) <==> (a.contains(x) || b.contains(x)),
{
    let ab = a + b;
    assert forall|x: PairDist| #[trigger] ab.contains(x) <==> (a.contains(x) || b.contains(x)) by {
        if ab.contains(x) {
            let i = choose|i: int| 0 <= i < ab.len() && ab[i] == x;
            if i < a.len() {
                assert(a[i] == x);
            } else {
                assert(b[i - a.len()] == x);
            }
        }
        if a.contains(x) {
            let i = choose|i: int| 0 <= i < a.len() && a[i] == x;
            assert(ab[i] == x);
        }
        if b.contains(x) {
            let i = choose|i: int| 0 <= i < b.len() && b[i] == x;
            assert(ab[a.len() + i] == x);
        }
    }
}

/// The best `k` of two ranked lists whose ids differ, best first: a merge
/// that stops after `k` entries.
pub fn merge_ranked(k: usize, a: &Vec<PairDist>, b: &Vec<PairDist>, pol: Polarity) -> (r: Vec<
    PairDist,
>)
    requires
        ranked(a@, pol),
        ranked(b@, pol),
        all_wf(a@),
        all_wf(b@),
        distinct_ids(a@ + b@),
    ensures
        is_top_k(r@, a@ + b@, k as int, pol),
{
    let ghost ab = a@ + b@;
    proof {
        lemma_concat_contains(a@, b@);
    }
    let mut out: Vec<PairDist> = Vec::new();
    let mut i: usize = 0;
    let mut j: usize = 0;
    while out.len() < k && (i < a.len() || j < b.len())
        invariant
            ab == a@ + b@,
            forall|x: PairDist| #[trigger] ab.contains(x) <==> (a@.contains(x) || b@.contains(x)),
            ranked(a@, pol),
            ranked(b@, pol),
            all_wf(a@),
            all_wf(b@),
            distinct_ids(ab),
            i <= a@.len(),
            j <= b@.len(),
            out@.len() == i + j,
            out@.len() <= k,
            ranked(out@, pol),
            forall|m: int| 0 <= m < out@.len() ==> ab.contains(#[trigger] out@[m]),
            forall|t: int| 0 <= t < i ==> out@.contains(#[trigger] a@[t]),
            forall|t: int| 0 <= t < j ==> out@.contains(#[trigger] b@[t]),
            forall|m: int, t: int|
                0 <= m < out@.len() && i <= t < a@.len() ==> better(#[trigger] out@[m], #[trigger] a@[t], pol),
            forall|m: int, t: int|
                0 <= m < out@.len() && j <= t < b@.len() ==> better(#[trigger] out@[m], #[trigger] b@[t], pol),
        decreases a@.len() + b@.len() - i - j,
    {
        let take_a = if i < a.len() && j < b.len() {
            is_better(&a[i], &b[j], pol)
        } else {
            i < a.len()
        };
        let ghost old_out = out@;
        if take_a {
            let h = a[i];
            proof {
                assert(ab[i as int] == h);
                if j < b@.len() {
                    assert(ab[a@.len() + j] == b@[j as int]);
                }
            }
            out.push(h);
            proof {
                lemma_contains_at(a@, i as int);
                lemma_push_contains(old_out, h);
                assert forall|m: int, t: int|
                    0 <= m < out@.len() && i + 1 <= t < a@.len() implies better(#[trigger] out@[m], #[trigger] a@[t], pol) by {
                    if m < old_out.len() {
                        assert(out@[m] == old_out[m]);
                    }
                }
                assert forall|m: int, t: int|
                    0 <= m < out@.len() && j <= t < b@.len() implies better(#[trigger] out@[m], #[trigger] b@[t], pol) by {
                    if m < old_out.len() {
                        assert(out@[m] == old_out[m]);
                    } else if t > j {
                        lemma_better_order(h, b@[j as int], b@[t], pol);
                    }
                }
                assert forall|m: int| 0 <= m < out@.len() implies ab.contains(#[trigger] out@[m]) by {
                    if m < old_out.len() {
                        assert(out@[m] == old_out[m]);
                    }
                }
                assert forall|t: int| 0 <= t < i + 1 implies out@.contains(#[trigger] a@[t]) by {
                    lemma_contains_at(out@, old_out.len() as int);
                }
                assert forall|t: int| 0 <= t < j implies out@.contains(#[trigger] b@[t]) by {
                }
                assert forall|p: int, q: int| 0 <= p < q < out@.len() implies better(out@[p], out@[q], pol) by {
                    assert(out@[p] == old_out[p]);
                    if q < old_out.len() {
                        assert(out@[q] == old_out[q]);
                    }
                }
            }
            i = i + 1;
        } else {
            let h = b[j];
            proof {
                assert(ab[a@.len() + j] == h);
                if i < a@.len() {
                    assert(ab[i as int] == a@[i as int]);
                    assert(ab[i as int].id != ab[a@.len() + j].id);
                    lemma_better_order(a@[i as int], h, h, pol);
                }
            }
            out.push(h);
            proof {
                lemma_contains_at(b@, j as int);
                lemma_push_contains(old_out, h);
                assert forall|m: int, t: int|
                    0 <= m < out@.len() && j + 1 <= t < b@.len() implies better(#[trigger] out@[m], #[trigger] b@[t], pol) by {
                    if m < old_out.len() {
                        assert(out@[m] == old_out[m]);
                    }
                }
                assert forall|m: int, t: int|
                    0 <= m < out@.len() && i <= t < a@.len() implies better(#[trigger] out@[m], #[trigger] a@[t], pol) by {
                    if m < old_out.len() {
                        assert(out@[m] == old_out[m]);
                    } else if t > i {
                        lemma_better_order(h, a@[i as int], a@[t], pol);
                    }
                }
                assert forall|m: int| 0 <= m < out@.len() implies ab.contains(#[trigger] out@[m]) by {
                    if m < old_out.len() {
                        assert(out@[m] == old_out[m]);
                    }
                }
                assert forall|t: int| 0 <= t < j + 1 implies out@.contains(#[trigger] b@[t]) by {
                    lemma_contains_at(out@, old_out.len() as int);
                }
                assert forall|t: int| 0 <= t < i implies out@.contains(#[trigger] a@[t]) by {
                }
                assert forall|p: int, q: int| 0 <= p < q < out@.len() implies better(out@[p], out@[q], pol) by {
                    assert(out@[p] == old_out[p]);
                    if q < old_out.len() {
                        assert(out@[q] == old_out[q]);
                    }
                }
            }
            j = j + 1;
        }
    }
    proof {
        assert forall|x: PairDist, m: int|
            ab.contains(x) && !out@.contains(x) && 0 <= m < out@.len() implies better(out@[m], x, pol) by {
            if a@.contains(x) {
                let t = choose|t: int| 0 <= t < a@.len() && a@[t] == x;
                assert(out@[m] == out@[m]);
            } else {
                let t = choose|t: int| 0 <= t < b@.len() && b@[t] == x;
                assert(out@[m] == out@[m]);
            }
        }
        if out@.len() < k {
            assert forall|x: PairDist| ab.contains(x) implies out@.contains(x) by {
                if a@.contains(x) {
                    let t = choose|t: int| 0 <= t < a@.len() && a@[t] == x;
                } else {
                    let t = choose|t: int| 0 <= t < b@.len() && b@[t] == x;
                }
            }
        }
    }
    out
}


/// Two results that both are the top `k` of the same candidates, whose ids
/// differ, agree up to position `i`.
proof fn lemma_top_k_agree(r1: Seq<PairDist>, r2: Seq<PairDist>, cands: Seq<PairDist>, k: int, pol: Polarity, i: int)
    requires
        is_top_k(r1, cands, k, pol),
        is_top_k(r2, cands, k, pol),
        all_wf(cands),
        distinct_ids(cands),
        0 <= i < r1.len(),
    ensures
        forall|p: int| 0 <= p <= i ==> r1[p] == r2[p],
    decreases i,
{
    if i > 0 {
        lemma_top_k_agree(r1, r2, cands, k, pol, i - 1);
    }
    let x = r1[i];
    let y = r2[i];
    assert(cands.contains(x) && cands.contains(y));
    let px = choose|p: int| 0 <= p < cands.len() && cands[p] == x;
    let py = choose|p: int| 0 <= p < cands.len() && cands[p] == y;
    lemma_better_order(x, y, x, pol);
    if x != y {
        assert(px != py);
        assert(x.id != y.id);
        if better(x, y, pol) {
            if r2.contains(x) {
                let q = choose|q: int| 0 <= q < r2.len() && r2[q] == x;
                if q < i {
                    assert(r1[q] == x);
                    lemma_better_order(r1[q], r1[i], x, pol);
                } else if q > i {
                    lemma_better_order(y, x, x, pol);
                }
            } else {
                assert(better(r2[i], x, pol));
            }
        } else {
            if r1.contains(y) {
                let q = choose|q: int| 0 <= q < r1.len() && r1[q] == y;
                if q < i {
                    assert(r2[q] == y);
                    lemma_better_order(r2[q], r2[i], y, pol);
                } else if q > i {
                    lemma_better_order(x, y, y, pol);
                }
            } else {
                assert(better(r1[i], y, pol));
            }
        }
    }
}

/// The top `k` of a set of candidates with distinct ids is unique.
pub proof fn lemma_top_k_unique(r1: Seq<PairDist>, r2: Seq<PairDist>, cands: Seq<PairDist>, k: int, pol: Polarity)
    requires
        is_top_k(r1, cands, k, pol),
        is_top_k(r2, cands, k, pol),
        all_wf(cands),
        distinct_ids(cands),
    ensures
        r1 == r2,
{
    if r1.len() > 0 {
        lemma_top_k_agree(r1, r2, cands, k, pol, r1.len() - 1);
    }
    assert(r1 =~= r2);
}

/// In two ranked sequences, where every entry of `a` up to `t` stands in `m`,
/// `a[t]` stands in `m` no earlier than at position `t`.
proof fn lemma_ranked_embedding(a: Seq<PairDist>, m: Seq<PairDist>, pol: Polarity, t: int, q: int)
    requires
        ranked(a, pol),
        ranked(m, pol),
        all_wf(a),
        all_wf(m),
        0 <= t < a.len(),
        forall|u: int| 0 <= u <= t ==> m.contains(#[trigger] a[u]),
        0 <= q < m.len(),
        m[q] == a[t],
    ensures
        q >= t,
    decreases t,
{
    if t > 0 {
        assert(m.contains(a[t - 1]));
        let q1 = choose|q1: int| 0 <= q1 < m.len() && m[q1] == a[t - 1];
        lemma_ranked_embedding(a, m, pol, t - 1, q1);
        lemma_better_order(a[t - 1], a[t], a[t - 1], pol);
        if q <= q1 {
            if q < q1 {
                lemma_better_order(m[q], m[q1], m[q], pol);
            }
        }
    }
}

/// A candidate that the top `k` of its own side left out ranks below every
/// entry of a merged result `m` that has taken in or outranked that side.
proof fn lemma_left_out_of_side(
    side: Seq<PairDist>,
    side_cands: Seq<PairDist>,
    m: Seq<PairDist>,
    x: PairDist,
    k: int,
    pol: Polarity,
)
    requires
        is_top_k(side, side_cands, k, pol),
        all_wf(side_cands),
        all_wf(m),
        ranked(m, pol),
        m.len() <= k,
        side_cands.contains(x),
        !side.contains(x),
        !m.contains(x),
        forall|i: int| 0 <= i < m.len() ==> (#[trigger] m[i]).id != x.id,
        forall|y: PairDist, i: int|
            #![trigger side.contains(y), m[i]]
            side.contains(y) && !m.contains(y) && 0 <= i < m.len() ==> better(m[i], y, pol),
    ensures
        forall|i: int| 0 <= i < m.len() ==> better(#[trigger] m[i], x, pol),
{
    let px = choose|p: int| 0 <= p < side_cands.len() && side_cands[p] == x;
    assert(x.value.wf());
    assert(all_wf(side)) by {
        assert forall|t: int| 0 <= t < side.len() implies (#[trigger] side[t]).value.wf() by {
            assert(side_cands.contains(side[t]));
        }
    }
    assert forall|i: int| 0 <= i < m.len() implies better(#[trigger] m[i], x, pol) by {
        lemma_better_order(m[i], x, m[i], pol);
        if !better(m[i], x, pol) {
            assert(better(x, m[i], pol));
            assert(side.len() == k);
            assert forall|t: int| 0 <= t < side.len() implies better(#[trigger] side[t], m[i], pol) by {
                assert(better(side[t], x, pol));
                lemma_better_order(side[t], x, m[i], pol);
            }
            assert forall|t: int| 0 <= t < side.len() implies m.contains(#[trigger] side[t]) by {
                lemma_contains_at(side, t);
                if !m.contains(side[t]) {
                    assert(better(m[i], side[t], pol));
                    lemma_better_order(m[i], side[t], m[i], pol);
                }
            }
            let last = side[k - 1];
            let q = choose|q: int| 0 <= q < m.len() && m[q] == last;
            lemma_ranked_embedding(side, m, pol, k - 1, q);
            lemma_better_order(m[q], m[i], m[q], pol);
            if q > i {
                lemma_better_order(m[i], m[q], m[i], pol);
            }
        }
    }
}

/// Merging two top-`k` results of disjoint candidate sets gives the top `k`
/// of their union.
pub proof fn lemma_merge_top_k(
    a: Seq<PairDist>,
    b: Seq<PairDist>,
    s: Seq<PairDist>,
    t: Seq<PairDist>,
    m: Seq<PairDist>,
    k: int,
    pol: Polarity,
)
    requires
        k >= 0,
        is_top_k(a, s, k, pol),
        is_top_k(b, t, k, pol),
        is_top_k(m, a + b, k, pol),
        all_wf(s + t),
        distinct_ids(s + t),
    ensures
        is_top_k(m, s + t, k, pol),
{
    let st = s + t;
    let ab = a + b;
    lemma_concat_contains(s, t);
    lemma_concat_contains(a, b);
    assert(all_wf(s)) by {
        assert forall|i: int| 0 <= i < s.len() implies (#[trigger] s[i]).value.wf() by {
            assert(st[i] == s[i]);
        }
    }
    assert(all_wf(t)) by {
        assert forall|i: int| 0 <= i < t.len() implies (#[trigger] t[i]).value.wf() by {
            assert(st[s.len() + i] == t[i]);
        }
    }
    // Entries of `s` and of `t` never share an id.
    assert forall|x: PairDist, y: PairDist| s.contains(x) && t.contains(y) implies x.id != y.id by {
        let p = choose|p: int| 0 <= p < s.len() && s[p] == x;
        let q = choose|q: int| 0 <= q < t.len() && t[q] == y;
        assert(st[p] == x && st[s.len() + q] == y);
    }
    assert forall|i: int| 0 <= i < m.len() implies st.contains(#[trigger] m[i]) by {
        assert(ab.contains(m[i]));
        if a.contains(m[i]) {
            let p = choose|p: int| 0 <= p < a.len() && a[p] == m[i];
            assert(s.contains(a[p]));
        } else {
            let p = choose|p: int| 0 <= p < b.len() && b[p] == m[i];
            assert(t.contains(b[p]));
        }
    }
    assert(all_wf(m)) by {
        assert forall|i: int| 0 <= i < m.len() implies (#[trigger] m[i]).value.wf() by {
            assert(st.contains(m[i]));
        }
    }
    assert forall|x: PairDist, i: int|
        #![trigger st.contains(x), m[i]]
        st.contains(x) && !m.contains(x) && 0 <= i < m.len() implies better(m[i], x, pol) by {
        if ab.contains(x) {
        } else if s.contains(x) {
            assert(!a.contains(x));
            assert forall|j: int| 0 <= j < m.len() implies (#[trigger] m[j]).id != x.id by {
                if m[j].id == x.id {
                    assert(st.contains(m[j]));
                    let p = choose|p: int| 0 <= p < st.len() && st[p] == m[j];
                    let q = choose|q: int| 0 <= q < st.len() && st[q] == x;
                }
            }
            assert forall|y: PairDist, j: int|
                #![trigger a.contains(y), m[j]]
                a.contains(y) && !m.contains(y) && 0 <= j < m.len() implies better(m[j], y, pol) by {
                assert(ab.contains(y));
            }
            lemma_left_out_of_side(a, s, m, x, k, pol);
        } else {
            assert(t.contains(x));
            assert(!b.contains(x));
            assert forall|j: int| 0 <= j < m.len() implies (#[trigger] m[j]).id != x.id by {
                if m[j].id == x.id {
                    assert(st.contains(m[j]));
                    let p = choose|p: int| 0 <= p < st.len() && st[p] == m[j];
                    let q = choose|q: int| 0 <= q < st.len() && st[q] == x;
                }
            }
            assert forall|y: PairDist, j: int|
                #![trigger b.contains(y), m[j]]
                b.contains(y) && !m.contains(y) && 0 <= j < m.len() implies better(m[j], y, pol) by {
                assert(ab.contains(y));
            }
            lemma_left_out_of_side(b, t, m, x, k, pol);
        }
    }
    if m.len() < k {
        assert(a.len() == s.len() && b.len() == t.len());
        assert forall|x: PairDist| st.contains(x) implies m.contains(x) by {
            if s.contains(x) {
                assert(a.contains(x));
            } else {
                assert(b.contains(x));
            }
        }
    }
}

} // verus!
