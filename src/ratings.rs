//! Sparse rating vectors: one user's ratings, sorted by item id.

use vstd::prelude::*;

verus! {

/// The most items that one rating vector may hold. It bounds every sum that
/// the metrics form, so that all of them fit in 128 bits.
pub const MAX_RATED: usize = 1048576;

/// Item ids strictly increase along `s`.
pub open spec fn sorted_ids(s: Seq<(u64, u8)>) -> bool {
    forall|i: int, j: int| 0 <= i < j < s.len() ==> s[i].0 < s[j].0
}

/// The rating that `s` gives to `item`, if any.
pub open spec fn lookup(s: Seq<(u64, u8)>, item: u64) -> Option<u8> {
    if exists|i: int| 0 <= i < s.len() && s[i].0 == item {
        let i = choose|i: int| 0 <= i < s.len() && s[i].0 == item;
        Some(s[i].1)
    } else {
        None
    }
}

/// The pairs `(rating in a, rating in b)` of the items that both rate, in
/// item order.
pub open spec fn common(a: Seq<(u64, u8)>, b: Seq<(u64, u8)>) -> Seq<(u8, u8)>
    decreases a.len() + b.len(),
{
    if a.len() == 0 || b.len() == 0 {
        Seq::empty()
    } else if a.last().0 > b.last().0 {
        common(a.drop_last(), b)
    } else if a.last().0 < b.last().0 {
        common(a, b.drop_last())
    } else {
        common(a.drop_last(), b.drop_last()).push((a.last().1, b.last().1))
    }
}

/// Each pair with its two sides exchanged.
pub open spec fn swapped(s: Seq<(u8, u8)>) -> Seq<(u8, u8)> {
    s.map_values(|p: (u8, u8)| (p.1, p.0))
}

/// The pairs found by walking `small` and looking each item up in `big`.
pub open spec fn probe(small: Seq<(u64, u8)>, big: Seq<(u64, u8)>) -> Seq<(u8, u8)>
    decreases small.len(),
{
    if small.len() == 0 {
        Seq::empty()
    } else {
        let rest = probe(small.drop_last(), big);
        match lookup(big, small.last().0) {
            Some(v) => rest.push((small.last().1, v)),
            None => rest,
        }
    }
}

/// One user's ratings: `(item id, rating)` pairs with strictly increasing item
/// ids. A rating is a small integer on the caller's scale (half stars, say).
#[derive(Clone, Debug)]
pub struct RatingVector {
    pub entries: Vec<(u64, u8)>,
}

impl View for RatingVector {
    type V = Seq<(u64, u8)>;

    open spec fn view(&self) -> Seq<(u64, u8)> {
        self.entries@
    }
}

/// A rating vector is sorted by item and not longer than `MAX_RATED`.
pub open spec fn valid_ratings(s: Seq<(u64, u8)>) -> bool {
    sorted_ids(s) && s.len() <= MAX_RATED
}

impl RatingVector {
    pub open spec fn wf(&self) -> bool {
        valid_ratings(self@)
    }

    /// Takes `entries` as a rating vector when they are sorted by strictly
    /// increasing item id and not too many; `None` otherwise.
    pub fn new(entries: Vec<(u64, u8)>) -> (r: Option<RatingVector>)
        ensures
            r is Some <==> valid_ratings(entries@),
            r is Some ==> r->0@ == entries@,
    {
        if entries.len() > MAX_RATED {
            return None;
        }
        let mut i: usize = 1;
        while i < entries.len()
            invariant
                1 <= i,
                entries@.len() <= MAX_RATED,
                forall|p: int, q: int| 0 <= p < q < i && q < entries@.len() ==> entries@[p].0 < entries@[q].0,
            decreases entries.len() - i,
        {
            if entries[i - 1].0 >= entries[i].0 {
                return None;
            }
            proof {
                assert forall|p: int, q: int| 0 <= p < q < i + 1 && q < entries@.len() implies entries@[p].0 < entries@[q].0 by {
                    if q == i && p < i - 1 {
                        assert(entries@[p].0 < entries@[i - 1].0);
                    }
                }
            }
            i = i + 1;
        }
        Some(RatingVector { entries })
    }

    /// The empty rating vector.
    pub fn empty() -> (r: RatingVector)
        ensures
            r.wf(),
            r@.len() == 0,
    {
        RatingVector { entries: Vec::new() }
    }

    /// How many items are rated.
    pub fn len(&self) -> (r: usize)
        ensures
            r == self@.len(),
    {
        self.entries.len()
    }

    /// The rating given to `item`, found by binary search.
    pub fn get(&self, item: u64) -> (r: Option<u8>)
        requires
            self.wf(),
        ensures
            r == lookup(self@, item),
    {
        let s = &self.entries;
        let mut lo: usize = 0;
        let mut hi: usize = s.len();
        while lo < hi
            invariant
                s@ == self@,
                sorted_ids(s@),
                0 <= lo <= hi <= s@.len(),
                forall|i: int| 0 <= i < lo ==> s@[i].0 < item,
                forall|i: int| hi <= i < s@.len() ==> s@[i].0 > item,
            decreases hi - lo,
        {
            let mid = lo + (hi - lo) / 2;
            if s[mid].0 == item {
                let v = s[mid].1;
                proof {
                    lemma_lookup_at(s@, mid as int);
                }
                return Some(v);
            } else if s[mid].0 < item {
                lo = mid + 1;
            } else {
                hi = mid;
            }
        }
        None
    }
}

/// Where `s` holds `item` at `i`, `lookup` finds that rating.
pub proof fn lemma_lookup_at(s: Seq<(u64, u8)>, i: int)
    requires
        sorted_ids(s),
        0 <= i < s.len(),
    ensures
        lookup(s, s[i].0) == Some(s[i].1),
{
    let item = s[i].0;
    assert(exists|j: int| 0 <= j < s.len() && s[j].0 == item);
    let j = choose|j: int| 0 <= j < s.len() && s[j].0 == item;
    if j < i {
        assert(s[j].0 < s[i].0);
    } else if j > i {
        assert(s[i].0 < s[j].0);
    }
}

/// Dropping the last entry of `s` does not change a lookup of a smaller item.
proof fn lemma_lookup_drop_last(s: Seq<(u64, u8)>, item: u64)
    requires
        sorted_ids(s),
        s.len() > 0,
        item != s.last().0,
    ensures
        lookup(s, item) == lookup(s.drop_last(), item),
{
    let t = s.drop_last();
    if exists|i: int| 0 <= i < s.len() && s[i].0 == item {
        let i = choose|i: int| 0 <= i < s.len() && s[i].0 == item;
        assert(i < s.len() - 1);
        assert(t[i] == s[i]);
        lemma_lookup_at(s, i);
        lemma_lookup_at(t, i);
    } else {
        assert forall|i: int| 0 <= i < t.len() implies t[i].0 != item by {
            assert(t[i] == s[i]);
        }
    }
}

/// Probing a vector whose items are all below the last item of `big` never
/// meets that last item.
proof fn lemma_probe_drop_big(a: Seq<(u64, u8)>, b: Seq<(u64, u8)>)
    requires
        sorted_ids(a),
        sorted_ids(b),
        b.len() > 0,
        forall|i: int| 0 <= i < a.len() ==> a[i].0 < b.last().0,
    ensures
        probe(a, b) == probe(a, b.drop_last()),
    decreases a.len(),
{
    if a.len() > 0 {
        lemma_probe_drop_big(a.drop_last(), b);
        lemma_lookup_drop_last(b, a.last().0);
    }
}

/// Walking the smaller vector and probing the other finds exactly the common
/// items.
pub proof fn lemma_probe_is_common(a: Seq<(u64, u8)>, b: Seq<(u64, u8)>)
    requires
        sorted_ids(a),
        sorted_ids(b),
    ensures
        probe(a, b) == common(a, b),
    decreases a.len() + b.len(),
{
    if a.len() == 0 {
    } else if b.len() == 0 {
        lemma_probe_empty(a, b);
    } else if a.last().0 > b.last().0 {
        lemma_probe_is_common(a.drop_last(), b);
        assert forall|i: int| 0 <= i < b.len() implies b[i].0 != a.last().0 by {
            if i < b.len() - 1 {
                assert(b[i].0 < b.last().0);
            }
        }
    } else if a.last().0 < b.last().0 {
        assert forall|i: int| 0 <= i < a.len() implies a[i].0 < b.last().0 by {
            if i < a.len() - 1 {
                assert(a[i].0 < a.last().0);
            }
        }
        lemma_probe_drop_big(a, b);
        lemma_probe_is_common(a, b.drop_last());
    } else {
        let a2 = a.drop_last();
        assert forall|i: int| 0 <= i < a2.len() implies a2[i].0 < b.last().0 by {
            assert(a[i].0 < a.last().0);
        }
        lemma_probe_drop_big(a2, b);
        lemma_probe_is_common(a2, b.drop_last());
        lemma_lookup_at(b, b.len() - 1);
    }
}

proof fn lemma_probe_empty(a: Seq<(u64, u8)>, b: Seq<(u64, u8)>)
    requires
        b.len() == 0,
    ensures
        probe(a, b) == Seq::<(u8, u8)>::empty(),
    decreases a.len(),
{
    if a.len() > 0 {
        lemma_probe_empty(a.drop_last(), b);
    }
}

/// The common items of `b` and `a` are those of `a` and `b`, sides exchanged.
pub proof fn lemma_common_symmetric(a: Seq<(u64, u8)>, b: Seq<(u64, u8)>)
    ensures
        common(b, a) == swapped(common(a, b)),
    decreases a.len() + b.len(),
{
    if a.len() == 0 || b.len() == 0 {
        assert(swapped(Seq::empty()) =~= Seq::empty());
    } else if a.last().0 > b.last().0 {
        lemma_common_symmetric(a.drop_last(), b);
    } else if a.last().0 < b.last().0 {
        lemma_common_symmetric(a, b.drop_last());
    } else {
        lemma_common_symmetric(a.drop_last(), b.drop_last());
        let c = common(a.drop_last(), b.drop_last());
        assert(swapped(c.push((a.last().1, b.last().1))) =~= swapped(c).push((b.last().1, a.last().1)));
    }
}

/// The pairs `(rating in a, rating in b)` of the items that both vectors rate.
/// Walks the shorter vector and looks each of its items up in the longer one.
pub fn common_ratings(a: &RatingVector, b: &RatingVector) -> (r: Vec<(u8, u8)>)
    requires
        a.wf(),
        b.wf(),
    ensures
        r@ == common(a@, b@),
{
    let a_first = a.len() <= b.len();
    let (small, big) = if a_first {
        (a, b)
    } else {
        (b, a)
    };
    let mut out: Vec<(u8, u8)> = Vec::new();
    let mut i: usize = 0;
    while i < small.entries.len()
        invariant
            small.wf(),
            big.wf(),
            0 <= i <= small@.len(),
            a_first ==> out@ == probe(small@.take(i as int), big@),
            !a_first ==> out@ == swapped(probe(small@.take(i as int), big@)),
        decreases small@.len() - i,
    {
        let (item, rating) = small.entries[i];
        let found = big.get(item);
        proof {
            assert(small@.take(i as int + 1).drop_last() =~= small@.take(i as int));
        }
        match found {
            Some(v) => {
                if a_first {
                    out.push((rating, v));
                } else {
                    out.push((v, rating));
                }
                proof {
                    let p = probe(small@.take(i as int), big@);
                    assert(swapped(p.push((rating, v))) =~= swapped(p).push((v, rating)));
                }
            },
            None => {},
        }
        i = i + 1;
    }
    proof {
        assert(small@.take(small@.len() as int) =~= small@);
        lemma_probe_is_common(small@, big@);
        if !a_first {
            lemma_common_symmetric(a@, b@);
            let c = common(a@, b@);
            assert(swapped(swapped(c)) =~= c);
        }
    }
    out
}

} // verus!
