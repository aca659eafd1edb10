//! The item-item similarity matrix: adjusted cosine over users' mean-centred
//! ratings, for every pair of rated items.

use vstd::prelude::*;
use crate::knn::UserRatings;
use crate::metrics::lemma_mul_bound;
use crate::ratings::{lookup, sorted_ids, valid_ratings, RatingVector, MAX_RATED};
use crate::ratio::Score;

verus! {

/// Deviations from a user's mean are held in units of one thousandth of a
/// rating point, rounded away from zero: a deviation is held as zero only
/// when it is exactly zero.
pub const DEVIATION_SCALE: i64 = 1000;

/// The most users the matrix builder takes: it bounds the sums over raters so
/// that their products fit in 128 bits.
pub const MAX_USERS: usize = 16777216;

/// Σ of the ratings of `s`.
pub open spec fn rating_sum(s: Seq<(u64, u8)>) -> int
    decreases s.len(),
{
    if s.len() == 0 {
        0
    } else {
        rating_sum(s.drop_last()) + s.last().1
    }
}

/// `a / n` rounded away from zero, for `n > 0`.
pub open spec fn div_away_from_zero(a: int, n: int) -> int {
    if a >= 0 {
        (a + n - 1) / n
    } else {
        -((-a + n - 1) / n)
    }
}

/// `n` times the deviation of rating `x` from the mean of `s`:
/// `n·x - Σ s`, with `n = |s|`.
pub open spec fn scaled_deviation(s: Seq<(u64, u8)>, x: u8) -> int {
    s.len() * x - rating_sum(s)
}

/// How far the rating `x` lies from the mean of `s`, in units of
/// `1 / DEVIATION_SCALE`, rounded away from zero.
pub open spec fn deviation(s: Seq<(u64, u8)>, x: u8) -> int {
    div_away_from_zero(scaled_deviation(s, x) * DEVIATION_SCALE, s.len() as int)
}

/// The users of `c` who rated `item`, each as (its position in `c`, the
/// deviation of that rating), in corpus order.
pub open spec fn raters(c: Seq<UserRatings>, item: u64) -> Seq<(u64, i64)>
    decreases c.len(),
{
    if c.len() == 0 {
        Seq::empty()
    } else {
        let rest = raters(c.drop_last(), item);
        let u = c.last().ratings@;
        match lookup(u, item) {
            Some(x) => rest.push(((c.len() - 1) as u64, deviation(u, x) as i64)),
            None => rest,
        }
    }
}

/// The pairs of values of the keys that both `a` and `b` hold, for sequences
/// sorted by key.
pub open spec fn common_keyed(a: Seq<(u64, i64)>, b: Seq<(u64, i64)>) -> Seq<(i64, i64)>
    decreases a.len() + b.len(),
{
    if a.len() == 0 || b.len() == 0 {
        Seq::empty()
    } else if a.last().0 > b.last().0 {
        common_keyed(a.drop_last(), b)
    } else if a.last().0 < b.last().0 {
        common_keyed(a, b.drop_last())
    } else {
        common_keyed(a.drop_last(), b.drop_last()).push((a.last().1, b.last().1))
    }
}

/// Σ x·y over the pairs.
pub open spec fn dev_xy(s: Seq<(i64, i64)>) -> int
    decreases s.len(),
{
    if s.len() == 0 {
        0
    } else {
        dev_xy(s.drop_last()) + s.last().0 * s.last().1
    }
}

/// Σ x² over the pairs.
pub open spec fn dev_xx(s: Seq<(i64, i64)>) -> int
    decreases s.len(),
{
    if s.len() == 0 {
        0
    } else {
        dev_xx(s.drop_last()) + s.last().0 * s.last().0
    }
}

/// Σ y² over the pairs.
pub open spec fn dev_yy(s: Seq<(i64, i64)>) -> int
    decreases s.len(),
{
    if s.len() == 0 {
        0
    } else {
        dev_yy(s.drop_last()) + s.last().1 * s.last().1
    }
}

/// The users of `c` who rated both `a` and `b`, in corpus order, each as the
/// pair of its deviations on `a` and on `b`.
pub open spec fn common_raters(c: Seq<UserRatings>, a: u64, b: u64) -> Seq<(i64, i64)>
    decreases c.len(),
{
    if c.len() == 0 {
        Seq::empty()
    } else {
        let rest = common_raters(c.drop_last(), a, b);
        let u = c.last().ratings@;
        match (lookup(u, a), lookup(u, b)) {
            (Some(x), Some(y)) => rest.push((deviation(u, x) as i64, deviation(u, y) as i64)),
            _ => rest,
        }
    }
}

/// Adjusted cosine similarity of items `a` and `b` over the users who rated
/// both, `Σ da·db / (sqrt(Σ da²) · sqrt(Σ db²))`, held as
/// `sign(sim) · sim²`; undefined where no user rated both or either sum of
/// squared deviations is zero.
pub open spec fn adjusted_cosine(c: Seq<UserRatings>, a: u64, b: u64) -> Option<Score> {
    let s = common_raters(c, a, b);
    if dev_xx(s) > 0 && dev_yy(s) > 0 {
        Some(
            Score {
                neg: dev_xy(s) < 0,
                num: (dev_xy(s) * dev_xy(s)) as u128,
                den: (dev_xx(s) * dev_yy(s)) as u128,
            },
        )
    } else {
        None
    }
}

/// Some user of `c` rated `item`.
pub open spec fn rated_in(c: Seq<UserRatings>, item: u64) -> bool {
    exists|u: int| 0 <= u < c.len() && (#[trigger] lookup(c[u].ratings@, item)) is Some
}

/// Strictly increasing `u64`s.
pub open spec fn strictly_sorted(s: Seq<u64>) -> bool {
    forall|i: int, j: int| 0 <= i < j < s.len() ==> s[i] < s[j]
}

/// The largest deviation in magnitude: a full rating scale, scaled.
pub open spec fn dev_bound() -> int {
    255 * DEVIATION_SCALE
}

/// Every value of `s` is a deviation in range.
pub open spec fn values_bounded(s: Seq<(u64, i64)>) -> bool {
    forall|i: int| 0 <= i < s.len() ==> -dev_bound() <= (#[trigger] s[i]).1 <= dev_bound()
}

/// Every pair of `s` holds deviations in range.
pub open spec fn pairs_bounded(s: Seq<(i64, i64)>) -> bool {
    forall|i: int|
        0 <= i < s.len() ==> -dev_bound() <= (#[trigger] s[i]).0 <= dev_bound() && -dev_bound()
            <= s[i].1 <= dev_bound()
}

proof fn lemma_rating_sum_bounds(s: Seq<(u64, u8)>)
    ensures
        0 <= rating_sum(s) <= 255 * s.len(),
    decreases s.len(),
{
    if s.len() > 0 {
        lemma_rating_sum_bounds(s.drop_last());
    }
}

/// Rounding `a / n` up keeps it within `[0, 255000]` for `0 <= a <= 255000·n`,
/// and places it within one unit above the exact quotient.
proof fn lemma_ceil_div_bound(a: int, n: int)
    requires
        0 <= a <= 255000 * n,
        n > 0,
    ensures
        0 <= (a + n - 1) / n <= 255000,
        a <= ((a + n - 1) / n) * n < a + n,
        a > 0 ==> (a + n - 1) / n > 0,
        a == 0 ==> (a + n - 1) / n == 0,
{
    let q = (a + n - 1) / n;
    let r = (a + n - 1) % n;
    vstd::arithmetic::div_mod::lemma_fundamental_div_mod(a + n - 1, n);
    assert(0 <= q <= 255000 && a <= q * n < a + n && (a > 0 ==> q > 0) && (a == 0 ==> q == 0))
        by (nonlinear_arith)
        requires
            a + n - 1 == n * q + r,
            0 <= r < n,
            0 <= a <= 255000 * n,
            n > 0,
    ;
}

/// A deviation lies within a full rating scale of zero.
proof fn lemma_deviation_bounds(s: Seq<(u64, u8)>, x: u8)
    requires
        s.len() > 0,
        s.len() <= MAX_RATED,
    ensures
        -dev_bound() <= deviation(s, x) <= dev_bound(),
{
    lemma_rating_sum_bounds(s);
    let n = s.len() as int;
    let e = n * x - rating_sum(s);
    assert(0 <= n * x <= 255 * n) by (nonlinear_arith)
        requires
            0 <= x <= 255,
            n > 0,
    ;
    let a = e * 1000;
    assert(-255000 * n <= a <= 255000 * n);
    if a >= 0 {
        lemma_ceil_div_bound(a, n);
    } else {
        lemma_ceil_div_bound(-a, n);
    }
}

/// Raters come in increasing corpus position, with deviations in range.
proof fn lemma_raters_props(c: Seq<UserRatings>, item: u64)
    requires
        forall|i: int| 0 <= i < c.len() ==> (#[trigger] c[i]).ratings.wf(),
    ensures
        raters(c, item).len() <= c.len(),
        values_bounded(raters(c, item)),
    decreases c.len(),
{
    if c.len() > 0 {
        let c0 = c.drop_last();
        assert forall|i: int| 0 <= i < c0.len() implies (#[trigger] c0[i]).ratings.wf() by {
            assert(c0[i] == c[i]);
        }
        lemma_raters_props(c0, item);
        let u = c.last().ratings@;
        assert(c[c.len() - 1].ratings.wf());
        if let Some(x) = lookup(u, item) {
            let k = choose|k: int| 0 <= k < u.len() && u[k].0 == item;
            lemma_deviation_bounds(u, x);
            let r = raters(c, item);
            assert forall|i: int| 0 <= i < r.len() implies -dev_bound() <= (#[trigger] r[i]).1 <= dev_bound() by {
                if i < r.len() - 1 {
                    assert(r[i] == raters(c0, item)[i]);
                }
            }
        }
    }
}

/// Raters are keyed by positions below the corpus length.
proof fn lemma_raters_keys(c: Seq<UserRatings>, item: u64)
    requires
        c.len() <= MAX_USERS,
    ensures
        forall|i: int| 0 <= i < raters(c, item).len() ==> (#[trigger] raters(c, item)[i]).0 < c.len(),
    decreases c.len(),
{
    if c.len() > 0 {
        let c0 = c.drop_last();
        lemma_raters_keys(c0, item);
        let r = raters(c, item);
        let r0 = raters(c0, item);
        assert forall|i: int| 0 <= i < r.len() implies (#[trigger] r[i]).0 < c.len() by {
            if i < r0.len() {
                assert(r[i] == r0[i]);
            }
        }
    }
}

/// Merging the rater lists of `a` and `b` by corpus position finds exactly
/// the users who rated both.
pub proof fn lemma_common_raters(c: Seq<UserRatings>, a: u64, b: u64)
    requires
        c.len() <= MAX_USERS,
    ensures
        common_keyed(raters(c, a), raters(c, b)) == common_raters(c, a, b),
    decreases c.len(),
{
    if c.len() > 0 {
        let c0 = c.drop_last();
        lemma_common_raters(c0, a, b);
        lemma_raters_keys(c0, a);
        lemma_raters_keys(c0, b);
        let ra = raters(c, a);
        let rb = raters(c, b);
        let ra0 = raters(c0, a);
        let rb0 = raters(c0, b);
        let u = c.last().ratings@;
        match (lookup(u, a), lookup(u, b)) {
            (Some(x), Some(y)) => {
                assert(ra.drop_last() == ra0);
                assert(rb.drop_last() == rb0);
            },
            (Some(x), None) => {
                if rb0.len() > 0 {
                    assert(rb0[rb0.len() - 1].0 < c0.len());
                    assert(ra.drop_last() == ra0);
                } else {
                    assert(common_keyed(ra0, rb0) == Seq::<(i64, i64)>::empty());
                }
            },
            (None, Some(y)) => {
                if ra0.len() > 0 {
                    assert(ra0[ra0.len() - 1].0 < c0.len());
                    assert(rb.drop_last() == rb0);
                } else {
                    assert(common_keyed(ra0, rb0) == Seq::<(i64, i64)>::empty());
                }
            },
            (None, None) => {},
        }
    }
}

/// The common pairs of two bounded sequences are bounded and no more than
/// either.
proof fn lemma_common_keyed_props(a: Seq<(u64, i64)>, b: Seq<(u64, i64)>)
    requires
        values_bounded(a),
        values_bounded(b),
    ensures
        common_keyed(a, b).len() <= a.len(),
        common_keyed(a, b).len() <= b.len(),
        pairs_bounded(common_keyed(a, b)),
    decreases a.len() + b.len(),
{
    if a.len() == 0 || b.len() == 0 {
    } else {
        let a0 = a.drop_last();
        let b0 = b.drop_last();
        assert(values_bounded(a0)) by {
            assert forall|i: int| 0 <= i < a0.len() implies -dev_bound() <= (#[trigger] a0[i]).1 <= dev_bound() by {
                assert(a0[i] == a[i]);
            }
        }
        assert(values_bounded(b0)) by {
            assert forall|i: int| 0 <= i < b0.len() implies -dev_bound() <= (#[trigger] b0[i]).1 <= dev_bound() by {
                assert(b0[i] == b[i]);
            }
        }
        if a.last().0 > b.last().0 {
            lemma_common_keyed_props(a0, b);
        } else if a.last().0 < b.last().0 {
            lemma_common_keyed_props(a, b0);
        } else {
            lemma_common_keyed_props(a0, b0);
            assert(a[a.len() - 1] == a.last());
            assert(b[b.len() - 1] == b.last());
            let r = common_keyed(a, b);
            assert forall|i: int| 0 <= i < r.len() implies -dev_bound() <= (#[trigger] r[i]).0 <= dev_bound()
                && -dev_bound() <= r[i].1 <= dev_bound() by {
                if i < r.len() - 1 {
                    assert(r[i] == common_keyed(a0, b0)[i]);
                }
            }
        }
    }
}

/// Bounds of the deviation sums.
proof fn lemma_dev_sum_bounds(s: Seq<(i64, i64)>)
    requires
        pairs_bounded(s),
    ensures
        -(s.len() * (dev_bound() * dev_bound())) <= dev_xy(s) <= s.len() * (dev_bound() * dev_bound()),
        0 <= dev_xx(s) <= s.len() * (dev_bound() * dev_bound()),
        0 <= dev_yy(s) <= s.len() * (dev_bound() * dev_bound()),
    decreases s.len(),
{
    if s.len() > 0 {
        let s0 = s.drop_last();
        assert(pairs_bounded(s0)) by {
            assert forall|i: int| 0 <= i < s0.len() implies -dev_bound() <= (#[trigger] s0[i]).0 <= dev_bound()
                && -dev_bound() <= s0[i].1 <= dev_bound() by {
                assert(s0[i] == s[i]);
            }
        }
        lemma_dev_sum_bounds(s0);
        let x = s.last().0 as int;
        let y = s.last().1 as int;
        assert(s[s.len() - 1] == s.last());
        let bb = dev_bound() * dev_bound();
        assert(-bb <= x * y <= bb && 0 <= x * x <= bb && 0 <= y * y <= bb) by (nonlinear_arith)
            requires
                -255000 <= x <= 255000,
                -255000 <= y <= 255000,
                bb == 255000 * 255000,
        ;
        assert(s.len() * bb == s0.len() * bb + bb) by (nonlinear_arith)
            requires
                s.len() == s0.len() + 1,
        ;
    }
}

/// A held deviation is the exact one rounded away from zero to a multiple of
/// `1 / DEVIATION_SCALE`: with `n` ratings and `e = n·x - Σ` (so that the
/// exact deviation is `e / n`), the held value `d` has the sign of `e`, is
/// zero exactly when `e` is, and `d / DEVIATION_SCALE` lies less than
/// `1 / DEVIATION_SCALE` from `e / n`.
pub proof fn lemma_deviation_faithful(s: Seq<(u64, u8)>, x: u8)
    requires
        valid_ratings(s),
        s.len() > 0,
    ensures
        (deviation(s, x) == 0) == (scaled_deviation(s, x) == 0),
        (deviation(s, x) > 0) == (scaled_deviation(s, x) > 0),
        scaled_deviation(s, x) >= 0 ==> scaled_deviation(s, x) * DEVIATION_SCALE <= deviation(s, x)
            * s.len() < scaled_deviation(s, x) * DEVIATION_SCALE + s.len(),
        scaled_deviation(s, x) < 0 ==> scaled_deviation(s, x) * DEVIATION_SCALE - s.len() < deviation(
            s,
            x,
        ) * s.len() <= scaled_deviation(s, x) * DEVIATION_SCALE,
        -dev_bound() <= deviation(s, x) <= dev_bound(),
{
    lemma_rating_sum_bounds(s);
    lemma_deviation_bounds(s, x);
    let n = s.len() as int;
    let e = scaled_deviation(s, x);
    assert(0 <= n * x <= 255 * n) by (nonlinear_arith)
        requires
            0 <= x <= 255,
            n > 0,
    ;
    let a = e * 1000;
    if a >= 0 {
        lemma_ceil_div_bound(a, n);
    } else {
        lemma_ceil_div_bound(-a, n);
        let q = (-a + n - 1) / n;
        assert(-(q * n) == (-q) * n) by (nonlinear_arith);
    }
}

/// Sums of squares are never negative.
proof fn lemma_dev_squares_nonneg(s: Seq<(i64, i64)>)
    ensures
        dev_xx(s) >= 0,
        dev_yy(s) >= 0,
    decreases s.len(),
{
    if s.len() > 0 {
        lemma_dev_squares_nonneg(s.drop_last());
        let x = s.last().0 as int;
        let y = s.last().1 as int;
        assert(x * x >= 0 && y * y >= 0) by (nonlinear_arith);
    }
}

/// Pairs whose two sides agree have all three sums equal.
proof fn lemma_equal_pair_sums(s: Seq<(i64, i64)>)
    requires
        forall|i: int| 0 <= i < s.len() ==> (#[trigger] s[i]).0 == s[i].1,
    ensures
        dev_xy(s) == dev_xx(s),
        dev_xx(s) == dev_yy(s),
    decreases s.len(),
{
    if s.len() > 0 {
        let s0 = s.drop_last();
        assert forall|i: int| 0 <= i < s0.len() implies (#[trigger] s0[i]).0 == s0[i].1 by {
            assert(s0[i] == s[i]);
        }
        lemma_equal_pair_sums(s0);
        assert(s[s.len() - 1] == s.last());
    }
}

/// An item against itself: both deviations of every rater agree, and the sum
/// of squares is positive once one rater's deviation is nonzero.
proof fn lemma_self_raters(c: Seq<UserRatings>, item: u64, u: int)
    requires
        forall|i: int| 0 <= i < c.len() ==> (#[trigger] c[i]).ratings.wf(),
        0 <= u < c.len(),
        lookup(c[u].ratings@, item) matches Some(x) && scaled_deviation(c[u].ratings@, x) != 0,
    ensures
        forall|i: int|
            0 <= i < common_raters(c, item, item).len() ==> (#[trigger] common_raters(c, item, item)[i]).0
                == common_raters(c, item, item)[i].1,
        dev_xx(common_raters(c, item, item)) > 0,
    decreases c.len(),
{
    let c0 = c.drop_last();
    let r = common_raters(c, item, item);
    let last = c.last().ratings@;
    assert(c[c.len() - 1] == c.last());
    assert(c.last().ratings.wf());
    if u < c.len() - 1 {
        assert(c0[u] == c[u]);
        assert forall|i: int| 0 <= i < c0.len() implies (#[trigger] c0[i]).ratings.wf() by {
            assert(c0[i] == c[i]);
        }
        lemma_self_raters(c0, item, u);
    } else {
        lemma_self_raters_agree(c0, item);
        lemma_dev_squares_nonneg(common_raters(c0, item, item));
    }
    let r0 = common_raters(c0, item, item);
    if let Some(x) = lookup(last, item) {
        let w = choose|w: int| 0 <= w < last.len() && last[w].0 == item;
        lemma_deviation_faithful(last, x);
        let d = deviation(last, x);
        assert(r == r0.push((d as i64, d as i64)));
        assert(r.drop_last() == r0);
        assert(d * d >= 0) by (nonlinear_arith);
        if u == c.len() - 1 {
            assert(d * d > 0) by (nonlinear_arith)
                requires
                    d != 0,
            ;
        }
        assert forall|i: int| 0 <= i < r.len() implies (#[trigger] r[i]).0 == r[i].1 by {
            if i < r0.len() {
                assert(r[i] == r0[i]);
            }
        }
    }
}

proof fn lemma_self_raters_agree(c: Seq<UserRatings>, item: u64)
    ensures
        forall|i: int|
            0 <= i < common_raters(c, item, item).len() ==> (#[trigger] common_raters(c, item, item)[i]).0
                == common_raters(c, item, item)[i].1,
    decreases c.len(),
{
    if c.len() > 0 {
        lemma_self_raters_agree(c.drop_last(), item);
        let r = common_raters(c, item, item);
        let r0 = common_raters(c.drop_last(), item, item);
        assert forall|i: int| 0 <= i < r.len() implies (#[trigger] r[i]).0 == r[i].1 by {
            if i < r0.len() {
                assert(r[i] == r0[i]);
            }
        }
    }
}

/// An item's similarity with itself is exactly 1 as soon as one of its raters
/// gave it a rating that differs from that rater's own mean.
pub proof fn lemma_self_similarity_is_one(c: Seq<UserRatings>, item: u64, u: int)
    requires
        forall|i: int| 0 <= i < c.len() ==> (#[trigger] c[i]).ratings.wf(),
        c.len() <= MAX_USERS,
        0 <= u < c.len(),
        lookup(c[u].ratings@, item) matches Some(x) && scaled_deviation(c[u].ratings@, x) != 0,
    ensures
        adjusted_cosine(c, item, item) matches Some(s) && !s.neg && s.num == s.den && s.den > 0,
{
    lemma_self_raters(c, item, u);
    let r = common_raters(c, item, item);
    lemma_equal_pair_sums(r);
    lemma_common_raters(c, item, item);
    lemma_raters_props(c, item);
    lemma_common_keyed_props(raters(c, item), raters(c, item));
    lemma_dev_sum_bounds(r);
    let bb = dev_bound() * dev_bound();
    assert(dev_bound() == 255000);
    assert(bb == 65025000000) by (nonlinear_arith)
        requires
            bb == dev_bound() * dev_bound(),
            dev_bound() == 255000,
    ;
    lemma_mul_bound(r.len() as int, bb, MAX_USERS as int, bb);
    let v = dev_xx(r);
    assert(0 < v <= 0x4000_0000_0000_0000);
    lemma_mul_bound(v, v, 0x4000_0000_0000_0000, 0x4000_0000_0000_0000);
    assert(v * v > 0) by (nonlinear_arith)
        requires
            v > 0,
    ;
}

/// No user rated both items: no common raters.
proof fn lemma_no_common_raters(c: Seq<UserRatings>, a: u64, b: u64)
    requires
        forall|u: int|
            0 <= u < c.len() ==> !((#[trigger] lookup(c[u].ratings@, a)) is Some && lookup(c[u].ratings@, b) is Some),
    ensures
        common_raters(c, a, b).len() == 0,
    decreases c.len(),
{
    if c.len() > 0 {
        let c0 = c.drop_last();
        assert forall|u: int|
            0 <= u < c0.len() implies !((#[trigger] lookup(c0[u].ratings@, a)) is Some && lookup(c0[u].ratings@, b) is Some) by {
            assert(c0[u] == c[u]);
        }
        lemma_no_common_raters(c0, a, b);
        assert(c[c.len() - 1] == c.last());
        assert(lookup(c[c.len() - 1].ratings@, a) is Some ==> lookup(c[c.len() - 1].ratings@, b) is None);
    }
}

/// Two items that no user rated both have no similarity, in either order:
/// undefined, never zero.
pub proof fn lemma_no_common_rater_undefined(c: Seq<UserRatings>, a: u64, b: u64)
    requires
        forall|u: int|
            0 <= u < c.len() ==> !((#[trigger] lookup(c[u].ratings@, a)) is Some && lookup(c[u].ratings@, b) is Some),
    ensures
        adjusted_cosine(c, a, b) is None,
        adjusted_cosine(c, b, a) is None,
{
    lemma_no_common_raters(c, a, b);
    assert forall|u: int|
        0 <= u < c.len() implies !((#[trigger] lookup(c[u].ratings@, b)) is Some && lookup(c[u].ratings@, a) is Some) by {
        assert(!(lookup(c[u].ratings@, a) is Some && lookup(c[u].ratings@, b) is Some));
    }
    lemma_no_common_raters(c, b, a);
}

/// The sums `Σ x·y`, `Σ x²`, `Σ y²` over the common keys of `a` and `b`,
/// found by walking both from their ends.
fn deviation_sums(a: &Vec<(u64, i64)>, b: &Vec<(u64, i64)>) -> (r: (i128, i128, i128))
    requires
        values_bounded(a@),
        values_bounded(b@),
        a@.len() <= MAX_USERS,
        b@.len() <= MAX_USERS,
    ensures
        r.0 == dev_xy(common_keyed(a@, b@)),
        r.1 == dev_xx(common_keyed(a@, b@)),
        r.2 == dev_yy(common_keyed(a@, b@)),
{
    let ghost total = common_keyed(a@, b@);
    let ghost bb: int = dev_bound() * dev_bound();
    let ghost lim: int = MAX_USERS as int * bb;
    proof {
        assert(a@.take(a@.len() as int) =~= a@);
        assert(b@.take(b@.len() as int) =~= b@);
        lemma_common_keyed_props(a@, b@);
        lemma_dev_sum_bounds(total);
        lemma_mul_bound(total.len() as int, bb, MAX_USERS as int, bb);
    }
    let mut i: usize = a.len();
    let mut j: usize = b.len();
    let mut xy: i128 = 0;
    let mut xx: i128 = 0;
    let mut yy: i128 = 0;
    while i > 0 && j > 0
        invariant
            i <= a@.len() <= MAX_USERS,
            j <= b@.len() <= MAX_USERS,
            values_bounded(a@),
            values_bounded(b@),
            bb == dev_bound() * dev_bound(),
            lim == MAX_USERS as int * bb,
            total == common_keyed(a@, b@),
            -lim <= dev_xy(total) <= lim,
            0 <= dev_xx(total) <= lim,
            0 <= dev_yy(total) <= lim,
            dev_xy(total) == xy + dev_xy(common_keyed(a@.take(i as int), b@.take(j as int))),
            dev_xx(total) == xx + dev_xx(common_keyed(a@.take(i as int), b@.take(j as int))),
            dev_yy(total) == yy + dev_yy(common_keyed(a@.take(i as int), b@.take(j as int))),
        decreases i + j,
    {
        let ghost ai = a@.take(i as int);
        let ghost bj = b@.take(j as int);
        proof {
            assert(ai.drop_last() =~= a@.take(i - 1));
            assert(bj.drop_last() =~= b@.take(j - 1));
            assert(ai.last() == a@[i - 1]);
            assert(bj.last() == b@[j - 1]);
        }
        let (ka, va) = a[i - 1];
        let (kb, vb) = b[j - 1];
        if ka > kb {
            i = i - 1;
        } else if ka < kb {
            j = j - 1;
        } else {
            proof {
                let rest = common_keyed(a@.take(i - 1), b@.take(j - 1));
                assert(values_bounded(a@.take(i - 1))) by {
                    assert forall|p: int| 0 <= p < a@.take(i - 1).len() implies -dev_bound() <= (#[trigger] a@.take(i - 1)[p]).1 <= dev_bound() by {
                        assert(a@.take(i - 1)[p] == a@[p]);
                    }
                }
                assert(values_bounded(b@.take(j - 1))) by {
                    assert forall|p: int| 0 <= p < b@.take(j - 1).len() implies -dev_bound() <= (#[trigger] b@.take(j - 1)[p]).1 <= dev_bound() by {
                        assert(b@.take(j - 1)[p] == b@[p]);
                    }
                }
                lemma_common_keyed_props(a@.take(i - 1), b@.take(j - 1));
                lemma_dev_sum_bounds(rest);
                lemma_mul_bound(rest.len() as int, bb, MAX_USERS as int, bb);
                assert(a@[i - 1].1 == va && b@[j - 1].1 == vb);
                assert(common_keyed(ai, bj) == rest.push((va, vb)));
                assert(rest.push((va, vb)).drop_last() =~= rest);
                assert(-bb <= va * vb <= bb && 0 <= va * va <= bb && 0 <= vb * vb <= bb) by (nonlinear_arith)
                    requires
                        -255000 <= va <= 255000,
                        -255000 <= vb <= 255000,
                        bb == 255000 * 255000,
                ;
            }
            xy = xy + (va as i128) * (vb as i128);
            xx = xx + (va as i128) * (va as i128);
            yy = yy + (vb as i128) * (vb as i128);
            i = i - 1;
            j = j - 1;
        }
    }
    proof {
        assert(common_keyed(a@.take(i as int), b@.take(j as int)) =~= Seq::<(i64, i64)>::empty());
    }
    (xy, xx, yy)
}


/// The sorted union of the items of `order` and those rated in `r`.
pub(crate) fn merge_items(order: &Vec<u64>, r: &RatingVector) -> (out: Vec<u64>)
    requires
        strictly_sorted(order@),
        r.wf(),
    ensures
        strictly_sorted(out@),
        forall|x: u64| #[trigger] out@.contains(x) <==> (order@.contains(x) || lookup(r@, x) is Some),
{
    let o = order;
    let e = &r.entries;
    let mut out: Vec<u64> = Vec::new();
    let mut i: usize = 0;
    let mut j: usize = 0;
    while i < o.len() || j < e.len()
        invariant
            strictly_sorted(o@),
            sorted_ids(e@),
            e@ == r@,
            i <= o@.len(),
            j <= e@.len(),
            strictly_sorted(out@),
            forall|m: int| 0 <= m < out@.len() ==> (i < o@.len() ==> #[trigger] out@[m] < o@[i as int]),
            forall|m: int| 0 <= m < out@.len() ==> (j < e@.len() ==> #[trigger] out@[m] < e@[j as int].0),
            forall|m: int|
                0 <= m < out@.len() ==> (exists|p: int| 0 <= p < i && o@[p] == #[trigger] out@[m]) || (exists|q: int|
                    0 <= q < j && e@[q].0 == out@[m]),
            forall|p: int| 0 <= p < i ==> out@.contains(#[trigger] o@[p]),
            forall|q: int| 0 <= q < j ==> out@.contains(#[trigger] e@[q].0),
        decreases o@.len() + e@.len() - i - j,
    {
        let ghost before = out@;
        let from_order = j == e.len() || (i < o.len() && o[i] <= e[j].0);
        let both = i < o.len() && j < e.len() && o[i] == e[j].0;
        let v = if from_order {
            o[i]
        } else {
            e[j].0
        };
        out.push(v);
        proof {
            assert forall|m: int| 0 <= m < out@.len() implies #[trigger] out@[m] == (if m < before.len() { before[m] } else { v }) by {}
            if from_order {
                assert(o@[i as int] == v);
            } else {
                assert(e@[j as int].0 == v);
            }
            lemma_contains_last(before, v);
        }
        if from_order {
            i = i + 1;
        }
        if !from_order || both {
            j = j + 1;
        }
        proof {
            assert forall|m: int| 0 <= m < out@.len() && i < o@.len() implies #[trigger] out@[m] < o@[i as int] by {
                if m < before.len() && from_order {
                    assert(before[m] < o@[i - 1]);
                }
            }
            assert forall|m: int| 0 <= m < out@.len() && j < e@.len() implies #[trigger] out@[m] < e@[j as int].0 by {
                if m < before.len() && (!from_order || both) {
                    assert(before[m] < e@[j - 1].0);
                }
            }
            assert forall|m: int|
                0 <= m < out@.len() implies (exists|p: int| 0 <= p < i && o@[p] == #[trigger] out@[m]) || (exists|q: int|
                    0 <= q < j && e@[q].0 == out@[m]) by {
                if m < before.len() {
                    assert(out@[m] == before[m]);
                } else if from_order {
                    assert(o@[i - 1] == out@[m]);
                } else {
                    assert(e@[j - 1].0 == out@[m]);
                }
            }
            assert forall|p: int| 0 <= p < i implies out@.contains(#[trigger] o@[p]) by {
                if p < i - 1 || !from_order {
                    assert(before.contains(o@[p]));
                }
            }
            assert forall|q: int| 0 <= q < j implies out@.contains(#[trigger] e@[q].0) by {
                if both && q == j - 1 {
                } else if q < j - 1 || from_order {
                    assert(before.contains(e@[q].0));
                }
            }
        }
    }
    proof {
        assert forall|x: u64| #[trigger] out@.contains(x) <==> (o@.contains(x) || lookup(r@, x) is Some) by {
            if out@.contains(x) {
                let m = choose|m: int| 0 <= m < out@.len() && out@[m] == x;
                if exists|p: int| 0 <= p < i && o@[p] == out@[m] {
                    let p = choose|p: int| 0 <= p < i && o@[p] == out@[m];
                    assert(o@.contains(o@[p]));
                } else {
                    let q = choose|q: int| 0 <= q < j && e@[q].0 == out@[m];
                    assert(exists|q: int| 0 <= q < r@.len() && r@[q].0 == x);
                }
            }
            if o@.contains(x) {
                let p = choose|p: int| 0 <= p < o@.len() && o@[p] == x;
                assert(out@.contains(o@[p]));
            }
            if lookup(r@, x) is Some {
                let q = choose|q: int| 0 <= q < r@.len() && r@[q].0 == x;
                assert(out@.contains(e@[q].0));
            }
        }
    }
    out
}

/// What a sequence holds after a push.
proof fn lemma_contains_last<T>(s: Seq<T>, v: T)
    ensures
        forall|x: T| #[trigger] s.push(v).contains(x) <==> (s.contains(x) || x == v),
{
    assert forall|x: T| #[trigger] s.push(v).contains(x) <==> (s.contains(x) || x == v) by {
        if s.push(v).contains(x) {
            let i = choose|i: int| 0 <= i < s.push(v).len() && s.push(v)[i] == x;
            if i < s.len() {
                assert(s[i] == x);
            }
        }
        if s.contains(x) {
            let i = choose|i: int| 0 <= i < s.len() && s[i] == x;
            assert(s.push(v)[i] == x);
        }
        if x == v {
            assert(s.push(v)[s.len() as int] == x);
        }
    }
}

/// Every item that some user of `ratings` rated, in increasing id order.
fn collect_items(ratings: &Vec<UserRatings>) -> (order: Vec<u64>)
    requires
        forall|i: int| 0 <= i < ratings@.len() ==> (#[trigger] ratings@[i]).ratings.wf(),
    ensures
        strictly_sorted(order@),
        forall|x: u64| #[trigger] order@.contains(x) <==> rated_in(ratings@, x),
{
    let mut order: Vec<u64> = Vec::new();
    let mut u: usize = 0;
    while u < ratings.len()
        invariant
            u <= ratings@.len(),
            forall|i: int| 0 <= i < ratings@.len() ==> (#[trigger] ratings@[i]).ratings.wf(),
            strictly_sorted(order@),
            forall|x: u64| #[trigger] order@.contains(x) <==> rated_in(ratings@.take(u as int), x),
        decreases ratings@.len() - u,
    {
        assert(ratings@[u as int].ratings.wf());
        let next = merge_items(&order, &ratings[u].ratings);
        proof {
            let pre = ratings@.take(u as int);
            let post = ratings@.take(u + 1);
            assert forall|x: u64| #[trigger] next@.contains(x) <==> rated_in(post, x) by {
                if rated_in(post, x) {
                    let w = choose|w: int| 0 <= w < post.len() && (#[trigger] lookup(post[w].ratings@, x)) is Some;
                    if w < u {
                        assert(pre[w] == post[w]);
                        assert(rated_in(pre, x));
                    }
                }
                if rated_in(pre, x) {
                    let w = choose|w: int| 0 <= w < pre.len() && (#[trigger] lookup(pre[w].ratings@, x)) is Some;
                    assert(pre[w] == post[w]);
                }
                if lookup(ratings@[u as int].ratings@, x) is Some {
                    assert(post[u as int] == ratings@[u as int]);
                }
            }
        }
        order = next;
        u = u + 1;
    }
    proof {
        assert(ratings@.take(ratings@.len() as int) =~= ratings@);
    }
    order
}

/// Σ of the ratings of one user.
fn rating_total(r: &RatingVector) -> (t: u64)
    requires
        r.wf(),
    ensures
        t == rating_sum(r@),
        t <= 255 * r@.len(),
{
    let mut t: u64 = 0;
    let mut i: usize = 0;
    while i < r.entries.len()
        invariant
            i <= r@.len() <= MAX_RATED,
            r.entries@ == r@,
            t == rating_sum(r@.take(i as int)),
            t <= 255 * i,
        decreases r@.len() - i,
    {
        proof {
            assert(r@.take(i + 1).drop_last() =~= r@.take(i as int));
        }
        t = t + r.entries[i].1 as u64;
        i = i + 1;
    }
    proof {
        assert(r@.take(r@.len() as int) =~= r@);
    }
    t
}

/// The deviation of rating `x` of a user with `n` ratings summing to `total`.
fn deviation_of(n: usize, total: u64, x: u8) -> (d: i64)
    requires
        0 < n <= MAX_RATED,
        total <= 255 * n,
    ensures
        d == div_away_from_zero((n * x - total) * DEVIATION_SCALE, n as int),
{
    proof {
        lemma_mul_bound(n as int, x as int, MAX_RATED as int, 255);
    }
    let e: i64 = (n as i64) * (x as i64) - (total as i64);
    let a: i64 = e * DEVIATION_SCALE;
    if a >= 0 {
        (a + (n as i64) - 1) / (n as i64)
    } else {
        -((-a + (n as i64) - 1) / (n as i64))
    }
}

/// The raters of `item` in `ratings`, given each user's rating total.
fn item_raters(ratings: &Vec<UserRatings>, totals: &Vec<u64>, item: u64) -> (r: Vec<(u64, i64)>)
    requires
        forall|i: int| 0 <= i < ratings@.len() ==> (#[trigger] ratings@[i]).ratings.wf(),
        totals@.len() == ratings@.len(),
        forall|i: int| 0 <= i < ratings@.len() ==> #[trigger] totals@[i] == rating_sum(ratings@[i].ratings@),
    ensures
        r@ == raters(ratings@, item),
{
    let mut out: Vec<(u64, i64)> = Vec::new();
    let mut u: usize = 0;
    while u < ratings.len()
        invariant
            u <= ratings@.len(),
            forall|i: int| 0 <= i < ratings@.len() ==> (#[trigger] ratings@[i]).ratings.wf(),
            totals@.len() == ratings@.len(),
            forall|i: int| 0 <= i < ratings@.len() ==> #[trigger] totals@[i] == rating_sum(ratings@[i].ratings@),
            out@ == raters(ratings@.take(u as int), item),
        decreases ratings@.len() - u,
    {
        let user = &ratings[u];
        proof {
            assert(ratings@.take(u + 1).drop_last() =~= ratings@.take(u as int));
            assert(ratings@[u as int].ratings.wf());
            assert(totals@[u as int] == rating_sum(ratings@[u as int].ratings@));
            lemma_rating_sum_bounds(user.ratings@);
        }
        match user.ratings.get(item) {
            Some(x) => {
                proof {
                    let w = choose|w: int| 0 <= w < user.ratings@.len() && user.ratings@[w].0 == item;
                    lemma_deviation_bounds(user.ratings@, x);
                }
                let d = deviation_of(user.ratings.len(), totals[u], x);
                out.push((u as u64, d));
            },
            None => {},
        }
        u = u + 1;
    }
    proof {
        assert(ratings@.take(ratings@.len() as int) =~= ratings@);
    }
    out
}

/// The item ordering and the adjusted-cosine similarity of every pair of
/// items rated in `ratings`. Items are ordered by increasing id; cell
/// `[i][j]` with `i <= j` holds the similarity of items `i` and `j` (`None`
/// where undefined), cells below the diagonal hold `None` and are not read.
/// The similarity is computed exactly from deviations held to a thousandth
/// of a rating unit, rounded away from zero (see `lemma_deviation_faithful`),
/// so a cell is defined wherever some common rater deviates from its mean.
pub fn get_similarity_matrix(ratings: &Vec<UserRatings>) -> (r: (Vec<u64>, Vec<Vec<Option<Score>>>))
    requires
        forall|i: int| 0 <= i < ratings@.len() ==> (#[trigger] ratings@[i]).ratings.wf(),
        ratings@.len() <= MAX_USERS,
    ensures
        strictly_sorted(r.0@),
        forall|x: u64| #[trigger] r.0@.contains(x) <==> rated_in(ratings@, x),
        r.1@.len() == r.0@.len(),
        forall|i: int| 0 <= i < r.1@.len() ==> (#[trigger] r.1@[i])@.len() == r.0@.len(),
        forall|i: int, j: int|
            0 <= i <= j < r.0@.len() ==> (#[trigger] r.1@[i]@[j]) == adjusted_cosine(ratings@, r.0@[i], r.0@[j]),
        forall|i: int, j: int| 0 <= j < i < r.0@.len() ==> (#[trigger] r.1@[i]@[j]) is None,
        forall|i: int, j: int|
            0 <= i < r.0@.len() && 0 <= j < r.0@.len() ==> ((#[trigger] r.1@[i]@[j]) matches Some(s) ==> s.wf()),
{
    let order = collect_items(ratings);
    let mut totals: Vec<u64> = Vec::new();
    let mut u: usize = 0;
    while u < ratings.len()
        invariant
            u <= ratings@.len(),
            forall|i: int| 0 <= i < ratings@.len() ==> (#[trigger] ratings@[i]).ratings.wf(),
            totals@.len() == u,
            forall|i: int| 0 <= i < u ==> #[trigger] totals@[i] == rating_sum(ratings@[i].ratings@),
        decreases ratings@.len() - u,
    {
        assert(ratings@[u as int].ratings.wf());
        let t = rating_total(&ratings[u].ratings);
        totals.push(t);
        u = u + 1;
    }
    let mut lists: Vec<Vec<(u64, i64)>> = Vec::new();
    let mut p: usize = 0;
    while p < order.len()
        invariant
            p <= order@.len(),
            forall|i: int| 0 <= i < ratings@.len() ==> (#[trigger] ratings@[i]).ratings.wf(),
            totals@.len() == ratings@.len(),
            forall|i: int| 0 <= i < ratings@.len() ==> #[trigger] totals@[i] == rating_sum(ratings@[i].ratings@),
            lists@.len() == p,
            forall|i: int| 0 <= i < p ==> (#[trigger] lists@[i])@ == raters(ratings@, order@[i]),
        decreases order@.len() - p,
    {
        let l = item_raters(ratings, &totals, order[p]);
        lists.push(l);
        p = p + 1;
    }
    let n = order.len();
    let mut matrix: Vec<Vec<Option<Score>>> = Vec::new();
    let mut i: usize = 0;
    while i < n
        invariant
            n == order@.len(),
            i <= n,
            ratings@.len() <= MAX_USERS,
            forall|q: int| 0 <= q < ratings@.len() ==> (#[trigger] ratings@[q]).ratings.wf(),
            lists@.len() == n,
            forall|q: int| 0 <= q < n ==> (#[trigger] lists@[q])@ == raters(ratings@, order@[q]),
            matrix@.len() == i,
            forall|a: int| 0 <= a < i ==> (#[trigger] matrix@[a])@.len() == n,
            forall|a: int, b: int|
                0 <= a <= b < n && a < i ==> (#[trigger] matrix@[a]@[b]) == adjusted_cosine(ratings@, order@[a], order@[b]),
            forall|a: int, b: int| 0 <= b < a < i ==> (#[trigger] matrix@[a]@[b]) is None,
            forall|a: int, b: int| 0 <= a < i && 0 <= b < n ==> ((#[trigger] matrix@[a]@[b]) matches Some(s) ==> s.wf()),
        decreases n - i,
    {
        let mut row: Vec<Option<Score>> = Vec::new();
        let mut j: usize = 0;
        while j < i
            invariant
                j <= i,
                row@.len() == j,
                forall|b: int| 0 <= b < j ==> (#[trigger] row@[b]) is None,
            decreases i - j,
        {
            row.push(None);
            j = j + 1;
        }
        proof {
            lemma_raters_props(ratings@, order@[i as int]);
        }
        while j < n
            invariant
                n == order@.len(),
                i <= j <= n,
                i < n,
                ratings@.len() <= MAX_USERS,
                forall|q: int| 0 <= q < ratings@.len() ==> (#[trigger] ratings@[q]).ratings.wf(),
                lists@.len() == n,
                forall|q: int| 0 <= q < n ==> (#[trigger] lists@[q])@ == raters(ratings@, order@[q]),
                row@.len() == j,
                forall|b: int| 0 <= b < i ==> (#[trigger] row@[b]) is None,
                forall|b: int| i <= b < j ==> (#[trigger] row@[b]) == adjusted_cosine(ratings@, order@[i as int], order@[b]),
                forall|b: int| 0 <= b < j ==> ((#[trigger] row@[b]) matches Some(s) ==> s.wf()),
            decreases n - j,
        {
            proof {
                lemma_raters_props(ratings@, order@[i as int]);
                lemma_raters_props(ratings@, order@[j as int]);
                lemma_common_raters(ratings@, order@[i as int], order@[j as int]);
            }
            let (xy, xx, yy) = deviation_sums(&lists[i], &lists[j]);
            let cell = if xx > 0 && yy > 0 {
                proof {
                    let s = common_keyed(lists@[i as int]@, lists@[j as int]@);
                    lemma_common_keyed_props(lists@[i as int]@, lists@[j as int]@);
                    lemma_dev_sum_bounds(s);
                    let bb = dev_bound() * dev_bound();
                    lemma_mul_bound(s.len() as int, bb, MAX_USERS as int, bb);
                    let lim = MAX_USERS as int * bb;
                    assert(dev_bound() == 255000);
                    assert(bb == 65025000000) by (nonlinear_arith)
                        requires
                            bb == dev_bound() * dev_bound(),
                            dev_bound() == 255000,
                    ;
                    assert(lim == 1090938470400000000);
                    assert(-lim <= xy <= lim);
                    assert(-0x4000_0000_0000_0000 <= xy <= 0x4000_0000_0000_0000);
                    assert(0 < xx <= 0x4000_0000_0000_0000);
                    assert(0 < yy <= 0x4000_0000_0000_0000);
                }
                let mag: i128 = if xy < 0 {
                    -xy
                } else {
                    xy
                };
                proof {
                    lemma_mul_bound(mag as int, mag as int, 0x4000_0000_0000_0000, 0x4000_0000_0000_0000);
                    lemma_mul_bound(xx as int, yy as int, 0x4000_0000_0000_0000, 0x4000_0000_0000_0000);
                    assert(mag * mag == xy * xy) by (nonlinear_arith)
                        requires
                            mag == xy || mag == -xy,
                    ;
                    assert(xx * yy > 0) by (nonlinear_arith)
                        requires
                            xx > 0,
                            yy > 0,
                    ;
                }
                Some(Score { neg: xy < 0, num: (mag as u128) * (mag as u128), den: (xx as u128) * (yy as u128) })
            } else {
                None
            };
            row.push(cell);
            j = j + 1;
        }
        matrix.push(row);
        i = i + 1;
    }
    (order, matrix)
}

/// The largest of two cells, an absent one counting as negative infinity.
pub open spec fn cell_max(a: Option<Score>, b: Option<Score>) -> Option<Score> {
    match (a, b) {
        (None, _) => b,
        (_, None) => a,
        (Some(x), Some(y)) => if x.lt(y) {
            b
        } else {
            a
        },
    }
}

/// The position of `item` in `order`, if it is there.
pub open spec fn position_of(order: Seq<u64>, item: u64) -> Option<int> {
    if order.contains(item) {
        Some(choose|i: int| 0 <= i < order.len() && order[i] == item)
    } else {
        None
    }
}

/// Why a similarity lookup failed.
#[derive(Clone, Copy, Debug, PartialEq, Eq, Structural)]
pub enum LookupError {
    /// The first item is not in the ordering.
    FirstItemNotFound,
    /// The second item is not in the ordering.
    SecondItemNotFound,
}

/// The index of `item` in `order`, by linear scan.
fn find_position(order: &Vec<u64>, item: u64) -> (r: Option<usize>)
    requires
        strictly_sorted(order@),
    ensures
        r is Some <==> order@.contains(item),
        r matches Some(i) ==> i < order@.len() && order@[i as int] == item && position_of(order@, item) == Some(i as int),
{
    let mut i: usize = 0;
    while i < order.len()
        invariant
            i <= order@.len(),
            strictly_sorted(order@),
            forall|p: int| 0 <= p < i ==> order@[p] != item,
        decreases order@.len() - i,
    {
        if order[i] == item {
            proof {
                assert(order@.contains(order@[i as int]));
                let c = choose|c: int| 0 <= c < order@.len() && order@[c] == item;
                if c < i {
                } else if c > i {
                    assert(order@[i as int] < order@[c]);
                }
            }
            return Some(i);
        }
        i = i + 1;
    }
    None
}

/// The similarity of two items in a matrix built by `get_similarity_matrix`:
/// the larger of the two cells for the pair, so the order of the items does
/// not matter. `Ok(None)` where the similarity is undefined; an error where an
/// item is not in the ordering.
pub fn get_similarity_between(
    item_order: &Vec<u64>,
    similarity_matrix: &Vec<Vec<Option<Score>>>,
    first_item: u64,
    second_item: u64,
) -> (r: Result<Option<Score>, LookupError>)
    requires
        strictly_sorted(item_order@),
        similarity_matrix@.len() == item_order@.len(),
        forall|i: int| 0 <= i < similarity_matrix@.len() ==> (#[trigger] similarity_matrix@[i])@.len() == item_order@.len(),
        forall|i: int, j: int|
            0 <= i < item_order@.len() && 0 <= j < item_order@.len() ==> ((#[trigger] similarity_matrix@[i]@[j]) matches Some(s) ==> s.wf()),
    ensures
        !item_order@.contains(first_item) <==> r == Err::<Option<Score>, LookupError>(LookupError::FirstItemNotFound),
        item_order@.contains(first_item) && !item_order@.contains(second_item) <==> r == Err::<Option<Score>, LookupError>(LookupError::SecondItemNotFound),
        r matches Ok(v) ==> ({
            let i = position_of(item_order@, first_item)->0;
            let j = position_of(item_order@, second_item)->0;
            v == cell_max(similarity_matrix@[i]@[j], similarity_matrix@[j]@[i])
        }),
{
    let i = match find_position(item_order, first_item) {
        Some(i) => i,
        None => return Err(LookupError::FirstItemNotFound),
    };
    let j = match find_position(item_order, second_item) {
        Some(j) => j,
        None => return Err(LookupError::SecondItemNotFound),
    };
    let a = similarity_matrix[i][j];
    let b = similarity_matrix[j][i];
    match (a, b) {
        (None, _) => Ok(b),
        (_, None) => Ok(a),
        (Some(x), Some(y)) => {
            if x.compare(&y) < 0 {
                Ok(b)
            } else {
                Ok(a)
            }
        },
    }
}

} // verus!
