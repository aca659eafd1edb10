//! The metric library: distances and similarities between two rating vectors,
//! held as exact scores.

use vstd::prelude::*;
use crate::ratio::Score;
use crate::ratings::{common, common_ratings, swapped, RatingVector, MAX_RATED};

verus! {

/// The largest Minkowski grade: with ratings below 256 and at most
/// `MAX_RATED` common items, the sum of powers of this grade fits in 128 bits.
pub const MAX_GRADE: i32 = 12;

/// `b` to the power `e`.
pub open spec fn power(b: int, e: nat) -> int
    decreases e,
{
    if e == 0 {
        1
    } else {
        b * power(b, (e - 1) as nat)
    }
}

/// `|x - y|`.
pub open spec fn abs_diff(x: u8, y: u8) -> int {
    if x >= y {
        x - y
    } else {
        y - x
    }
}

/// Σ x over the pairs.
pub open spec fn sum_x(s: Seq<(u8, u8)>) -> int
    decreases s.len(),
{
    if s.len() == 0 {
        0
    } else {
        sum_x(s.drop_last()) + s.last().0
    }
}

/// Σ y over the pairs.
pub open spec fn sum_y(s: Seq<(u8, u8)>) -> int
    decreases s.len(),
{
    if s.len() == 0 {
        0
    } else {
        sum_y(s.drop_last()) + s.last().1
    }
}

/// Σ x·y over the pairs.
pub open spec fn sum_xy(s: Seq<(u8, u8)>) -> int
    decreases s.len(),
{
    if s.len() == 0 {
        0
    } else {
        sum_xy(s.drop_last()) + s.last().0 * s.last().1
    }
}

/// Σ x² over the pairs.
pub open spec fn sum_xx(s: Seq<(u8, u8)>) -> int
    decreases s.len(),
{
    if s.len() == 0 {
        0
    } else {
        sum_xx(s.drop_last()) + s.last().0 * s.last().0
    }
}

/// Σ y² over the pairs.
pub open spec fn sum_yy(s: Seq<(u8, u8)>) -> int
    decreases s.len(),
{
    if s.len() == 0 {
        0
    } else {
        sum_yy(s.drop_last()) + s.last().1 * s.last().1
    }
}

/// Σ |x - y|^p over the pairs.
pub open spec fn sum_pow_diff(s: Seq<(u8, u8)>, p: nat) -> int
    decreases s.len(),
{
    if s.len() == 0 {
        0
    } else {
        sum_pow_diff(s.drop_last(), p) + power(abs_diff(s.last().0, s.last().1), p)
    }
}

/// Whether a metric is better when smaller or when larger.
#[derive(Clone, Copy, Debug, PartialEq, Eq, Structural)]
pub enum Polarity {
    /// Smaller is better: a distance.
    Minimize,
    /// Larger is better: a similarity.
    Maximize,
}

/// The metrics that the engine can rank by.
#[derive(Clone, Copy, Debug, PartialEq, Eq, Structural)]
pub enum KNNMetric {
    Manhattan,
    Euclidean,
    Minkowski(i32),
    Pearson,
    Cosine,
    JaccardDistance,
    JaccardIndex,
}

/// A metric is usable when a Minkowski grade lies in `1..=MAX_GRADE`.
pub open spec fn metric_valid(m: KNNMetric) -> bool {
    match m {
        KNNMetric::Minkowski(g) => 1 <= g <= MAX_GRADE,
        _ => true,
    }
}

/// The polarity of each metric.
pub open spec fn polarity_of(m: KNNMetric) -> Polarity {
    match m {
        KNNMetric::Manhattan | KNNMetric::Euclidean | KNNMetric::Minkowski(_)
        | KNNMetric::JaccardDistance => Polarity::Minimize,
        KNNMetric::Pearson | KNNMetric::Cosine | KNNMetric::JaccardIndex => Polarity::Maximize,
    }
}

impl KNNMetric {
    /// The polarity of this metric.
    pub fn polarity(&self) -> (r: Polarity)
        ensures
            r == polarity_of(*self),
    {
        match self {
            KNNMetric::Manhattan | KNNMetric::Euclidean | KNNMetric::Minkowski(_)
            | KNNMetric::JaccardDistance => Polarity::Minimize,
            KNNMetric::Pearson | KNNMetric::Cosine | KNNMetric::JaccardIndex => Polarity::Maximize,
        }
    }
}

/// The Minkowski distance of grade `p`, raised to the power `p`:
/// `Σ |x - y|^p` over the common items. It orders pairs as the distance does;
/// the distance itself is its `p`-th root.
pub open spec fn minkowski_spec(a: Seq<(u64, u8)>, b: Seq<(u64, u8)>, p: nat) -> Score {
    Score { neg: false, num: sum_pow_diff(common(a, b), p) as u128, den: 1 }
}

/// The numerator of Pearson's correlation scaled by `n²`: `n Σxy - Σx Σy`.
pub open spec fn pearson_cov(s: Seq<(u8, u8)>) -> int {
    s.len() * sum_xy(s) - sum_x(s) * sum_y(s)
}

/// `n Σx² - (Σx)²`: `n²` times the variance of the first side.
pub open spec fn pearson_var_x(s: Seq<(u8, u8)>) -> int {
    s.len() * sum_xx(s) - sum_x(s) * sum_x(s)
}

/// `n Σy² - (Σy)²`: `n²` times the variance of the second side.
pub open spec fn pearson_var_y(s: Seq<(u8, u8)>) -> int {
    s.len() * sum_yy(s) - sum_y(s) * sum_y(s)
}

/// Pearson's correlation `r` over the common items, held as `sign(r) · r²`
/// exactly; undefined where either side has no variance there.
pub open spec fn pearson_spec(a: Seq<(u64, u8)>, b: Seq<(u64, u8)>) -> Option<Score> {
    let s = common(a, b);
    let c = pearson_cov(s);
    if pearson_var_x(s) > 0 && pearson_var_y(s) > 0 {
        Some(
            Score {
                neg: c < 0,
                num: (c * c) as u128,
                den: (pearson_var_x(s) * pearson_var_y(s)) as u128,
            },
        )
    } else {
        None
    }
}

/// Cosine similarity over the common items, norms taken over those items too,
/// held as its square; undefined where either norm is zero.
pub open spec fn cosine_spec(a: Seq<(u64, u8)>, b: Seq<(u64, u8)>) -> Option<Score> {
    let s = common(a, b);
    if sum_xx(s) > 0 && sum_yy(s) > 0 {
        Some(
            Score {
                neg: false,
                num: (sum_xy(s) * sum_xy(s)) as u128,
                den: (sum_xx(s) * sum_yy(s)) as u128,
            },
        )
    } else {
        None
    }
}

/// `|a ∪ b|` counted as `|a| + |b| - |a ∩ b|`.
pub open spec fn union_size(a: Seq<(u64, u8)>, b: Seq<(u64, u8)>) -> int {
    a.len() + b.len() - common(a, b).len()
}

/// `|a ∩ b| / |a ∪ b|`; undefined when both are empty.
pub open spec fn jaccard_index_spec(a: Seq<(u64, u8)>, b: Seq<(u64, u8)>) -> Option<Score> {
    if union_size(a, b) > 0 {
        Some(Score { neg: false, num: common(a, b).len() as u128, den: union_size(a, b) as u128 })
    } else {
        None
    }
}

/// `1 - |a ∩ b| / |a ∪ b|`; undefined when both are empty.
pub open spec fn jaccard_distance_spec(a: Seq<(u64, u8)>, b: Seq<(u64, u8)>) -> Option<Score> {
    if union_size(a, b) > 0 {
        Some(
            Score {
                neg: false,
                num: (union_size(a, b) - common(a, b).len()) as u128,
                den: union_size(a, b) as u128,
            },
        )
    } else {
        None
    }
}

/// The score of `b` against `a` under `m`; `None` where it is undefined.
pub open spec fn score_spec(m: KNNMetric, a: Seq<(u64, u8)>, b: Seq<(u64, u8)>) -> Option<Score> {
    match m {
        KNNMetric::Manhattan => Some(minkowski_spec(a, b, 1)),
        KNNMetric::Euclidean => Some(minkowski_spec(a, b, 2)),
        KNNMetric::Minkowski(g) => Some(minkowski_spec(a, b, g as nat)),
        KNNMetric::Pearson => pearson_spec(a, b),
        KNNMetric::Cosine => cosine_spec(a, b),
        KNNMetric::JaccardDistance => jaccard_distance_spec(a, b),
        KNNMetric::JaccardIndex => jaccard_index_spec(a, b),
    }
}


/// Both sides of a common pair come from the vectors: there are no more
/// common items than either vector has.
pub proof fn lemma_common_len(a: Seq<(u64, u8)>, b: Seq<(u64, u8)>)
    ensures
        common(a, b).len() <= a.len(),
        common(a, b).len() <= b.len(),
    decreases a.len() + b.len(),
{
    if a.len() == 0 || b.len() == 0 {
    } else if a.last().0 > b.last().0 {
        lemma_common_len(a.drop_last(), b);
    } else if a.last().0 < b.last().0 {
        lemma_common_len(a, b.drop_last());
    } else {
        lemma_common_len(a.drop_last(), b.drop_last());
    }
}

/// Bounds of the sums over `n` pairs of ratings below 256.
pub proof fn lemma_sum_bounds(s: Seq<(u8, u8)>)
    ensures
        0 <= sum_x(s) <= 255 * s.len(),
        0 <= sum_y(s) <= 255 * s.len(),
        0 <= sum_xy(s) <= 65025 * s.len(),
        0 <= sum_xx(s) <= 65025 * s.len(),
        0 <= sum_yy(s) <= 65025 * s.len(),
    decreases s.len(),
{
    if s.len() > 0 {
        lemma_sum_bounds(s.drop_last());
        let x = s.last().0;
        let y = s.last().1;
        assert(0 <= x * y <= 65025 && 0 <= x * x <= 65025 && 0 <= y * y <= 65025)
            by (nonlinear_arith)
            requires
                0 <= x <= 255,
                0 <= y <= 255,
        ;
    }
}

/// `0 <= a * b <= A * B` for `0 <= a <= A` and `0 <= b <= B`.
pub proof fn lemma_mul_bound(a: int, b: int, bound_a: int, bound_b: int)
    requires
        0 <= a <= bound_a,
        0 <= b <= bound_b,
    ensures
        0 <= a * b <= bound_a * bound_b,
{
    assert(0 <= a * b <= bound_a * bound_b) by (nonlinear_arith)
        requires
            0 <= a <= bound_a,
            0 <= b <= bound_b,
    ;
}

/// A power of a rating difference stays within 2^96 up to `MAX_GRADE`.
pub proof fn lemma_power_bound(b: int, e: nat)
    requires
        0 <= b <= 255,
        e <= 12,
    ensures
        0 <= power(b, e) <= power(256, e),
        power(256, e) <= 0x1_0000_0000_0000_0000_0000_0000,
    decreases e,
{
    if e > 0 {
        lemma_power_bound(b, (e - 1) as nat);
        lemma_mul_bound(b, power(b, (e - 1) as nat), 256, power(256, (e - 1) as nat));
        assert(power(256, e) == 256 * power(256, (e - 1) as nat));
    }
    lemma_power_monotone(e, 12);
    reveal_with_fuel(power, 13);
}

/// Powers of 256 grow with the exponent.
proof fn lemma_power_monotone(e1: nat, e2: nat)
    requires
        e1 <= e2,
    ensures
        1 <= power(256, e1) <= power(256, e2),
    decreases e2,
{
    if e2 > e1 {
        lemma_power_monotone(e1, (e2 - 1) as nat);
        assert(power(256, e2) == 256 * power(256, (e2 - 1) as nat));
    } else if e1 > 0 {
        lemma_power_monotone((e1 - 1) as nat, (e1 - 1) as nat);
        assert(power(256, e1) == 256 * power(256, (e1 - 1) as nat));
    }
}

proof fn lemma_take_step<T>(s: Seq<T>, i: int)
    requires
        0 <= i < s.len(),
    ensures
        s.take(i + 1).drop_last() == s.take(i),
        s.take(i + 1).last() == s[i],
        s.take(i + 1).len() == i + 1,
{
    assert(s.take(i + 1).drop_last() =~= s.take(i));
}

/// `d` to the power `p`.
fn pow_diff(d: u8, p: u32) -> (r: u128)
    requires
        p <= 12,
    ensures
        r == power(d as int, p as nat),
{
    let mut acc: u128 = 1;
    let mut j: u32 = 0;
    while j < p
        invariant
            j <= p <= 12,
            acc == power(d as int, j as nat),
        decreases p - j,
    {
        proof {
            lemma_power_bound(d as int, j as nat);
            lemma_power_bound(d as int, (j + 1) as nat);
            assert(power(d as int, (j + 1) as nat) == d * power(d as int, j as nat));
        }
        acc = (d as u128) * acc;
        j = j + 1;
    }
    acc
}

/// The five sums of Pearson's formula over the pairs, with their count.
fn pair_sums(s: &Vec<(u8, u8)>) -> (r: (u64, u64, u64, u64, u64))
    requires
        s@.len() <= MAX_RATED,
    ensures
        r.0 == sum_x(s@),
        r.1 == sum_y(s@),
        r.2 == sum_xy(s@),
        r.3 == sum_xx(s@),
        r.4 == sum_yy(s@),
{
    let mut sx: u64 = 0;
    let mut sy: u64 = 0;
    let mut sxy: u64 = 0;
    let mut sxx: u64 = 0;
    let mut syy: u64 = 0;
    let mut i: usize = 0;
    while i < s.len()
        invariant
            0 <= i <= s@.len() <= MAX_RATED,
            sx == sum_x(s@.take(i as int)),
            sy == sum_y(s@.take(i as int)),
            sxy == sum_xy(s@.take(i as int)),
            sxx == sum_xx(s@.take(i as int)),
            syy == sum_yy(s@.take(i as int)),
        decreases s@.len() - i,
    {
        let (x, y) = s[i];
        proof {
            lemma_take_step(s@, i as int);
            lemma_sum_bounds(s@.take(i as int + 1));
        }
        sx = sx + x as u64;
        sy = sy + y as u64;
        sxy = sxy + (x as u64) * (y as u64);
        sxx = sxx + (x as u64) * (x as u64);
        syy = syy + (y as u64) * (y as u64);
        i = i + 1;
    }
    proof {
        assert(s@.take(s@.len() as int) =~= s@);
    }
    (sx, sy, sxy, sxx, syy)
}

/// Σ |x - y|^p over the pairs.
fn pow_diff_sum(s: &Vec<(u8, u8)>, p: u32) -> (r: u128)
    requires
        s@.len() <= MAX_RATED,
        1 <= p <= 12,
    ensures
        r == sum_pow_diff(s@, p as nat),
{
    let mut acc: u128 = 0;
    let mut i: usize = 0;
    while i < s.len()
        invariant
            0 <= i <= s@.len() <= MAX_RATED,
            1 <= p <= 12,
            acc == sum_pow_diff(s@.take(i as int), p as nat),
            acc <= i * 0x1_0000_0000_0000_0000_0000_0000,
        decreases s@.len() - i,
    {
        let (x, y) = s[i];
        let d: u8 = if x >= y {
            x - y
        } else {
            y - x
        };
        let t = pow_diff(d, p);
        proof {
            lemma_take_step(s@, i as int);
            lemma_power_bound(d as int, p as nat);
        }
        acc = acc + t;
        i = i + 1;
    }
    proof {
        assert(s@.take(s@.len() as int) =~= s@);
    }
    acc
}

/// Every defined score is a fraction.
pub proof fn lemma_score_wf(m: KNNMetric, a: Seq<(u64, u8)>, b: Seq<(u64, u8)>)
    requires
        crate::ratings::valid_ratings(a),
        crate::ratings::valid_ratings(b),
        metric_valid(m),
    ensures
        score_spec(m, a, b) matches Some(s) ==> s.wf(),
{
    let s = common(a, b);
    lemma_common_len(a, b);
    lemma_sum_bounds(s);
    let n: int = MAX_RATED as int;
    if pearson_var_x(s) > 0 && pearson_var_y(s) > 0 {
        lemma_mul_bound(s.len() as int, sum_xx(s), n, 65025 * n);
        lemma_mul_bound(s.len() as int, sum_yy(s), n, 65025 * n);
        lemma_mul_bound(pearson_var_x(s), pearson_var_y(s), 65025 * n * n, 65025 * n * n);
        assert(pearson_var_x(s) * pearson_var_y(s) > 0) by (nonlinear_arith)
            requires
                pearson_var_x(s) > 0,
                pearson_var_y(s) > 0,
        ;
    }
    if sum_xx(s) > 0 && sum_yy(s) > 0 {
        lemma_mul_bound(sum_xx(s), sum_yy(s), 65025 * n, 65025 * n);
        assert(sum_xx(s) * sum_yy(s) > 0) by (nonlinear_arith)
            requires
                sum_xx(s) > 0,
                sum_yy(s) > 0,
        ;
    }
}

/// Minkowski of grade 1 is the Manhattan distance, of grade 2 the Euclidean.
pub proof fn lemma_minkowski_special_cases(a: Seq<(u64, u8)>, b: Seq<(u64, u8)>)
    ensures
        score_spec(KNNMetric::Minkowski(1), a, b) == score_spec(KNNMetric::Manhattan, a, b),
        score_spec(KNNMetric::Minkowski(2), a, b) == score_spec(KNNMetric::Euclidean, a, b),
{
}

/// The Jaccard index and the Jaccard distance of the same pair add up to
/// exactly one, and are defined for the same pairs.
pub proof fn lemma_jaccard_sum(a: Seq<(u64, u8)>, b: Seq<(u64, u8)>)
    requires
        crate::ratings::valid_ratings(a),
        crate::ratings::valid_ratings(b),
    ensures
        jaccard_index_spec(a, b) is Some <==> jaccard_distance_spec(a, b) is Some,
        jaccard_index_spec(a, b) matches Some(i) ==> jaccard_distance_spec(a, b) matches Some(d)
            && i.numer() * d.den + d.numer() * i.den == i.den * d.den,
{
    lemma_common_len(a, b);
    if union_size(a, b) > 0 {
        let i = jaccard_index_spec(a, b)->0;
        let d = jaccard_distance_spec(a, b)->0;
        let u = union_size(a, b);
        let c = common(a, b).len() as int;
        assert(i.numer() == c && d.numer() == u - c && i.den == u && d.den == u);
        assert(c * u + (u - c) * u == u * u) by (nonlinear_arith);
    }
}

proof fn lemma_sums_swapped(s: Seq<(u8, u8)>, p: nat)
    ensures
        swapped(s).len() == s.len(),
        sum_x(swapped(s)) == sum_y(s),
        sum_y(swapped(s)) == sum_x(s),
        sum_xy(swapped(s)) == sum_xy(s),
        sum_xx(swapped(s)) == sum_yy(s),
        sum_yy(swapped(s)) == sum_xx(s),
        sum_pow_diff(swapped(s), p) == sum_pow_diff(s, p),
    decreases s.len(),
{
    if s.len() > 0 {
        lemma_sums_swapped(s.drop_last(), p);
        assert(swapped(s).drop_last() =~= swapped(s.drop_last()));
        let x = s.last().0;
        let y = s.last().1;
        assert(x * y == y * x) by (nonlinear_arith);
    }
}

/// The Minkowski distance of any grade is symmetric.
pub proof fn lemma_minkowski_symmetric(a: Seq<(u64, u8)>, b: Seq<(u64, u8)>, p: nat)
    ensures
        minkowski_spec(a, b, p) == minkowski_spec(b, a, p),
{
    crate::ratings::lemma_common_symmetric(a, b);
    lemma_sums_swapped(common(a, b), p);
}

/// Every metric is symmetric: the score of `b` against `a` is the score of
/// `a` against `b`, defined or not.
pub proof fn lemma_score_symmetric(m: KNNMetric, a: Seq<(u64, u8)>, b: Seq<(u64, u8)>)
    ensures
        score_spec(m, a, b) == score_spec(m, b, a),
{
    crate::ratings::lemma_common_symmetric(a, b);
    let s = common(a, b);
    let p: nat = match m {
        KNNMetric::Minkowski(g) => g as nat,
        KNNMetric::Euclidean => 2,
        _ => 1,
    };
    lemma_sums_swapped(s, p);
    let n = s.len() as int;
    assert(sum_x(s) * sum_y(s) == sum_y(s) * sum_x(s)) by (nonlinear_arith);
    assert(pearson_var_x(s) * pearson_var_y(s) == pearson_var_y(s) * pearson_var_x(s))
        by (nonlinear_arith);
    assert(sum_xx(s) * sum_yy(s) == sum_yy(s) * sum_xx(s)) by (nonlinear_arith);
}

/// The metric functions. The engine holds no state.
pub struct Engine {}

impl Engine {
    pub fn new() -> (r: Engine) {
        Engine {  }
    }

    /// Manhattan distance: Minkowski of grade 1.
    pub fn manhattan_distance_between(&self, first: &RatingVector, second: &RatingVector) -> (r:
        Score)
        requires
            first.wf(),
            second.wf(),
        ensures
            r.wf(),
            r == minkowski_spec(first@, second@, 1),
    {
        self.minkowski_distance_between(first, second, 1)
    }

    /// Euclidean distance, squared: Minkowski of grade 2.
    pub fn euclidean_distance_between(&self, first: &RatingVector, second: &RatingVector) -> (r:
        Score)
        requires
            first.wf(),
            second.wf(),
        ensures
            r.wf(),
            r == minkowski_spec(first@, second@, 2),
    {
        self.minkowski_distance_between(first, second, 2)
    }

    /// Minkowski distance of grade `grade`, raised to that power.
    pub fn minkowski_distance_between(
        &self,
        first: &RatingVector,
        second: &RatingVector,
        grade: i32,
    ) -> (r: Score)
        requires
            first.wf(),
            second.wf(),
            1 <= grade <= MAX_GRADE,
        ensures
            r.wf(),
            r == minkowski_spec(first@, second@, grade as nat),
    {
        let pairs = common_ratings(first, second);
        proof {
            lemma_common_len(first@, second@);
        }
        let sum = pow_diff_sum(&pairs, grade as u32);
        Score { neg: false, num: sum, den: 1 }
    }

    /// Pearson's correlation over the common items, as `sign(r) · r²`;
    /// `None` where either side has no variance there.
    pub fn pearson_correlation_between(&self, first: &RatingVector, second: &RatingVector) -> (r:
        Option<Score>)
        requires
            first.wf(),
            second.wf(),
        ensures
            r == pearson_spec(first@, second@),
            r matches Some(sc) ==> sc.wf(),
    {
        let pairs = common_ratings(first, second);
        proof {
            lemma_common_len(first@, second@);
            lemma_sum_bounds(pairs@);
        }
        let (sx, sy, sxy, sxx, syy) = pair_sums(&pairs);
        let n = pairs.len() as i128;
        let sx = sx as i128;
        let sy = sy as i128;
        let sxy = sxy as i128;
        let sxx = sxx as i128;
        let syy = syy as i128;
        proof {
            let m: int = MAX_RATED as int;
            lemma_mul_bound(n as int, sxy as int, m, 65025 * m);
            lemma_mul_bound(n as int, sxx as int, m, 65025 * m);
            lemma_mul_bound(n as int, syy as int, m, 65025 * m);
            lemma_mul_bound(sx as int, sy as int, 255 * m, 255 * m);
            lemma_mul_bound(sx as int, sx as int, 255 * m, 255 * m);
            lemma_mul_bound(sy as int, sy as int, 255 * m, 255 * m);
        }
        let cov = n * sxy - sx * sy;
        let var_x = n * sxx - sx * sx;
        let var_y = n * syy - sy * sy;
        if var_x > 0 && var_y > 0 {
            let ghost m: int = MAX_RATED as int;
            let ghost bound: int = 65025 * m * m;
            let mag: i128 = if cov < 0 {
                -cov
            } else {
                cov
            };
            proof {
                lemma_mul_bound(mag as int, mag as int, bound, bound);
                lemma_mul_bound(var_x as int, var_y as int, bound, bound);
                assert(mag * mag == cov * cov) by (nonlinear_arith)
                    requires
                        mag == cov || mag == -cov,
                ;
                assert(var_x * var_y > 0) by (nonlinear_arith)
                    requires
                        var_x > 0,
                        var_y > 0,
                ;
            }
            let num = (mag as u128) * (mag as u128);
            let den = (var_x as u128) * (var_y as u128);
            Some(Score { neg: cov < 0, num, den })
        } else {
            None
        }
    }

    /// Cosine similarity over the common items, squared; `None` where either
    /// norm over those items is zero.
    pub fn cosine_similarity_between(&self, first: &RatingVector, second: &RatingVector) -> (r:
        Option<Score>)
        requires
            first.wf(),
            second.wf(),
        ensures
            r == cosine_spec(first@, second@),
            r matches Some(sc) ==> sc.wf(),
    {
        let pairs = common_ratings(first, second);
        proof {
            lemma_common_len(first@, second@);
            lemma_sum_bounds(pairs@);
        }
        let (_sx, _sy, sxy, sxx, syy) = pair_sums(&pairs);
        if sxx > 0 && syy > 0 {
            proof {
                let m: int = MAX_RATED as int;
                lemma_mul_bound(sxy as int, sxy as int, 65025 * m, 65025 * m);
                lemma_mul_bound(sxx as int, syy as int, 65025 * m, 65025 * m);
                assert(sxx * syy > 0) by (nonlinear_arith)
                    requires
                        sxx > 0,
                        syy > 0,
                ;
            }
            let num = (sxy as u128) * (sxy as u128);
            let den = (sxx as u128) * (syy as u128);
            Some(Score { neg: false, num, den })
        } else {
            None
        }
    }

    /// Jaccard index `|a ∩ b| / |a ∪ b|`; `None` when both are empty.
    pub fn jaccard_index_between(&self, first: &RatingVector, second: &RatingVector) -> (r: Option<
        Score,
    >)
        requires
            first.wf(),
            second.wf(),
        ensures
            r == jaccard_index_spec(first@, second@),
            r matches Some(sc) ==> sc.wf(),
    {
        let pairs = common_ratings(first, second);
        proof {
            lemma_common_len(first@, second@);
        }
        let inter = pairs.len();
        let union_len = (first.len() - inter) + (second.len() - inter) + inter;
        if union_len > 0 {
            Some(Score { neg: false, num: inter as u128, den: union_len as u128 })
        } else {
            None
        }
    }

    /// Jaccard distance `1 - |a ∩ b| / |a ∪ b|`; `None` when both are empty.
    pub fn jaccard_distance_between(&self, first: &RatingVector, second: &RatingVector) -> (r:
        Option<Score>)
        requires
            first.wf(),
            second.wf(),
        ensures
            r == jaccard_distance_spec(first@, second@),
            r matches Some(sc) ==> sc.wf(),
    {
        proof {
            lemma_common_len(first@, second@);
        }
        match self.jaccard_index_between(first, second) {
            Some(index) => Some(Score { neg: false, num: index.den - index.num, den: index.den }),
            None => None,
        }
    }

    /// The score of `second` against `first` under `metric`; `None` where it
    /// is undefined.
    pub fn score_between(&self, first: &RatingVector, second: &RatingVector, metric: &KNNMetric) -> (r:
        Option<Score>)
        requires
            first.wf(),
            second.wf(),
            metric_valid(*metric),
        ensures
            r == score_spec(*metric, first@, second@),
            r matches Some(sc) ==> sc.wf(),
    {
        match metric {
            KNNMetric::Manhattan => Some(self.manhattan_distance_between(first, second)),
            KNNMetric::Euclidean => Some(self.euclidean_distance_between(first, second)),
            KNNMetric::Minkowski(g) => Some(self.minkowski_distance_between(first, second, *g)),
            KNNMetric::Pearson => self.pearson_correlation_between(first, second),
            KNNMetric::Cosine => self.cosine_similarity_between(first, second),
            KNNMetric::JaccardDistance => self.jaccard_distance_between(first, second),
            KNNMetric::JaccardIndex => self.jaccard_index_between(first, second),
        }
    }
}

} // verus!
