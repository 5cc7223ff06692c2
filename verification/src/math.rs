//! Pearson's correlation coefficient on fixed-point samples.
//!
//! A sample is a pair of integers. Sums over the samples are kept exact; the
//! coefficient itself is given in millionths, rounded toward zero.

use crate::wide::product_three_le;
use vstd::prelude::*;

verus! {

/// Fixed-point numbers count millionths: `SCALE` stands for one.
pub const SCALE: i64 = 1_000_000;

/// The largest number of samples that one coefficient is computed from.
pub const SAMPLE_LIMIT: usize = 1_000_000;

/// The largest magnitude of a sample's coordinate: ten million, in
/// millionths.
pub const VALUE_LIMIT: i64 = 10_000_000_000_000;

/// The sums that the coefficient is made of.
pub struct Moments {
    pub count: int,
    pub sum_x: int,
    pub sum_y: int,
    pub sum_xx: int,
    pub sum_yy: int,
    pub sum_xy: int,
}

impl Moments {
    /// `count` squared times the covariance of the samples.
    pub open spec fn co_spread(self) -> int {
        self.count * self.sum_xy - self.sum_x * self.sum_y
    }

    /// `count` squared times the variance of the first coordinates.
    pub open spec fn spread_x(self) -> int {
        self.count * self.sum_xx - self.sum_x * self.sum_x
    }

    /// `count` squared times the variance of the second coordinates.
    pub open spec fn spread_y(self) -> int {
        self.count * self.sum_yy - self.sum_y * self.sum_y
    }
}

/// The sums over all samples of `pairs`.
pub open spec fn moments(pairs: Seq<(i64, i64)>) -> Moments
    decreases pairs.len(),
{
    if pairs.len() == 0 {
        Moments { count: 0, sum_x: 0, sum_y: 0, sum_xx: 0, sum_yy: 0, sum_xy: 0 }
    } else {
        let m = moments(pairs.drop_last());
        let x = pairs.last().0 as int;
        let y = pairs.last().1 as int;
        Moments {
            count: m.count + 1,
            sum_x: m.sum_x + x,
            sum_y: m.sum_y + y,
            sum_xx: m.sum_xx + x * x,
            sum_yy: m.sum_yy + y * y,
            sum_xy: m.sum_xy + x * y,
        }
    }
}

/// What the exact arithmetic of this module has room for: the sums over the
/// samples, and what the coefficient is made of them, are held in 128 bits.
pub open spec fn within_limits(pairs: Seq<(i64, i64)>) -> bool {
    &&& pairs.len() <= SAMPLE_LIMIT
    &&& forall|i: int|
        0 <= i < pairs.len() ==> -VALUE_LIMIT <= (#[trigger] pairs[i]).0 <= VALUE_LIMIT
            && -VALUE_LIMIT <= pairs[i].1 <= VALUE_LIMIT
}

/// Whether `q` is the whole part of `m` divided by the square root of `d`.
pub open spec fn is_root_ratio(q: int, m: int, d: int) -> bool {
    0 <= q && q * q * d <= m * m && m * m < (q + 1) * (q + 1) * d
}

/// The largest `q` with `q * q * d <= m * m`: the whole part of `m` divided by
/// the square root of `d`.
pub open spec fn root_ratio(m: int, d: int) -> int {
    choose|q: int| is_root_ratio(q, m, d)
}

/// Pearson's coefficient of `pairs` in millionths, rounded toward zero. Where
/// one of the coordinates does not vary, no coefficient exists and the value
/// is zero.
pub open spec fn coefficient(pairs: Seq<(i64, i64)>) -> int {
    let m = moments(pairs);
    let c = m.co_spread();
    let d = m.spread_x() * m.spread_y();
    if m.spread_x() <= 0 || m.spread_y() <= 0 {
        0
    } else if c >= 0 {
        root_ratio(SCALE * c, d)
    } else {
        -root_ratio(SCALE * (-c), d)
    }
}

/// The sum over the samples of `(p * x + q * y + r)` squared.
pub open spec fn quad(pairs: Seq<(i64, i64)>, p: int, q: int, r: int) -> int
    decreases pairs.len(),
{
    if pairs.len() == 0 {
        0
    } else {
        let t = p * pairs.last().0 + q * pairs.last().1 + r;
        quad(pairs.drop_last(), p, q, r) + t * t
    }
}

/// `quad` written out over the sums.
pub open spec fn quad_expanded(m: Moments, p: int, q: int, r: int) -> int {
    (p * p) * m.sum_xx + (q * q) * m.sum_yy + (r * r) * m.count + 2 * ((p * q) * m.sum_xy) + 2 * ((p
        * r) * m.sum_x) + 2 * ((q * r) * m.sum_y)
}

proof fn lemma_mul_add(k: int, a: int, b: int)
    ensures
        k * (a + b) == k * a + k * b,
{
    assert(k * (a + b) == k * a + k * b) by (nonlinear_arith);
}

proof fn lemma_square_of_three(a: int, b: int, c: int)
    ensures
        (a + b + c) * (a + b + c) == a * a + b * b + c * c + 2 * (a * b) + 2 * (a * c) + 2 * (b
            * c),
        (a + b + c) * (a + b + c) >= 0,
{
    assert((a + b + c) * (a + b + c) == a * a + b * b + c * c + 2 * (a * b) + 2 * (a * c) + 2 * (b
        * c)) by (nonlinear_arith);
    assert((a + b + c) * (a + b + c) >= 0) by (nonlinear_arith);
}

proof fn lemma_regroup(a: int, b: int, c: int, d: int)
    ensures
        (a * b) * (c * d) == (a * c) * (b * d),
{
    assert((a * b) * (c * d) == (a * c) * (b * d)) by (nonlinear_arith);
}

proof fn lemma_regroup_five(a: int, b: int, c: int, d: int, e: int)
    ensures
        ((a * b) * (c * d)) * e == (a * c) * (b * (d * e)),
{
    lemma_regroup(a, b, c, d);
    let ac = a * c;
    let bd = b * d;
    assert((ac * bd) * e == ac * (bd * e)) by (nonlinear_arith);
    assert((b * d) * e == b * (d * e)) by (nonlinear_arith);
}

proof fn lemma_mul_neg(a: int, b: int)
    ensures
        (-a) * b == -(a * b),
        a * (-b) == -(a * b),
{
    assert((-a) * b == -(a * b)) by (nonlinear_arith);
    assert(a * (-b) == -(a * b)) by (nonlinear_arith);
}

proof fn lemma_mul_sub(k: int, a: int, b: int)
    ensures
        k * (a - b) == k * a - k * b,
        (a - b) * k == a * k - b * k,
{
    assert(k * (a - b) == k * a - k * b) by (nonlinear_arith);
    assert((a - b) * k == a * k - b * k) by (nonlinear_arith);
}

/// A sum of squares is not negative, and is a quadratic form over the sums.
pub proof fn lemma_quad(pairs: Seq<(i64, i64)>, p: int, q: int, r: int)
    ensures
        quad(pairs, p, q, r) >= 0,
        quad(pairs, p, q, r) == quad_expanded(moments(pairs), p, q, r),
    decreases pairs.len(),
{
    if pairs.len() > 0 {
        lemma_quad(pairs.drop_last(), p, q, r);
        let m0 = moments(pairs.drop_last());
        let m1 = moments(pairs);
        let x = pairs.last().0 as int;
        let y = pairs.last().1 as int;
        let t = p * x + q * y + r;
        lemma_square_of_three(p * x, q * y, r);
        lemma_regroup(p, x, p, x);
        lemma_regroup(q, y, q, y);
        lemma_regroup(p, x, q, y);
        assert((p * x) * r == (p * r) * x) by (nonlinear_arith);
        assert((q * y) * r == (q * r) * y) by (nonlinear_arith);
        assert(t * t == (p * p) * (x * x) + (q * q) * (y * y) + r * r + 2 * ((p * q) * (x * y)) + 2
            * ((p * r) * x) + 2 * ((q * r) * y));
        lemma_mul_add(p * p, m0.sum_xx, x * x);
        lemma_mul_add(q * q, m0.sum_yy, y * y);
        lemma_mul_add(r * r, m0.count, 1);
        lemma_mul_add(p * q, m0.sum_xy, x * y);
        lemma_mul_add(p * r, m0.sum_x, x);
        lemma_mul_add(q * r, m0.sum_y, y);
        assert(quad_expanded(m1, p, q, r) == quad_expanded(m0, p, q, r) + t * t);
    } else {
        let m = moments(pairs);
        assert(m.count == 0 && m.sum_x == 0 && m.sum_y == 0 && m.sum_xx == 0 && m.sum_yy == 0
            && m.sum_xy == 0);
        assert(quad_expanded(m, p, q, r) == 0) by (nonlinear_arith)
            requires
                m.count == 0 && m.sum_x == 0 && m.sum_y == 0 && m.sum_xx == 0 && m.sum_yy == 0
                    && m.sum_xy == 0,
                quad_expanded(m, p, q, r) == (p * p) * m.sum_xx + (q * q) * m.sum_yy + (r * r)
                    * m.count + 2 * ((p * q) * m.sum_xy) + 2 * ((p * r) * m.sum_x) + 2 * ((q * r)
                    * m.sum_y),
        ;
    }
}

/// The number of samples is the first of the sums.
pub proof fn lemma_count(pairs: Seq<(i64, i64)>)
    ensures
        moments(pairs).count == pairs.len(),
    decreases pairs.len(),
{
    if pairs.len() > 0 {
        lemma_count(pairs.drop_last());
    }
}

proof fn lemma_centred_form(
    n: int,
    sx: int,
    sy: int,
    sxx: int,
    syy: int,
    sxy: int,
    a: int,
    b: int,
)
    ensures
        quad_expanded(
            Moments { count: n, sum_x: sx, sum_y: sy, sum_xx: sxx, sum_yy: syy, sum_xy: sxy },
            a * n,
            -(b * n),
            b * sy - a * sx,
        ) == n * ((a * a) * (n * sxx - sx * sx) - 2 * ((a * b) * (n * sxy - sx * sy)) + (b * b) * (n
            * syy - sy * sy)),
{
    let p = a * n;
    let q = -(b * n);
    let r = b * sy - a * sx;
    let m1 = (a * a) * (n * n * sxx);
    let m2 = (b * b) * (n * n * syy);
    let m3 = (a * b) * (n * n * sxy);
    let m4 = (a * a) * (n * (sx * sx));
    let m5 = (b * b) * (n * (sy * sy));
    let m6 = (a * b) * (n * (sx * sy));
    assert((p * p) * sxx == m1) by (nonlinear_arith)
        requires
            p == a * n,
            m1 == (a * a) * (n * n * sxx),
    ;
    assert((q * q) * syy == m2) by (nonlinear_arith)
        requires
            q == -(b * n),
            m2 == (b * b) * (n * n * syy),
    ;
    assert((p * q) * sxy == -m3) by (nonlinear_arith)
        requires
            p == a * n,
            q == -(b * n),
            m3 == (a * b) * (n * n * sxy),
    ;
    let u = b * sy;
    let v = a * sx;
    assert(r * r == u * u - 2 * (u * v) + v * v) by (nonlinear_arith)
        requires
            r == u - v,
    ;
    lemma_regroup(b, sy, b, sy);
    lemma_regroup(a, sx, a, sx);
    lemma_regroup(b, sy, a, sx);
    assert(sy * sx == sx * sy && b * a == a * b) by (nonlinear_arith);
    assert(r * r == (b * b) * (sy * sy) - 2 * ((a * b) * (sx * sy)) + (a * a) * (sx * sx));
    lemma_mul_sub(n, (b * b) * (sy * sy) - 2 * ((a * b) * (sx * sy)), -((a * a) * (sx * sx)));
    lemma_mul_sub(n, (b * b) * (sy * sy), 2 * ((a * b) * (sx * sy)));
    lemma_mul_neg(n, (a * a) * (sx * sx));
    assert(n * ((a * a) * (sx * sx)) == m4) by (nonlinear_arith)
        requires
            m4 == (a * a) * (n * (sx * sx)),
    ;
    assert(n * ((b * b) * (sy * sy)) == m5) by (nonlinear_arith)
        requires
            m5 == (b * b) * (n * (sy * sy)),
    ;
    assert(n * (2 * ((a * b) * (sx * sy))) == 2 * m6) by (nonlinear_arith)
        requires
            m6 == (a * b) * (n * (sx * sy)),
    ;
    assert((r * r) * n == m5 - 2 * m6 + m4);
    // p * r and q * r, each times a sum
    lemma_mul_sub(p, u, v);
    lemma_mul_sub(sx, p * u, p * v);
    lemma_regroup_five(a, n, b, sy, sx);
    lemma_regroup_five(a, n, a, sx, sx);
    assert((p * u) * sx == m6);
    assert((p * v) * sx == m4);
    assert((p * r) * sx == m6 - m4);
    let bn = b * n;
    lemma_mul_sub(bn, u, v);
    lemma_mul_sub(sy, bn * u, bn * v);
    lemma_regroup_five(b, n, b, sy, sy);
    lemma_regroup_five(b, n, a, sx, sy);
    assert((bn * u) * sy == m5);
    assert((bn * v) * sy == m6);
    lemma_mul_neg(bn, r);
    lemma_mul_neg(bn * r, sy);
    assert((q * r) * sy == m6 - m5);
    assert(n * ((a * a) * (n * sxx - sx * sx)) == m1 - m4) by (nonlinear_arith)
        requires
            m1 == (a * a) * (n * n * sxx),
            m4 == (a * a) * (n * (sx * sx)),
    ;
    assert(n * ((b * b) * (n * syy - sy * sy)) == m2 - m5) by (nonlinear_arith)
        requires
            m2 == (b * b) * (n * n * syy),
            m5 == (b * b) * (n * (sy * sy)),
    ;
    assert(n * ((a * b) * (n * sxy - sx * sy)) == m3 - m6) by (nonlinear_arith)
        requires
            m3 == (a * b) * (n * n * sxy),
            m6 == (a * b) * (n * (sx * sy)),
    ;
    let tx = (a * a) * (n * sxx - sx * sx);
    let tc = (a * b) * (n * sxy - sx * sy);
    let ty = (b * b) * (n * syy - sy * sy);
    assert(n * (tx - 2 * tc + ty) == n * tx - 2 * (n * tc) + n * ty) by (nonlinear_arith);
}

/// Neither coordinate has a negative spread, and the square of the co-spread
/// is at most the product of the two spreads (Cauchy and Schwarz).
pub proof fn lemma_spreads(pairs: Seq<(i64, i64)>)
    ensures
        moments(pairs).spread_x() >= 0,
        moments(pairs).spread_y() >= 0,
        moments(pairs).co_spread() * moments(pairs).co_spread() <= moments(pairs).spread_x()
            * moments(pairs).spread_y(),
{
    let m = moments(pairs);
    let n = m.count;
    let dx = m.spread_x();
    let dy = m.spread_y();
    let c = m.co_spread();
    lemma_count(pairs);
    if n == 0 {
        assert(m.sum_x == 0 && m.sum_y == 0 && m.sum_xx == 0 && m.sum_yy == 0 && m.sum_xy == 0);
        assert(dx == 0 && dy == 0 && c == 0) by (nonlinear_arith)
            requires
                n == 0,
                m.sum_x == 0 && m.sum_y == 0,
                dx == n * m.sum_xx - m.sum_x * m.sum_x,
                dy == n * m.sum_yy - m.sum_y * m.sum_y,
                c == n * m.sum_xy - m.sum_x * m.sum_y,
        ;
        assert(c * c <= dx * dy) by (nonlinear_arith)
            requires
                dx == 0 && dy == 0 && c == 0,
        ;
    } else {
        lemma_form_sign(pairs, 1, 0);
        lemma_form_sign(pairs, 0, 1);
        assert(dx >= 0 && dy >= 0) by (nonlinear_arith)
            requires
                n > 0,
                n * ((1 * 1) * dx - 2 * ((1 * 0) * c) + (0 * 0) * dy) >= 0,
                n * ((0 * 0) * dx - 2 * ((0 * 1) * c) + (1 * 1) * dy) >= 0,
        ;
        if dx > 0 {
            lemma_form_sign(pairs, c, dx);
            let k = dx * dy - c * c;
            assert((c * c) * dx - 2 * ((c * dx) * c) + (dx * dx) * dy == dx * k)
                by (nonlinear_arith)
                requires
                    k == dx * dy - c * c,
            ;
            assert(k >= 0) by (nonlinear_arith)
                requires
                    n > 0,
                    dx > 0,
                    n * (dx * k) >= 0,
            ;
        } else {
            lemma_form_sign(pairs, dy + 1, c);
            assert(c == 0) by (nonlinear_arith)
                requires
                    n > 0,
                    dx == 0,
                    dy >= 0,
                    n * (((dy + 1) * (dy + 1)) * dx - 2 * (((dy + 1) * c) * c) + (c * c) * dy)
                        >= 0,
            ;
            assert(c * c <= dx * dy) by (nonlinear_arith)
                requires
                    dx == 0 && c == 0,
            ;
        }
    }
}

/// For all weights `a` and `b`, the samples' squared deviations, weighted and
/// summed, are not negative.
proof fn lemma_form_sign(pairs: Seq<(i64, i64)>, a: int, b: int)
    ensures
        moments(pairs).count * ((a * a) * moments(pairs).spread_x() - 2 * ((a * b) * moments(
            pairs,
        ).co_spread()) + (b * b) * moments(pairs).spread_y()) >= 0,
{
    let m = moments(pairs);
    lemma_quad(pairs, a * m.count, -(b * m.count), b * m.sum_y - a * m.sum_x);
    lemma_centred_form(m.count, m.sum_x, m.sum_y, m.sum_xx, m.sum_yy, m.sum_xy, a, b);
}

proof fn lemma_quad_term(pairs: Seq<(i64, i64)>, p: int, q: int, r: int, k: int)
    requires
        0 <= k < pairs.len(),
    ensures
        quad(pairs, p, q, r) >= (p * pairs[k].0 + q * pairs[k].1 + r) * (p * pairs[k].0 + q
            * pairs[k].1 + r),
    decreases pairs.len(),
{
    let t = p * pairs.last().0 + q * pairs.last().1 + r;
    assert(t * t >= 0) by (nonlinear_arith);
    if k == pairs.len() - 1 {
        lemma_quad(pairs.drop_last(), p, q, r);
    } else {
        lemma_quad_term(pairs.drop_last(), p, q, r, k);
    }
}

/// Where two samples differ in their first coordinate, the spread of the
/// first coordinates is positive.
pub proof fn lemma_spread_positive(pairs: Seq<(i64, i64)>, i: int, j: int)
    requires
        0 <= i < pairs.len(),
        0 <= j < pairs.len(),
        pairs[i].0 != pairs[j].0,
    ensures
        moments(pairs).spread_x() > 0,
{
    let m = moments(pairs);
    let n = m.count;
    let sx = m.sum_x;
    let dx = m.spread_x();
    lemma_count(pairs);
    lemma_spreads(pairs);
    if dx == 0 {
        lemma_quad(pairs, 1 * n, -(0 * n), 0 * m.sum_y - 1 * sx);
        lemma_centred_form(n, sx, m.sum_y, m.sum_xx, m.sum_yy, m.sum_xy, 1, 0);
        assert(n * ((1 * 1) * dx - 2 * ((1 * 0) * m.co_spread()) + (0 * 0) * m.spread_y()) == 0)
            by (nonlinear_arith)
            requires
                dx == 0,
        ;
        lemma_quad_term(pairs, 1 * n, -(0 * n), 0 * m.sum_y - 1 * sx, i);
        lemma_quad_term(pairs, 1 * n, -(0 * n), 0 * m.sum_y - 1 * sx, j);
        let ti = (1 * n) * pairs[i].0 + (-(0 * n)) * pairs[i].1 + (0 * m.sum_y - 1 * sx);
        let tj = (1 * n) * pairs[j].0 + (-(0 * n)) * pairs[j].1 + (0 * m.sum_y - 1 * sx);
        assert(ti == 0 && tj == 0) by (nonlinear_arith)
            requires
                ti * ti <= 0,
                tj * tj <= 0,
        ;
        assert(ti == n * pairs[i].0 - sx && tj == n * pairs[j].0 - sx) by (nonlinear_arith)
            requires
                ti == (1 * n) * pairs[i].0 + (-(0 * n)) * pairs[i].1 + (0 * m.sum_y - 1 * sx),
                tj == (1 * n) * pairs[j].0 + (-(0 * n)) * pairs[j].1 + (0 * m.sum_y - 1 * sx),
        ;
        assert(false) by (nonlinear_arith)
            requires
                n > 0,
                n * pairs[i].0 == n * pairs[j].0,
                pairs[i].0 != pairs[j].0,
        ;
    }
}

/// A number that meets the bounds of `root_ratio` is that ratio.
pub proof fn lemma_root_ratio(q: int, m: int, d: int)
    requires
        d > 0,
        is_root_ratio(q, m, d),
    ensures
        root_ratio(m, d) == q,
{
    let other = root_ratio(m, d);
    assert(is_root_ratio(other, m, d));
    if other < q {
        assert((other + 1) * (other + 1) * d <= q * q * d) by (nonlinear_arith)
            requires
                0 <= other + 1 <= q,
                d > 0,
        ;
    } else if other > q {
        assert((q + 1) * (q + 1) * d <= other * other * d) by (nonlinear_arith)
            requires
                0 <= q + 1 <= other,
                d > 0,
        ;
    }
}

proof fn lemma_root_ratio_from(q: int, m: int, d: int)
    requires
        d > 0,
        m >= 0,
        0 <= q <= m,
        q * q * d <= m * m,
    ensures
        exists|r: int| is_root_ratio(r, m, d),
    decreases m - q,
{
    if m * m < (q + 1) * (q + 1) * d {
        assert(is_root_ratio(q, m, d));
    } else {
        assert(q + 1 <= m) by (nonlinear_arith)
            requires
                (q + 1) * (q + 1) * d <= m * m,
                d >= 1,
                0 <= q,
                0 <= m,
        ;
        lemma_root_ratio_from(q + 1, m, d);
    }
}

/// Every number that is not negative, divided by the square root of a
/// positive one, has a whole part.
pub proof fn lemma_root_ratio_exists(m: int, d: int)
    requires
        d > 0,
        m >= 0,
    ensures
        is_root_ratio(root_ratio(m, d), m, d),
{
    assert(0 * 0 * d <= m * m) by (nonlinear_arith);
    lemma_root_ratio_from(0, m, d);
}

/// The coefficient of any samples lies between minus one and one.
pub proof fn lemma_coefficient_bounds(pairs: Seq<(i64, i64)>)
    ensures
        -SCALE <= coefficient(pairs) <= SCALE,
{
    let m = moments(pairs);
    let c = m.co_spread();
    let d = m.spread_x() * m.spread_y();
    if m.spread_x() > 0 && m.spread_y() > 0 {
        lemma_spreads(pairs);
        let c_abs = if c >= 0 {
            c
        } else {
            -c
        };
        assert(d > 0) by (nonlinear_arith)
            requires
                d == m.spread_x() * m.spread_y(),
                m.spread_x() > 0,
                m.spread_y() > 0,
        ;
        assert(SCALE * c_abs >= 0) by (nonlinear_arith)
            requires
                c_abs >= 0,
        ;
        assert(c_abs * c_abs == c * c) by (nonlinear_arith)
            requires
                c_abs == c || c_abs == -c,
        ;
        lemma_root_ratio_exists(SCALE * c_abs, d);
        let q = root_ratio(SCALE * c_abs, d);
        assert(q <= SCALE) by (nonlinear_arith)
            requires
                0 <= q,
                q * q * d <= (SCALE * c_abs) * (SCALE * c_abs),
                c_abs * c_abs <= d,
                d > 0,
                SCALE == 1_000_000,
        ;
    }
}

/// The square of `VALUE_LIMIT`.
const VALUE_LIMIT_SQUARED: i128 = 100_000_000_000_000_000_000_000_000;

/// The largest magnitude that a spread or a product of two sums can have
/// within the limits.
const SPREAD_LIMIT: i128 = 100_000_000_000_000_000_000_000_000_000_000_000_000;

/// The sums over `data`, each with room to spare in 128 bits.
fn sums(data: &Vec<(i64, i64)>) -> (r: (i128, i128, i128, i128, i128))
    requires
        within_limits(data@),
    ensures
        moments(data@) == (Moments {
            count: data@.len() as int,
            sum_x: r.0 as int,
            sum_y: r.1 as int,
            sum_xx: r.2 as int,
            sum_yy: r.3 as int,
            sum_xy: r.4 as int,
        }),
        -(data@.len() * VALUE_LIMIT) <= r.0 <= data@.len() * VALUE_LIMIT,
        -(data@.len() * VALUE_LIMIT) <= r.1 <= data@.len() * VALUE_LIMIT,
        0 <= r.2 <= data@.len() * VALUE_LIMIT_SQUARED,
        0 <= r.3 <= data@.len() * VALUE_LIMIT_SQUARED,
        -(data@.len() * VALUE_LIMIT_SQUARED) <= r.4 <= data@.len() * VALUE_LIMIT_SQUARED,
{
    let n: usize = data.len();
    let mut sx: i128 = 0;
    let mut sy: i128 = 0;
    let mut sxx: i128 = 0;
    let mut syy: i128 = 0;
    let mut sxy: i128 = 0;
    let mut i: usize = 0;
    while i < n
        invariant
            n == data@.len(),
            i <= n,
            within_limits(data@),
            moments(data@.take(i as int)) == (Moments {
                count: i as int,
                sum_x: sx as int,
                sum_y: sy as int,
                sum_xx: sxx as int,
                sum_yy: syy as int,
                sum_xy: sxy as int,
            }),
            -(i * VALUE_LIMIT) <= sx <= i * VALUE_LIMIT,
            -(i * VALUE_LIMIT) <= sy <= i * VALUE_LIMIT,
            0 <= sxx <= i * VALUE_LIMIT_SQUARED,
            0 <= syy <= i * VALUE_LIMIT_SQUARED,
            -(i * VALUE_LIMIT_SQUARED) <= sxy <= i * VALUE_LIMIT_SQUARED,
        decreases n - i,
    {
        let x: i128 = data[i].0 as i128;
        let y: i128 = data[i].1 as i128;
        proof {
            assert(data@.take(i + 1).drop_last() =~= data@.take(i as int));
            assert(data@.take(i + 1).last() == data@[i as int]);
            assert(0 <= x * x <= VALUE_LIMIT_SQUARED && 0 <= y * y <= VALUE_LIMIT_SQUARED
                && -VALUE_LIMIT_SQUARED <= x * y <= VALUE_LIMIT_SQUARED) by (nonlinear_arith)
                requires
                    -10_000_000_000_000 <= x <= 10_000_000_000_000,
                    -10_000_000_000_000 <= y <= 10_000_000_000_000,
                    VALUE_LIMIT_SQUARED == 100_000_000_000_000_000_000_000_000,
            ;
        }
        sx = sx + x;
        sy = sy + y;
        sxx = sxx + x * x;
        syy = syy + y * y;
        sxy = sxy + x * y;
        i = i + 1;
    }
    proof {
        assert(data@.take(n as int) =~= data@);
    }
    (sx, sy, sxx, syy, sxy)
}

/// The whole part of `SCALE * c` divided by the square root of `dx * dy`,
/// found by bisection between zero and `SCALE`.
fn bisect_root_ratio(c: u128, dx: u128, dy: u128) -> (q: u128)
    requires
        0 < dx,
        0 < dy,
        c * c <= dx * dy,
    ensures
        q <= SCALE,
        is_root_ratio(q as int, SCALE * c, dx * dy),
{
    let ghost m = SCALE * c;
    let ghost d = dx * dy;
    let unit: u128 = 1_000_000;
    let mut low: u128 = 0;
    let mut high: u128 = unit;
    proof {
        assert(0 < d) by (nonlinear_arith)
            requires
                d == dx * dy,
                0 < dx,
                0 < dy,
        ;
        assert(m * m == (unit * unit) * (c * c)) by (nonlinear_arith)
            requires
                m == unit * c,
        ;
        assert(0 * 0 * d <= m * m) by (nonlinear_arith);
        assert(m * m < (high + 1) * (high + 1) * d) by (nonlinear_arith)
            requires
                0 < d,
                m * m == (high * high) * (c * c),
                c * c <= d,
                high >= 0,
        ;
    }
    while low < high
        invariant
            low <= high <= unit,
            unit == SCALE,
            m == SCALE * c,
            d == dx * dy,
            m * m == (unit * unit) * (c * c),
            low * low * d <= m * m,
            m * m < (high + 1) * (high + 1) * d,
        decreases high - low,
    {
        let mid: u128 = (low + high + 1) / 2;
        proof {
            assert(mid * mid <= 1_000_000 * 1_000_000) by (nonlinear_arith)
                requires
                    0 <= mid <= 1_000_000,
            ;
            assert((mid * mid) * dx * dy == mid * mid * d) by (nonlinear_arith)
                requires
                    d == dx * dy,
            ;
            assert((unit * unit) * c * c == (unit * unit) * (c * c)) by (nonlinear_arith);
        }
        if product_three_le(mid * mid, dx, dy, unit * unit, c, c) {
            low = mid;
        } else {
            high = mid - 1;
        }
    }
    low
}

/// Pearson's correlation coefficient of `data`, in millionths and rounded
/// toward zero: the co-spread of the samples divided by the square roots of
/// the two spreads. It lies between minus one and one. Where one coordinate
/// is the same in every sample the coefficient does not exist, and zero is
/// returned.
pub fn calculate_correlation_coefficient(data: Vec<(i64, i64)>) -> (r: i64)
    requires
        within_limits(data@),
    ensures
        r == coefficient(data@),
        -SCALE <= r <= SCALE,
{
    let (sx, sy, sxx, syy, sxy) = sums(&data);
    let n: i128 = data.len() as i128;
    proof {
        lemma_spreads(data@);
        assert(-SPREAD_LIMIT <= n * sxy <= SPREAD_LIMIT && 0 <= n * sxx <= SPREAD_LIMIT && 0 <= n
            * syy <= SPREAD_LIMIT) by (nonlinear_arith)
            requires
                0 <= n <= 1_000_000,
                -100_000_000_000_000_000_000_000_000_000_000 <= sxy
                    <= 100_000_000_000_000_000_000_000_000_000_000,
                0 <= sxx <= 100_000_000_000_000_000_000_000_000_000_000,
                0 <= syy <= 100_000_000_000_000_000_000_000_000_000_000,
                SPREAD_LIMIT == 100_000_000_000_000_000_000_000_000_000_000_000_000,
        ;
        assert(-SPREAD_LIMIT <= sx * sy <= SPREAD_LIMIT && 0 <= sx * sx <= SPREAD_LIMIT && 0 <= sy
            * sy <= SPREAD_LIMIT) by (nonlinear_arith)
            requires
                -10_000_000_000_000_000_000 <= sx <= 10_000_000_000_000_000_000,
                -10_000_000_000_000_000_000 <= sy <= 10_000_000_000_000_000_000,
                SPREAD_LIMIT == 100_000_000_000_000_000_000_000_000_000_000_000_000,
        ;
    }
    let dx: i128 = n * sxx - sx * sx;
    let dy: i128 = n * syy - sy * sy;
    proof {
        let c = moments(data@).co_spread();
        assert(-SPREAD_LIMIT <= c <= SPREAD_LIMIT) by (nonlinear_arith)
            requires
                c * c <= dx * dy,
                0 <= dx <= SPREAD_LIMIT,
                0 <= dy <= SPREAD_LIMIT,
                SPREAD_LIMIT > 0,
        ;
    }
    let c: i128 = n * sxy - sx * sy;
    if dx <= 0 || dy <= 0 {
        return 0;
    }
    let c_abs: u128 = if c >= 0 {
        c as u128
    } else {
        (-c) as u128
    };
    proof {
        assert(c_abs * c_abs == c * c) by (nonlinear_arith)
            requires
                c_abs == c || c_abs == -c,
        ;
    }
    let q: u128 = bisect_root_ratio(c_abs, dx as u128, dy as u128);
    proof {
        assert(dx * dy > 0) by (nonlinear_arith)
            requires
                dx > 0,
                dy > 0,
        ;
        lemma_root_ratio(q as int, SCALE * c_abs, dx * dy);
    }
    if c >= 0 {
        q as i64
    } else {
        -(q as i64)
    }
}

} // verus!
