//! Products of two or three 128-bit numbers, held in as many words, and their
//! comparison.

use vstd::prelude::*;

verus! {

/// Two to the power 64: the weight of the upper half of a 128-bit word.
pub const HALF: u128 = 0x1_0000_0000_0000_0000;

/// Two to the power 128 as a mathematical integer: the weight of the upper
/// word of a product.
pub open spec fn word() -> int {
    0x1_0000_0000_0000_0000_0000_0000_0000_0000int
}

proof fn lemma_half_product(a: int, b: int)
    requires
        0 <= a < HALF,
        0 <= b < HALF,
    ensures
        0 <= a * b <= (HALF - 1) * (HALF - 1),
{
    assert(0 <= a * b <= (HALF - 1) * (HALF - 1)) by (nonlinear_arith)
        requires
            0 <= a <= HALF - 1,
            0 <= b <= HALF - 1,
    ;
}

proof fn lemma_split_product(ah: int, al: int, bh: int, bl: int, w: int)
    ensures
        (ah * w + al) * (bh * w + bl) == (ah * bh) * (w * w) + (al * bh + ah * bl) * w + al * bl,
{
    let p: int = ah * w;
    let q: int = bh * w;
    assert((p + al) * (q + bl) == p * q + p * bl + al * q + al * bl) by (nonlinear_arith);
    assert(p * q == (ah * bh) * (w * w)) by (nonlinear_arith)
        requires
            p == ah * w,
            q == bh * w,
    ;
    assert(p * bl == (ah * bl) * w) by (nonlinear_arith)
        requires
            p == ah * w,
    ;
    assert(al * q == (al * bh) * w) by (nonlinear_arith)
        requires
            q == bh * w,
    ;
    assert((al * bh + ah * bl) * w == (al * bh) * w + (ah * bl) * w) by (nonlinear_arith);
}

/// The full product of two 128-bit numbers as an upper and a lower word.
pub fn mul_wide(a: u128, b: u128) -> (r: (u128, u128))
    ensures
        r.0 * word() + r.1 == a * b,
{
    let ah: u128 = a / HALF;
    let al: u128 = a % HALF;
    let bh: u128 = b / HALF;
    let bl: u128 = b % HALF;
    proof {
        lemma_half_product(al as int, bl as int);
        lemma_half_product(al as int, bh as int);
        lemma_half_product(ah as int, bl as int);
        lemma_half_product(ah as int, bh as int);
    }
    let ll: u128 = al * bl;
    let lh: u128 = al * bh;
    let hl: u128 = ah * bl;
    let hh: u128 = ah * bh;
    let t: u128 = ll / HALF + lh % HALF + hl % HALF;
    let lo: u128 = (t % HALF) * HALF + ll % HALF;
    let hi: u128 = hh + lh / HALF + hl / HALF + t / HALF;
    proof {
        lemma_split_product(ah as int, al as int, bh as int, bl as int, HALF as int);
        assert(HALF * HALF == word());
        assert(a * b == hh * word() + (lh + hl) * HALF + ll);
        assert((lh + hl) * HALF == lh * HALF + hl * HALF) by (nonlinear_arith);
        assert(lh * HALF == (lh / HALF) * word() + (lh % HALF) * HALF) by (nonlinear_arith)
            requires
                lh == (lh / HALF) * HALF + lh % HALF,
                HALF * HALF == word(),
        ;
        assert(hl * HALF == (hl / HALF) * word() + (hl % HALF) * HALF) by (nonlinear_arith)
            requires
                hl == (hl / HALF) * HALF + hl % HALF,
                HALF * HALF == word(),
        ;
        assert(t * HALF == (t / HALF) * word() + (t % HALF) * HALF) by (nonlinear_arith)
            requires
                t == (t / HALF) * HALF + t % HALF,
                HALF * HALF == word(),
        ;
        assert(t * HALF == (ll / HALF) * HALF + (lh % HALF) * HALF + (hl % HALF) * HALF)
            by (nonlinear_arith)
            requires
                t == ll / HALF + lh % HALF + hl % HALF,
        ;
        assert(hi * word() == hh * word() + (lh / HALF) * word() + (hl / HALF) * word() + (t
            / HALF) * word()) by (nonlinear_arith)
            requires
                hi == hh + lh / HALF + hl / HALF + t / HALF,
        ;
    }
    (hi, lo)
}

/// The full product of three 128-bit numbers as three words, the upper one
/// first.
pub fn mul_three(a: u128, b: u128, c: u128) -> (r: (u128, u128, u128))
    ensures
        r.0 * (word() * word()) + r.1 * word() + r.2 == a * b * c,
{
    let (h, l) = mul_wide(a, b);
    let (lh, ll) = mul_wide(l, c);
    let (hh, hl) = mul_wide(h, c);
    proof {
        assert(h * c <= (word() - 1) * (word() - 1)) by (nonlinear_arith)
            requires
                0 <= h <= word() - 1,
                0 <= c <= word() - 1,
        ;
        assert(hh <= word() - 2) by (nonlinear_arith)
            requires
                hh * word() + hl == h * c,
                h * c <= (word() - 1) * (word() - 1),
                0 <= hl,
                word() > 2,
        ;
        assert((h * word() + l) * c == (h * c) * word() + l * c) by (nonlinear_arith);
        assert((hh * word() + hl) * word() == hh * (word() * word()) + hl * word())
            by (nonlinear_arith);
        assert(a * b * c == hh * (word() * word()) + (hl + lh) * word() + ll) by (nonlinear_arith)
            requires
                a * b == h * word() + l,
                (h * word() + l) * c == (h * c) * word() + l * c,
                h * c == hh * word() + hl,
                l * c == lh * word() + ll,
                (hh * word() + hl) * word() == hh * (word() * word()) + hl * word(),
        ;
    }
    if hl > u128::MAX - lh {
        let mid: u128 = hl - (u128::MAX - lh) - 1;
        proof {
            assert((hh + 1) * (word() * word()) + mid * word() == hh * (word() * word()) + (hl
                + lh) * word()) by (nonlinear_arith)
                requires
                    mid == hl + lh - word(),
            ;
        }
        (hh + 1, mid, ll)
    } else {
        (hh, hl + lh, ll)
    }
}

/// Whether `a * b * c` is at most `d * e * f`, decided on the full products.
pub fn product_three_le(a: u128, b: u128, c: u128, d: u128, e: u128, f: u128) -> (r: bool)
    ensures
        r == (a * b * c <= d * e * f),
{
    let (t1, m1, l1) = mul_three(a, b, c);
    let (t2, m2, l2) = mul_three(d, e, f);
    proof {
        let w = word();
        assert(t1 < t2 ==> t1 * (w * w) + m1 * w + l1 < t2 * (w * w) + m2 * w + l2)
            by (nonlinear_arith)
            requires
                0 <= l1 < w,
                0 <= l2 < w,
                0 <= m1 < w,
                0 <= m2 < w,
                0 <= t1,
                0 <= t2,
        ;
        assert(t2 < t1 ==> t2 * (w * w) + m2 * w + l2 < t1 * (w * w) + m1 * w + l1)
            by (nonlinear_arith)
            requires
                0 <= l1 < w,
                0 <= l2 < w,
                0 <= m1 < w,
                0 <= m2 < w,
                0 <= t1,
                0 <= t2,
        ;
        assert(m1 < m2 ==> m1 * w + l1 < m2 * w + l2) by (nonlinear_arith)
            requires
                0 <= l1 < w,
                0 <= l2 < w,
                0 <= m1,
                0 <= m2,
        ;
        assert(m2 < m1 ==> m2 * w + l2 < m1 * w + l1) by (nonlinear_arith)
            requires
                0 <= l1 < w,
                0 <= l2 < w,
                0 <= m1,
                0 <= m2,
        ;
    }
    t1 < t2 || (t1 == t2 && (m1 < m2 || (m1 == m2 && l1 <= l2)))
}

} // verus!
