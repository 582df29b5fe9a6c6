//! Division of a `u128` by `10^16` through a multiplicative inverse: the
//! quotient is the top bits of a 128 x 128 -> 256-bit product with a
//! precomputed multiplier, shifted right by a fixed amount.
use vstd::prelude::*;

verus! {

/// `10^16`, the divisor.
pub const D: u128 = 10_000_000_000_000_000;

/// The multiplier: `ceil(2^179 / 10^16)`.
pub const M_HIGH: u128 = 76624777043294442917917351357515459181;

/// Right shift applied after taking the high half of the product.
pub const SH_POST: u32 = 51;

/// `2^64` as a mathematical integer.
pub open spec fn two_64() -> int {
    0x1_0000_0000_0000_0000int
}

/// `2^128` as a mathematical integer.
pub open spec fn two_128() -> int {
    0x1_0000_0000_0000_0000_0000_0000_0000_0000int
}

/// `2^179` as a mathematical integer.
pub open spec fn two_179() -> int {
    0x8_0000_0000_0000_0000_0000_0000_0000_0000_0000_0000_0000int
}

proof fn lemma_product_of_halves(a: int, b: int, ah: int, al: int, bh: int, bl: int, w: int)
    requires
        a == ah * w + al,
        b == bh * w + bl,
    ensures
        a * b == (ah * bh) * w * w + (ah * bl) * w + (al * bh) * w + al * bl,
{
    let x = ah * w;
    let y = bh * w;
    assert(a * b == x * b + al * b) by (nonlinear_arith)
        requires
            a == x + al,
    ;
    assert(x * b == x * y + x * bl) by (nonlinear_arith)
        requires
            b == y + bl,
    ;
    assert(al * b == al * y + al * bl) by (nonlinear_arith)
        requires
            b == y + bl,
    ;
    assert(x * y == (ah * bh) * w * w) by (nonlinear_arith)
        requires
            x == ah * w,
            y == bh * w,
    ;
    assert(x * bl == (ah * bl) * w) by (nonlinear_arith)
        requires
            x == ah * w,
    ;
    assert(al * y == (al * bh) * w) by (nonlinear_arith)
        requires
            y == bh * w,
    ;
}

proof fn lemma_regroup(
    ab: int,
    top: int,
    m1: int,
    m2: int,
    bot: int,
    m1h: int,
    m1l: int,
    m2h: int,
    m2l: int,
    bh: int,
    bl: int,
    mid: int,
    midh: int,
    midl: int,
    w: int,
)
    by (nonlinear_arith)
    requires
        w > 0,
        ab == top * w * w + m1 * w + m2 * w + bot,
        m1 == m1h * w + m1l,
        m2 == m2h * w + m2l,
        bot == bh * w + bl,
        mid == bh + m1l + m2l,
        mid == midh * w + midl,
    ensures
        ab == (top + m1h + m2h + midh) * (w * w) + (midl * w + bl),
{
}

proof fn lemma_low_part_bound(midl: int, bl: int, w: int)
    by (nonlinear_arith)
    requires
        0 <= midl < w,
        0 <= bl < w,
    ensures
        0 <= midl * w + bl < w * w,
{
}

/// Top 128 bits of the 256-bit product `a * b`, assembled from four
/// 64 x 64 -> 128-bit partial products.
pub fn mulhi(a: u128, b: u128) -> (r: u128)
    ensures
        r as int == (a as int * b as int) / two_128(),
{
    let a_lo = a as u64 as u128;
    let a_hi = a >> 64;
    let b_lo = b as u64 as u128;
    let b_hi = b >> 64;
    proof {
        assert(a_lo == a % 0x1_0000_0000_0000_0000 && a_hi == a / 0x1_0000_0000_0000_0000)
            by (bit_vector)
            requires
                a_lo == a as u64 as u128,
                a_hi == a >> 64,
        ;
        assert(b_lo == b % 0x1_0000_0000_0000_0000 && b_hi == b / 0x1_0000_0000_0000_0000)
            by (bit_vector)
            requires
                b_lo == b as u64 as u128,
                b_hi == b >> 64,
        ;
        assert(a_lo * b_lo <= 0xFFFF_FFFF_FFFF_FFFE_0000_0000_0000_0001) by (nonlinear_arith)
            requires
                a_lo < 0x1_0000_0000_0000_0000,
                b_lo < 0x1_0000_0000_0000_0000,
        ;
        assert(a_hi * b_lo <= 0xFFFF_FFFF_FFFF_FFFE_0000_0000_0000_0001) by (nonlinear_arith)
            requires
                a_hi < 0x1_0000_0000_0000_0000,
                b_lo < 0x1_0000_0000_0000_0000,
        ;
        assert(a_lo * b_hi <= 0xFFFF_FFFF_FFFF_FFFE_0000_0000_0000_0001) by (nonlinear_arith)
            requires
                a_lo < 0x1_0000_0000_0000_0000,
                b_hi < 0x1_0000_0000_0000_0000,
        ;
        assert(a_hi * b_hi <= 0xFFFF_FFFF_FFFF_FFFE_0000_0000_0000_0001) by (nonlinear_arith)
            requires
                a_hi < 0x1_0000_0000_0000_0000,
                b_hi < 0x1_0000_0000_0000_0000,
        ;
    }
    let bot = a_lo * b_lo;
    let mid1 = a_hi * b_lo;
    let mid2 = a_lo * b_hi;
    let top = a_hi * b_hi;
    let mask64: u128 = 0xFFFF_FFFF_FFFF_FFFF;
    proof {
        assert(bot >> 64 == bot / 0x1_0000_0000_0000_0000 && bot % 0x1_0000_0000_0000_0000 == bot
            & 0xFFFF_FFFF_FFFF_FFFF) by (bit_vector);
        assert(mid1 >> 64 == mid1 / 0x1_0000_0000_0000_0000 && mid1 & mask64 == mid1
            % 0x1_0000_0000_0000_0000) by (bit_vector)
            requires
                mask64 == 0xFFFF_FFFF_FFFF_FFFF,
        ;
        assert(mid2 >> 64 == mid2 / 0x1_0000_0000_0000_0000 && mid2 & mask64 == mid2
            % 0x1_0000_0000_0000_0000) by (bit_vector)
            requires
                mask64 == 0xFFFF_FFFF_FFFF_FFFF,
        ;
    }
    let mid = (bot >> 64) + (mid1 & mask64) + (mid2 & mask64);
    proof {
        assert(mid >> 64 == mid / 0x1_0000_0000_0000_0000) by (bit_vector);
        let w = two_64();
        let (ai, bi) = (a as int, b as int);
        let (m1, m2, bo, mi, tp) = (mid1 as int, mid2 as int, bot as int, mid as int, top as int);
        lemma_product_of_halves(ai, bi, a_hi as int, a_lo as int, b_hi as int, b_lo as int, w);
        lemma_regroup(
            ai * bi,
            tp,
            m1,
            m2,
            bo,
            m1 / w,
            m1 % w,
            m2 / w,
            m2 % w,
            bo / w,
            bo % w,
            mi,
            mi / w,
            mi % w,
            w,
        );
        lemma_low_part_bound(mi % w, bo % w, w);
        assert(w * w == two_128());
        vstd::arithmetic::div_mod::lemma_fundamental_div_mod_converse(
            ai * bi,
            two_128(),
            tp + m1 / w + m2 / w + mi / w,
            (mi % w) * w + bo % w,
        );
        assert(ai * bi <= (two_128() - 1) * (two_128() - 1)) by (nonlinear_arith)
            requires
                0 <= ai < two_128(),
                0 <= bi < two_128(),
        ;
        vstd::arithmetic::div_mod::lemma_div_is_ordered(
            ai * bi,
            (two_128() - 1) * (two_128() - 1),
            two_128(),
        );
        assert((two_128() - 1) * (two_128() - 1) / two_128() < two_128());
    }
    top + (mid1 >> 64) + (mid2 >> 64) + (mid >> 64)
}

/// Quotient and remainder of `n` divided by `10^16`. The remainder is below
/// `10^16` and so fits in a `u64`.
pub fn div_rem_1e16(n: u128) -> (qr: (u128, u64))
    ensures
        qr.0 == n / D,
        qr.1 == n % D,
{
    if n < D {
        return (0, n as u64);
    }
    let hi = mulhi(n, M_HIGH);
    let quot = hi >> SH_POST;
    proof {
        assert(quot == hi / 0x8_0000_0000_0000) by (bit_vector)
            requires
                quot == hi >> 51u32,
        ;
        let q = n as int / (D as int);
        let r = n as int % (D as int);
        let e = (M_HIGH as int) * (D as int) - two_179();
        assert(e == 630438908198912);
        assert(n as int == q * (D as int) + r);
        assert(0 <= r < D);
        assert(q <= 34028236692093846346337);
        assert(n as int * (M_HIGH as int) == q * two_179() + (q * e + r * (M_HIGH as int)));
        assert(0 <= q * e + r * (M_HIGH as int) < two_179());
        vstd::arithmetic::div_mod::lemma_fundamental_div_mod_converse(
            n as int * (M_HIGH as int),
            two_179(),
            q,
            q * e + r * (M_HIGH as int),
        );
        vstd::arithmetic::div_mod::lemma_div_denominator(
            n as int * (M_HIGH as int),
            two_128(),
            0x8_0000_0000_0000,
        );
        assert(two_128() * 0x8_0000_0000_0000 == two_179());
        assert(quot == q);
    }
    let rem = (n - quot * D) as u64;
    (quot, rem)
}

} // verus!
