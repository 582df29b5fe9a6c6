//! Digit extraction by 52-bit multiply-add, lane by lane: for `n < 10^8`
//! and `c_k = floor(2^52 / 10^k)`, the low 52 bits of `c_k * (n + 1)` hold
//! the fraction `n / 10^k` scaled by `2^52`, and the top bits of ten times
//! that fraction are the decimal digit of `n` at position `k - 1`. Eight
//! lanes (k = 8 down to 1) give the eight digits of `n`, most significant
//! first.
use vstd::prelude::*;

use crate::model::{fixed_width, lemma_pow10_values, pow10, splice, ASCII_ZERO};

verus! {

/// `2^52`.
pub open spec fn two_52() -> int {
    0x10_0000_0000_0000
}

/// The digit of `n` at decimal position `i` (0 is the least significant).
pub open spec fn digit_at(n: nat, i: nat) -> nat {
    (n / pow10(i)) % 10
}

proof fn lemma_mul_sub(c: int, k: int, a: int, m: int, e: int, p: int)
    by (nonlinear_arith)
    requires
        c * k + e == p,
    ensures
        c * (a * k + m) == a * p + (c * m - a * e),
{
}

/// The digit identity behind one lane, for a divisor `k = 10 * k1` with
/// `c * k + e == p`.
proof fn lemma_lane_digit(n: int, p: int, k: int, k1: int, c: int, e: int, big_n: int)
    requires
        k == 10 * k1,
        k1 >= 1,
        c * k + e == p,
        0 < e < k,
        e * big_n + e <= p,
        10 * big_n <= p,
        k <= big_n,
        0 <= n < big_n,
    ensures
        (10 * ((c * (n + 1)) % p)) / p == (n / k1) % 10,
{
    let x = n + 1;
    let a = x / k;
    let m = x % k;
    vstd::arithmetic::div_mod::lemma_fundamental_div_mod(x, k);
    assert(x == a * k + m) by {
        vstd::arithmetic::mul::lemma_mul_is_commutative(a, k);
    }
    assert(0 <= m < k);
    assert(a >= 0) by {
        vstd::arithmetic::div_mod::lemma_div_pos_is_pos(x, k);
    }
    lemma_mul_sub(c, k, a, m, e, p);
    assert(c * x == a * p + (c * m - a * e));
    assert(a * k <= big_n);
    assert(a * e * k <= big_n * e) by (nonlinear_arith)
        requires
            a * k <= big_n,
            e > 0,
            a >= 0,
    ;
    assert(c >= 1) by (nonlinear_arith)
        requires
            c * k + e == p,
            e < k,
            10 * big_n <= p,
            k >= 10,
            k <= big_n,
    ;
    if m >= 1 {
        // The remainder term is non-negative and below p.
        assert(c * m * k >= c * k) by (nonlinear_arith)
            requires
                m >= 1,
                c >= 1,
                k >= 1,
        ;
        assert(c * m * k >= a * e * k) by (nonlinear_arith)
            requires
                c * m * k >= c * k,
                c * k + e == p,
                e * big_n + e <= p,
                a * e * k <= big_n * e,
        ;
        assert(c * m >= a * e) by (nonlinear_arith)
            requires
                c * m * k >= a * e * k,
                k > 0,
        ;
        assert(c * m < p) by (nonlinear_arith)
            requires
                m < k,
                c >= 1,
                c * k + e == p,
                e > 0,
        ;
        let y = c * m - a * e;
        vstd::arithmetic::div_mod::lemma_fundamental_div_mod_converse(c * x, p, a, y);
        // Split m - 1 by k1.
        let q1 = (m - 1) / k1;
        let s1 = (m - 1) % k1;
        vstd::arithmetic::div_mod::lemma_fundamental_div_mod(m - 1, k1);
        assert(m - 1 == q1 * k1 + s1) by {
            vstd::arithmetic::mul::lemma_mul_is_commutative(q1, k1);
        }
        assert(0 <= s1 < k1);
        assert(0 <= q1 < 10) by (nonlinear_arith)
            requires
                m - 1 == q1 * k1 + s1,
                0 <= s1 < k1,
                0 <= m - 1 < k,
                k == 10 * k1,
        ;
        // 10 * y * k == 10 * (m * p - e * x)
        assert(10 * y * k == 10 * (m * p - e * x)) by (nonlinear_arith)
            requires
                y == c * m - a * e,
                c * k + e == p,
                x == a * k + m,
        ;
        assert(e * x <= e * big_n) by (nonlinear_arith)
            requires
                x <= big_n,
                e > 0,
        ;
        assert(e * x > 0) by (nonlinear_arith)
            requires
                x >= 1,
                e > 0,
        ;
        assert(m * p - e * x == q1 * k1 * p + ((s1 + 1) * p - e * x)) by (nonlinear_arith)
            requires
                m == q1 * k1 + s1 + 1,
        ;
        assert((s1 + 1) * p >= p) by (nonlinear_arith)
            requires
                s1 >= 0,
                p > 0,
        ;
        assert((s1 + 1) * p <= k1 * p) by (nonlinear_arith)
            requires
                s1 + 1 <= k1,
                p > 0,
        ;
        let t = q1 * k1 * p;
        let rest = (s1 + 1) * p - e * x;
        assert(q1 * p * k == 10 * t) by (nonlinear_arith)
            requires
                t == q1 * k1 * p,
                k == 10 * k1,
        ;
        assert((q1 + 1) * p * k == 10 * t + 10 * (k1 * p)) by (nonlinear_arith)
            requires
                t == q1 * k1 * p,
                k == 10 * k1,
        ;
        assert(0 <= rest < k1 * p);
        assert(q1 * p * k <= 10 * y * k < (q1 + 1) * p * k);
        assert(q1 * p <= 10 * y < (q1 + 1) * p) by (nonlinear_arith)
            requires
                q1 * p * k <= 10 * y * k < (q1 + 1) * p * k,
                k > 0,
        ;
        assert((q1 + 1) * p == q1 * p + p) by (nonlinear_arith);
        vstd::arithmetic::div_mod::lemma_fundamental_div_mod_converse(
            10 * y,
            p,
            q1,
            10 * y - q1 * p,
        );
        // The digit of n.
        assert(n == (10 * a + q1) * k1 + s1) by (nonlinear_arith)
            requires
                n == x - 1,
                x == a * k + m,
                m - 1 == q1 * k1 + s1,
                k == 10 * k1,
        ;
        vstd::arithmetic::div_mod::lemma_fundamental_div_mod_converse(n, k1, 10 * a + q1, s1);
        vstd::arithmetic::div_mod::lemma_fundamental_div_mod_converse(10 * a + q1, 10, a, q1);
    } else {
        assert(a >= 1) by {
            if a == 0 {
                assert(a * k == 0) by (nonlinear_arith)
                    requires
                        a == 0,
                ;
            }
        }
        assert(a * e < a * k) by (nonlinear_arith)
            requires
                a >= 1,
                e < k,
        ;
        assert(0 < a * e) by (nonlinear_arith)
            requires
                a >= 1,
                e > 0,
        ;
        let y = p - a * e;
        assert(c * x == (a - 1) * p + y) by (nonlinear_arith)
            requires
                c * x == a * p + (c * m - a * e),
                m == 0,
                y == p - a * e,
        ;
        vstd::arithmetic::div_mod::lemma_fundamental_div_mod_converse(c * x, p, a - 1, y);
        vstd::arithmetic::div_mod::lemma_fundamental_div_mod_converse(10 * y, p, 9, 10 * y - 9 * p);
        assert(n == (10 * (a - 1) + 9) * k1 + (k1 - 1)) by (nonlinear_arith)
            requires
                n == x - 1,
                x == a * k,
                k == 10 * k1,
        ;
        vstd::arithmetic::div_mod::lemma_fundamental_div_mod_converse(
            n,
            k1,
            10 * (a - 1) + 9,
            k1 - 1,
        );
        vstd::arithmetic::div_mod::lemma_fundamental_div_mod_converse(
            10 * (a - 1) + 9,
            10,
            a - 1,
            9,
        );
    }
}

/// The lane identity for `k = 1..=8` with the coefficient `floor(2^52 / 10^k)`.
proof fn lemma_lane(n: nat, k: nat)
    requires
        1 <= k <= 8,
        n < 100000000,
    ensures
        (10 * ((two_52() / (pow10(k) as int) * (n + 1)) % two_52())) / two_52() == digit_at(n, (k - 1) as nat),
{
    lemma_pow10_values();
    let p = two_52();
    let kk = pow10(k) as int;
    let k1 = pow10((k - 1) as nat) as int;
    assert(kk == 10 * k1);
    let c = p / kk;
    let e = p % kk;
    if k == 1 {
        vstd::arithmetic::div_mod::lemma_fundamental_div_mod_converse(p, kk, 450359962737049, 6);
    } else if k == 2 {
        vstd::arithmetic::div_mod::lemma_fundamental_div_mod_converse(p, kk, 45035996273704, 96);
    } else if k == 3 {
        vstd::arithmetic::div_mod::lemma_fundamental_div_mod_converse(p, kk, 4503599627370, 496);
    } else if k == 4 {
        vstd::arithmetic::div_mod::lemma_fundamental_div_mod_converse(p, kk, 450359962737, 496);
    } else if k == 5 {
        vstd::arithmetic::div_mod::lemma_fundamental_div_mod_converse(p, kk, 45035996273, 70496);
    } else if k == 6 {
        vstd::arithmetic::div_mod::lemma_fundamental_div_mod_converse(p, kk, 4503599627, 370496);
    } else if k == 7 {
        vstd::arithmetic::div_mod::lemma_fundamental_div_mod_converse(p, kk, 450359962, 7370496);
    } else if k == 8 {
        vstd::arithmetic::div_mod::lemma_fundamental_div_mod_converse(p, kk, 45035996, 27370496);
    }
    assert(c * kk + e == p && 0 < e < kk && e * 100000000 + e <= p && kk <= 100000000);
    lemma_lane_digit(n as int, p, kk, k1, c, e, 100000000);
}

/// `floor(2^52 / 10^(8 - lane))`: the coefficient of lane `lane` of the
/// eight-digit kernel (lane 0 yields the most significant digit).
pub fn ifma_coefficient(lane: usize) -> (c: u64)
    requires
        lane < 8,
    ensures
        c == two_52() / (pow10((8 - lane) as nat) as int),
        c < 0x10_0000_0000_0000,
{
    proof {
        lemma_pow10_values();
    }
    match lane {
        0 => {
            proof {
                vstd::arithmetic::div_mod::lemma_fundamental_div_mod_converse(two_52(), pow10(8) as int, 45035996, 27370496);
            }
            45035996
        },
        1 => {
            proof {
                vstd::arithmetic::div_mod::lemma_fundamental_div_mod_converse(two_52(), pow10(7) as int, 450359962, 7370496);
            }
            450359962
        },
        2 => {
            proof {
                vstd::arithmetic::div_mod::lemma_fundamental_div_mod_converse(two_52(), pow10(6) as int, 4503599627, 370496);
            }
            4503599627
        },
        3 => {
            proof {
                vstd::arithmetic::div_mod::lemma_fundamental_div_mod_converse(two_52(), pow10(5) as int, 45035996273, 70496);
            }
            45035996273
        },
        4 => {
            proof {
                vstd::arithmetic::div_mod::lemma_fundamental_div_mod_converse(two_52(), pow10(4) as int, 450359962737, 496);
            }
            450359962737
        },
        5 => {
            proof {
                vstd::arithmetic::div_mod::lemma_fundamental_div_mod_converse(two_52(), pow10(3) as int, 4503599627370, 496);
            }
            4503599627370
        },
        6 => {
            proof {
                vstd::arithmetic::div_mod::lemma_fundamental_div_mod_converse(two_52(), pow10(2) as int, 45035996273704, 96);
            }
            45035996273704
        },
        _ => {
            proof {
                vstd::arithmetic::div_mod::lemma_fundamental_div_mod_converse(two_52(), pow10(1) as int, 450359962737049, 6);
            }
            450359962737049
        },
    }
}

/// One lane of the eight-digit kernel: a 52-bit multiply-add of `c` and `n`
/// with `c` as addend (keeping the low 52 bits, which hold
/// `c * (n + 1) mod 2^52`), then the high bits of ten times that, plus `'0'`.
pub fn ifma_lane(c: u64, n: u64) -> (d: u8)
    requires
        c < 0x10_0000_0000_0000,
        n < 0x10_0000_0000_0000,
    ensures
        d == (48 + (10 * ((c * (n + 1)) % two_52())) / two_52()) as u8,
{
    proof {
        assert((c as u128) * (n as u128) < 0x100_0000_0000_0000_0000_0000_0000) by (nonlinear_arith)
            requires
                c < 0x10_0000_0000_0000,
                n < 0x10_0000_0000_0000,
        ;
    }
    let prod = (c as u128) * (n as u128);
    let low = c + (prod % 0x10_0000_0000_0000) as u64;
    let low52 = low % 0x10_0000_0000_0000;
    let hi = ((10 * (low52 as u128)) / 0x10_0000_0000_0000) as u64;
    proof {
        vstd::arithmetic::div_mod::lemma_add_mod_noop_right(c as int, (c * n) as int, two_52());
        assert(c * (n + 1) == c + c * n) by (nonlinear_arith);
        assert(hi < 10);
    }
    ASCII_ZERO + hi as u8
}

/// The eight ASCII digits of `n < 10^8`, most significant first (leading
/// zeros included): one kernel lane per digit.
pub fn to_string_8digits(n: u64) -> (digits: [u8; 8])
    requires
        n < 100000000,
    ensures
        digits@ == fixed_width(n as nat, 8),
{
    let mut digits = [0u8; 8];
    let mut lane: usize = 0;
    while lane < 8
        invariant
            n < 100000000,
            lane <= 8,
            digits@.len() == 8,
            forall|j: int| 0 <= j < lane ==> digits@[j] == fixed_width(n as nat, 8)[j],
        decreases 8 - lane,
    {
        let c = ifma_coefficient(lane);
        proof {
            lemma_pow10_values();
            crate::model::lemma_pow10_monotone(1, (8 - lane) as nat);
            lemma_lane(n as nat, (8 - lane) as nat);
            crate::model::lemma_fixed_width_index(n as nat, 8, lane as int);
        }
        digits[lane] = ifma_lane(c, n);
        lane = lane + 1;
    }
    proof {
        crate::model::lemma_fixed_width_len(n as nat, 8);
        assert(digits@ =~= fixed_width(n as nat, 8));
    }
    digits
}

/// The sixteen ASCII digits of `hi8 * 10^8 + lo8` (for `hi8, lo8 < 10^8`): the
/// eight digits of `hi8` followed by the eight digits of `lo8`.
pub fn to_string_16digits(hi8: u64, lo8: u64) -> (digits: [u8; 16])
    requires
        hi8 < 100000000,
        lo8 < 100000000,
    ensures
        digits@ == fixed_width(hi8 as nat, 8) + fixed_width(lo8 as nat, 8),
{
    let hi = to_string_8digits(hi8);
    let lo = to_string_8digits(lo8);
    let mut digits = [0u8; 16];
    let mut i: usize = 0;
    while i < 8
        invariant
            i <= 8,
            digits@.len() == 16,
            hi@.len() == 8,
            lo@.len() == 8,
            forall|j: int| 0 <= j < i ==> digits@[j] == hi@[j] && digits@[j + 8] == lo@[j],
        decreases 8 - i,
    {
        digits[i] = hi[i];
        digits[i + 8] = lo[i];
        i = i + 1;
    }
    proof {
        assert(digits@ =~= hi@ + lo@);
    }
    digits
}

/// The sixteen-digit text of `v < 10^16` is its high eight digits followed by
/// its low eight digits.
pub proof fn lemma_sixteen_split(v: nat)
    requires
        v < 10000000000000000,
    ensures
        v / 100000000 < 100000000,
        fixed_width(v, 16) == fixed_width(v / 100000000, 8) + fixed_width(v % 100000000, 8),
{
    lemma_pow10_values();
    crate::model::lemma_fixed_width_split(v, 8, 8);
    crate::model::lemma_fixed_width_mod(v, 8);
}

/// Writes the last `n` bytes of `digits` to `out[start..start + n]`: the byte
/// mask of a store that keeps only the significant digits.
pub fn store_last(digits: &[u8], n: usize, out: &mut [u8], start: usize)
    requires
        n <= digits@.len(),
        start + n <= old(out)@.len(),
    ensures
        final(out)@ == splice(
            old(out)@,
            start as int,
            digits@.subrange(digits@.len() - n, digits@.len() as int),
        ),
{
    let w = digits.len();
    let mut i: usize = 0;
    proof {
        assert(start + n <= out.len());
    }
    while i < n
        invariant
            w == digits@.len(),
            n <= w,
            i <= n,
            start + n <= out.len(),
            out@.len() == old(out)@.len(),
            forall|j: int| 0 <= j < out@.len() && !(start <= j < start + i) ==> out@[j] == old(out)@[j],
            forall|j: int| start <= j < start + i ==> #[trigger] out@[j] == digits@[j - start + w - n],
        decreases n - i,
    {
        out[start + i] = digits[w - n + i];
        i = i + 1;
    }
    proof {
        assert(final(out)@ =~= splice(
            old(out)@,
            start as int,
            digits@.subrange(digits@.len() - n, digits@.len() as int),
        ));
    }
}

/// The last `n` digits of a `w`-digit fixed-width text of a number with `n`
/// digits are its decimal text.
pub proof fn lemma_tail_is_decimal(v: nat, w: nat, n: nat)
    requires
        n == crate::model::num_digits(v),
        n <= w,
    ensures
        fixed_width(v, w).subrange(w - n, w as int) == crate::model::decimal(v),
{
    crate::model::lemma_fixed_width_split(v, (w - n) as nat, n);
    crate::model::lemma_fixed_width_len(v / pow10(n), (w - n) as nat);
    crate::model::lemma_fixed_width_len(v, n);
    assert(((w - n) + n) as nat == w);
    assert(fixed_width(v, w).subrange(w - n, w as int) =~= fixed_width(v, n));
}

/// Writes the decimal text of `value < 10^8` (whose digit count is `n`) at
/// `out[start..start + n]`: one eight-digit kernel run, then the last `n`
/// digits stored.
pub fn u32_le_1e8(value: u32, n: usize, out: &mut [u8], start: usize)
    requires
        value < 100000000,
        n == crate::model::num_digits(value as nat),
        start + n <= old(out)@.len(),
    ensures
        final(out)@ == splice(old(out)@, start as int, crate::model::decimal(value as nat)),
{
    let lanes = to_string_8digits(value as u64);
    proof {
        crate::model::lemma_num_digits_le(value as nat, 8);
        lemma_pow10_values();
        lemma_tail_is_decimal(value as nat, 8, n as nat);
    }
    store_last(lanes.as_slice(), n, out, start);
}

/// Writes exactly sixteen ASCII digits of `value < 10^16` (leading zeros
/// included) at `out[pos..pos + 16]`.
pub fn write_16_digits_unmasked(value: u64, out: &mut [u8], pos: usize)
    requires
        value < 10000000000000000,
        pos + 16 <= old(out)@.len(),
    ensures
        final(out)@ == splice(old(out)@, pos as int, fixed_width(value as nat, 16)),
{
    proof {
        lemma_sixteen_split(value as nat);
    }
    let digits = to_string_16digits(value / 100_000_000, value % 100_000_000);
    store_last(digits.as_slice(), 16, out, pos);
    proof {
        assert(digits@.subrange(0, 16) =~= digits@);
    }
}

} // verus!
