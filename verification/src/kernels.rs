//! The two conversion shapes used by the single-value and batch paths:
//! the heterogeneous shape (any length; values of 17 to 20 digits are split
//! into a high part and a fixed four-digit tail) and the homogeneous shape
//! for values of 17 to 20 digits (a one-to-four-digit head followed by a
//! fixed sixteen-digit tail).
use vstd::prelude::*;

use crate::digits::{write_four_digits_10000, write_one_two_three_or_four_digits_10000};
use crate::ifma::{
    lemma_sixteen_split, lemma_tail_is_decimal, store_last, to_string_16digits,
    write_16_digits_unmasked,
};
use crate::model::{
    decimal, fixed_width, lemma_fixed_width_len, lemma_fixed_width_mod, lemma_fixed_width_split,
    lemma_num_digits_shift, lemma_pow10_values, num_digits, pow10, splice,
};

verus! {

/// Writing `a` at `start` and then `b` right after it is writing `a + b` at `start`.
pub proof fn lemma_splice_concat(s: Seq<u8>, start: int, a: Seq<u8>, b: Seq<u8>)
    requires
        0 <= start,
        start + a.len() + b.len() <= s.len(),
    ensures
        splice(splice(s, start, a), start + a.len(), b) =~= splice(s, start, a + b),
{
}

/// The text of `value` is the text of `value / 10^k` followed by its last `k`
/// digits, when `value >= 10^k`.
pub proof fn lemma_decimal_split(value: nat, k: nat)
    requires
        value >= pow10(k),
    ensures
        value / pow10(k) >= 1,
        num_digits(value) == num_digits(value / pow10(k)) + k,
        decimal(value) =~= decimal(value / pow10(k)) + fixed_width(value % pow10(k), k),
{
    let p = pow10(k);
    let q = value / p;
    let r = value % p;
    crate::model::lemma_pow10_positive(k);
    vstd::arithmetic::div_mod::lemma_fundamental_div_mod(value as int, p as int);
    vstd::arithmetic::div_mod::lemma_div_pos_is_pos(value as int, p as int);
    vstd::arithmetic::div_mod::lemma_mod_bound(value as int, p as int);
    assert(q >= 1) by {
        if q == 0 {
            assert(p * q == 0) by (nonlinear_arith)
                requires
                    q == 0,
            ;
            assert(value == r);
        }
    }
    assert(value == q * p + r) by {
        vstd::arithmetic::mul::lemma_mul_is_commutative(q as int, p as int);
    }
    lemma_num_digits_shift(q, k, r);
    lemma_fixed_width_split(value, num_digits(q), k);
    lemma_fixed_width_mod(value, k);
}

/// Heterogeneous shape: values below `10^16` are written as the significant
/// digits of one sixteen-digit kernel run; longer values as those of
/// `value / 10^4` followed by the four-digit tail `value % 10^4`. Returns `n`.
pub fn heterogeneous(value: u64, n: usize, out: &mut [u8], start: usize) -> (k: usize)
    requires
        n == num_digits(value as nat),
        start + n <= old(out)@.len(),
    ensures
        k == n,
        final(out)@ == splice(old(out)@, start as int, decimal(value as nat)),
{
    proof {
        lemma_pow10_values();
        assert(start + n <= out.len());
    }
    if value < 10_000_000_000_000_000u64 {
        proof {
            lemma_sixteen_split(value as nat);
            crate::model::lemma_num_digits_le(value as nat, 16);
            lemma_tail_is_decimal(value as nat, 16, n as nat);
        }
        let digits_15_0 = to_string_16digits(value / 100_000_000, value % 100_000_000);
        store_last(digits_15_0.as_slice(), n, out, start);
        return n;
    }
    let q = value / 10_000;
    let r = (value % 10_000) as u32;
    proof {
        lemma_decimal_split(value as nat, 4);
        crate::model::lemma_num_digits_of_width(value as nat);
        crate::model::lemma_num_digits_le(q as nat, 16);
        lemma_sixteen_split(q as nat);
        lemma_tail_is_decimal(q as nat, 16, (n - 4) as nat);
    }
    let nq = n - 4;
    let v16 = to_string_16digits(q / 100_000_000, q % 100_000_000);
    store_last(v16.as_slice(), nq, out, start);
    write_four_digits_10000(out, start + nq, r);
    proof {
        lemma_fixed_width_len(q as nat, num_digits(q as nat));
        lemma_fixed_width_len(r as nat, 4);
        lemma_splice_concat(old(out)@, start as int, decimal(q as nat), fixed_width(r as nat, 4));
    }
    n
}

/// Homogeneous shape for values of 17 to 20 digits: the head
/// `value / 10^16` (one to four digits) followed by the sixteen-digit tail
/// `value % 10^16`. Returns `n`.
pub fn homogeneous_17_20(value: u64, n: usize, out: &mut [u8], start: usize) -> (k: usize)
    requires
        value >= 10_000_000_000_000_000,
        n == num_digits(value as nat),
        start + n <= old(out)@.len(),
    ensures
        k == n,
        final(out)@ == splice(old(out)@, start as int, decimal(value as nat)),
{
    proof {
        lemma_pow10_values();
        lemma_decimal_split(value as nat, 16);
        assert(start + n <= out.len());
    }
    let q = value / 10_000_000_000_000_000;
    let r_lo16 = value % 10_000_000_000_000_000;
    let prefix_len = write_one_two_three_or_four_digits_10000(out, start, q as u32);
    write_16_digits_unmasked(r_lo16, out, start + prefix_len);
    proof {
        lemma_fixed_width_len(q as nat, num_digits(q as nat));
        lemma_fixed_width_len(r_lo16 as nat, 16);
        lemma_splice_concat(
            old(out)@,
            start as int,
            decimal(q as nat),
            fixed_width(r_lo16 as nat, 16),
        );
    }
    n
}

} // verus!
