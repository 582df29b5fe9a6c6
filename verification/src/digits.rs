//! Digit counting and the small digit writers shared by the formatting paths.
use vstd::prelude::*;

use crate::model::{
    ASCII_ZERO,    decimal, fixed_width, lemma_fixed_width_len, lemma_fixed_width_one, lemma_fixed_width_two,
    lemma_num_digits_bounds, lemma_num_digits_of_width, lemma_num_digits_unique, lemma_pow10_values,
    num_digits, pow10, splice,
};

verus! {

/// Calls `u64::ilog10`. Its documentation: the logarithm of the number with
/// respect to base 10, rounded down; it panics when the number is zero. The
/// contract states the rounding-down property and keeps zero out.
#[verifier::external_body]
fn ilog10_u64(n: u64) -> (r: u32)
    requires
        n > 0,
    ensures
        pow10(r as nat) <= n < pow10(r as nat + 1),
{
    n.ilog10()
}

/// Calls `u32::ilog10`. Its documentation: the logarithm of the number with
/// respect to base 10, rounded down; it panics when the number is zero. The
/// contract states the rounding-down property and keeps zero out.
#[verifier::external_body]
pub(crate) fn ilog10_u32(n: u32) -> (r: u32)
    requires
        n > 0,
    ensures
        pow10(r as nat) <= n < pow10(r as nat + 1),
{
    n.ilog10()
}

/// Returns the number of decimal digits in `n` (1 for `n == 0`).
pub fn count_digits(n: u64) -> (r: u32)
    ensures
        r == num_digits(n as nat),
        1 <= r <= 20,
{
    proof {
        lemma_num_digits_of_width(n as nat);
        lemma_num_digits_bounds(n as nat);
    }
    if n == 0 {
        1
    } else {
        let r = ilog10_u64(n);
        proof {
            lemma_num_digits_unique(n as nat, r as nat);
        }
        r + 1
    }
}

/// Number of decimal digits of a `u32` (1 for `0`).
pub(crate) fn count_digits_u32(v: u32) -> (r: usize)
    ensures
        r == num_digits(v as nat),
        1 <= r <= 10,
{
    proof {
        lemma_num_digits_of_width(v as nat);
        lemma_num_digits_bounds(v as nat);
    }
    if v == 0 {
        1
    } else {
        let r = ilog10_u32(v);
        proof {
            lemma_num_digits_unique(v as nat, r as nat);
        }
        (r + 1) as usize
    }
}

/// Writes exactly four ASCII digits of `r` (leading zeros included) at
/// `out[pos..pos + 4]`.
pub fn write_four_digits_10000(out: &mut [u8], pos: usize, r: u32)
    requires
        r <= 9999,
        pos + 4 <= old(out)@.len(),
    ensures
        final(out)@ == splice(old(out)@, pos as int, fixed_width(r as nat, 4)),
{
    let hi = r / 100;
    let lo = r % 100;
    out[pos] = ASCII_ZERO + (hi / 10) as u8;
    out[pos + 1] = ASCII_ZERO + (hi % 10) as u8;
    out[pos + 2] = ASCII_ZERO + (lo / 10) as u8;
    out[pos + 3] = ASCII_ZERO + (lo % 10) as u8;
    proof {
        lemma_fixed_width_two(r as nat, 2);
        lemma_fixed_width_two(r as nat / 100, 0);
        lemma_fixed_width_len(r as nat, 4);
        assert(fixed_width(r as nat / 100 / 100, 0) =~= Seq::<u8>::empty());
        assert(final(out)@ =~= splice(old(out)@, pos as int, fixed_width(r as nat, 4)));
    }
}

/// Writes the decimal text of `q` (one to four digits, no leading zero) at
/// `out[pos..]` and returns the number of bytes written.
pub fn write_one_two_three_or_four_digits_10000(out: &mut [u8], pos: usize, q: u32) -> (k: usize)
    requires
        q <= 9999,
        pos + num_digits(q as nat) <= old(out)@.len(),
    ensures
        k == num_digits(q as nat),
        final(out)@ == splice(old(out)@, pos as int, decimal(q as nat)),
{
    proof {
        lemma_pow10_values();
    }
    if q < 10 {
        out[pos] = ASCII_ZERO + q as u8;
        proof {
            lemma_fixed_width_one(q as nat);
            assert(final(out)@ =~= splice(old(out)@, pos as int, decimal(q as nat)));
        }
        1
    } else if q < 100 {
        proof {
            lemma_num_digits_unique(q as nat, 1);
        }
        out[pos] = ASCII_ZERO + (q / 10) as u8;
        out[pos + 1] = ASCII_ZERO + (q % 10) as u8;
        proof {
            lemma_num_digits_unique(q as nat, 1);
            lemma_fixed_width_two(q as nat, 0);
            assert(fixed_width(q as nat / 100, 0) =~= Seq::<u8>::empty());
            assert(final(out)@ =~= splice(old(out)@, pos as int, decimal(q as nat)));
        }
        2
    } else if q < 1000 {
        let lo = q % 100;
        proof {
            lemma_num_digits_unique(q as nat, 2);
        }
        out[pos] = ASCII_ZERO + (q / 100) as u8;
        out[pos + 1] = ASCII_ZERO + (lo / 10) as u8;
        out[pos + 2] = ASCII_ZERO + (lo % 10) as u8;
        proof {
            lemma_num_digits_unique(q as nat, 2);
            lemma_fixed_width_two(q as nat, 1);
            lemma_fixed_width_one(q as nat / 100);
            assert(final(out)@ =~= splice(old(out)@, pos as int, decimal(q as nat)));
        }
        3
    } else {
        proof {
            lemma_num_digits_unique(q as nat, 3);
        }
        write_four_digits_10000(out, pos, q);
        4
    }
}

} // verus!
