//! Portable decimal writers: two digits per step, written right to left,
//! with no multiply-add kernel. They serve as the plain reference the kernel
//! paths are checked against.
use vstd::prelude::*;

use crate::model::{
    decimal, fixed_width, lemma_fixed_width_len, lemma_fixed_width_one, lemma_fixed_width_two,
    num_digits, splice, ASCII_ZERO,
};

verus! {

/// Writes the decimal text of `value` into `out[start..start + n]`, where `n`
/// is its digit count; the rest of `out` is left as it was.
pub fn scalar_to_chars_at(value: u64, n: usize, out: &mut [u8], start: usize)
    requires
        n == num_digits(value as nat),
        start + n <= old(out)@.len(),
    ensures
        final(out)@ == splice(old(out)@, start as int, decimal(value as nat)),
{
    let ghost full = fixed_width(value as nat, n as nat);
    let mut v = value;
    let mut i = n;
    while v >= 100
        invariant
            start + n <= old(out)@.len(),
            out@.len() == old(out)@.len(),
            start + n <= out.len(),
            i <= n,
            num_digits(v as nat) == i,
            full == fixed_width(v as nat, i as nat) + out@.subrange(start + i, start + n),
            full == fixed_width(value as nat, n as nat),
            forall|j: int|
                0 <= j < out@.len() && !(start + i <= j < start + n) ==> out@[j] == old(out)@[j],
        decreases v,
    {
        let idx = v % 100;
        let ghost before = out@;
        proof {
            lemma_fixed_width_two(v as nat, (i - 2) as nat);
            assert(num_digits(v as nat) == 1 + num_digits(v as nat / 10));
            assert(num_digits(v as nat / 10) == 1 + num_digits(v as nat / 10 / 10));
        }
        v = v / 100;
        i = i - 2;
        out[start + i] = ASCII_ZERO + (idx / 10) as u8;
        out[start + i + 1] = ASCII_ZERO + (idx % 10) as u8;
        proof {
            assert(out@.subrange(start + i, start + n) =~= seq![
                (48 + idx / 10) as u8,
                (48 + idx % 10) as u8,
            ] + before.subrange(start + i + 2, start + n));
        }
    }
    if v >= 10 {
        proof {
            assert(num_digits(v as nat) == 1 + num_digits(v as nat / 10));
            lemma_fixed_width_two(v as nat, 0);
            assert(fixed_width(v as nat / 100, 0) =~= Seq::<u8>::empty());
        }
        let ghost before = out@;
        out[start] = ASCII_ZERO + (v / 10) as u8;
        out[start + 1] = ASCII_ZERO + (v % 10) as u8;
        proof {
            assert(out@.subrange(start as int, start + n) =~= seq![
                (48 + v / 10) as u8,
                (48 + v % 10) as u8,
            ] + before.subrange(start + 2, start + n));
        }
    } else {
        proof {
            lemma_fixed_width_one(v as nat);
        }
        let ghost before = out@;
        out[start] = ASCII_ZERO + v as u8;
        proof {
            assert(out@.subrange(start as int, start + n) =~= seq![(48 + v) as u8]
                + before.subrange(start + 1, start + n));
        }
    }
    proof {
        lemma_fixed_width_len(value as nat, n as nat);
        assert(final(out)@ =~= splice(old(out)@, start as int, decimal(value as nat)));
    }
}

/// Writes the decimal text of `value` into `out[0..n]`, where `n` is its digit
/// count; the rest of `out` is left as it was.
pub fn scalar_to_chars(value: u64, n: usize, out: &mut [u8])
    requires
        n == num_digits(value as nat),
        n <= old(out)@.len(),
    ensures
        final(out)@ == splice(old(out)@, 0, decimal(value as nat)),
{
    scalar_to_chars_at(value, n, out, 0);
}

/// Writes the decimal text of a `u128` (whose digit count is `n`) into
/// `out[0..n]`, two digits per step from the right.
pub fn scalar_u128_to_chars(value: u128, n: usize, out: &mut [u8])
    requires
        n == num_digits(value as nat),
        n <= old(out)@.len(),
    ensures
        final(out)@ == splice(old(out)@, 0, decimal(value as nat)),
{
    let ghost full = fixed_width(value as nat, n as nat);
    let mut v = value;
    let mut i = n;
    while v >= 100
        invariant
            n <= old(out)@.len(),
            out@.len() == old(out)@.len(),
            n <= out.len(),
            i <= n,
            num_digits(v as nat) == i,
            full == fixed_width(v as nat, i as nat) + out@.subrange(i as int, n as int),
            full == fixed_width(value as nat, n as nat),
            forall|j: int| 0 <= j < out@.len() && !(i <= j < n) ==> out@[j] == old(out)@[j],
        decreases v,
    {
        let idx = v % 100;
        let ghost before = out@;
        proof {
            lemma_fixed_width_two(v as nat, (i - 2) as nat);
            assert(num_digits(v as nat) == 1 + num_digits(v as nat / 10));
            assert(num_digits(v as nat / 10) == 1 + num_digits(v as nat / 10 / 10));
        }
        v = v / 100;
        i = i - 2;
        out[i] = ASCII_ZERO + (idx / 10) as u8;
        out[i + 1] = ASCII_ZERO + (idx % 10) as u8;
        proof {
            assert(out@.subrange(i as int, n as int) =~= seq![
                (48 + idx / 10) as u8,
                (48 + idx % 10) as u8,
            ] + before.subrange(i + 2, n as int));
        }
    }
    if v >= 10 {
        proof {
            assert(num_digits(v as nat) == 1 + num_digits(v as nat / 10));
            lemma_fixed_width_two(v as nat, 0);
            assert(fixed_width(v as nat / 100, 0) =~= Seq::<u8>::empty());
        }
        let ghost before = out@;
        out[0] = ASCII_ZERO + (v / 10) as u8;
        out[1] = ASCII_ZERO + (v % 10) as u8;
        proof {
            assert(out@.subrange(0, n as int) =~= seq![(48 + v / 10) as u8, (48 + v % 10) as u8]
                + before.subrange(2, n as int));
        }
    } else {
        proof {
            lemma_fixed_width_one(v as nat);
        }
        let ghost before = out@;
        out[0] = ASCII_ZERO + v as u8;
        proof {
            assert(out@.subrange(0, n as int) =~= seq![(48 + v) as u8] + before.subrange(
                1,
                n as int,
            ));
        }
    }
    proof {
        lemma_fixed_width_len(value as nat, n as nat);
        assert(final(out)@ =~= splice(old(out)@, 0, decimal(value as nat)));
    }
}

} // verus!
