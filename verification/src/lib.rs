//! Decimal formatting of unsigned integers into byte buffers, with a batch
//! API that writes many values back to back and records their offsets.
pub mod batch;
pub mod digits;
pub mod error;
pub mod ifma;
pub mod kernels;
pub mod laws;
pub mod model;
pub mod reference;
pub mod scalar;
pub mod sealed;
pub mod selector;
pub mod support;
pub mod u128_div;

pub use batch::{fmt_batch, fmt_batch_joined, fmt_batch_using};
pub use digits::count_digits;
pub use error::Error;

use vstd::prelude::*;

use crate::digits::count_digits_u32;
use crate::ifma::{
    lemma_sixteen_split, lemma_tail_is_decimal, store_last, to_string_16digits, u32_le_1e8,
    write_16_digits_unmasked,
};
use crate::kernels::{heterogeneous, lemma_decimal_split, lemma_splice_concat};
use crate::model::{
    decimal, fixed_width, lemma_fixed_width_len, lemma_num_digits_le, lemma_num_digits_of_width,
    lemma_pow10_values, num_digits, pow10, splice,
};
use crate::sealed::Sealed;
use crate::u128_div::{div_rem_1e16, D};

verus! {

/// The outcome of formatting `value` into a buffer holding `before`: when the
/// buffer has room for all digits, the digit count is returned and the digits
/// replace the buffer's first bytes; otherwise `BufferTooSmall` is returned and
/// the buffer is left as it was.
pub open spec fn formats(value: nat, before: Seq<u8>, after: Seq<u8>, r: Result<usize, Error>) -> bool {
    if num_digits(value) <= before.len() {
        &&& r == Ok::<usize, Error>(num_digits(value) as usize)
        &&& after == splice(before, 0, decimal(value))
    } else {
        &&& r == Err::<usize, Error>(
            Error::BufferTooSmall { need: num_digits(value) as usize, have: before.len() as usize },
        )
        &&& after == before
    }
}

/// Decimal digit count of `n` (1 for `n == 0`).
pub fn digit_count(n: u64) -> (r: u32)
    ensures
        r == num_digits(n as nat),
        1 <= r <= 20,
{
    digits::count_digits(n)
}

/// Whether AVX-512 IFMA instructions are used: the multiply-add kernels of
/// this crate run lane by lane in portable code, so this is `false`.
pub const HAS_AVX512_IFMA: bool = false;

/// Writes the decimal text of `value` (whose digit count is `n`) at
/// `out[start..start + n]`; the rest of `out` is left as it was.
pub(crate) fn dispatch_simd(value: u64, n: usize, out: &mut [u8], start: usize)
    requires
        n == num_digits(value as nat),
        start + n <= old(out)@.len(),
    ensures
        final(out)@ == splice(old(out)@, start as int, decimal(value as nat)),
{
    heterogeneous(value, n, out, start);
}

/// Writes the decimal text of `value` (whose digit count is `n`) at
/// `out[start..start + n]`: the eight-digit kernel for values below `10^8`,
/// the heterogeneous shape for the rest.
fn write_u64_digits(value: u64, n: usize, out: &mut [u8], start: usize)
    requires
        n == num_digits(value as nat),
        start + n <= old(out)@.len(),
    ensures
        final(out)@ == splice(old(out)@, start as int, decimal(value as nat)),
{
    if value < 100_000_000u64 {
        u32_le_1e8(value as u32, n, out, start);
    } else {
        dispatch_simd(value, n, out, start);
    }
}

/// Formats a `u64`: digit count, room check, then the eight-digit kernel for
/// values below `10^8` and the heterogeneous shape for the rest.
pub fn fmt_u64_inner(value: u64, out: &mut [u8]) -> (r: Result<usize, Error>)
    ensures
        formats(value as nat, old(out)@, final(out)@, r),
{
    let n = digit_count(value) as usize;
    if out.len() < n {
        return Err(Error::BufferTooSmall { need: n, have: out.len() });
    }
    write_u64_digits(value, n, out, 0);
    Ok(n)
}

/// Formats a value of at most `MAX_DIGITS` digits (used for `u8` and `u16`).
pub fn fmt_bounded_inner<const MAX_DIGITS: u32>(value: u64, out: &mut [u8]) -> (r: Result<
    usize,
    Error,
>)
    requires
        num_digits(value as nat) <= MAX_DIGITS,
    ensures
        formats(value as nat, old(out)@, final(out)@, r),
{
    let n = digit_count(value) as usize;
    if out.len() < n {
        return Err(Error::BufferTooSmall { need: n, have: out.len() });
    }
    Ok(fmt_bounded_simd_inner::<MAX_DIGITS>(value, n, out))
}

/// Writes a value of at most `MAX_DIGITS` digits (its digit count is `n`) into
/// `out[0..n]` with the least work the bound allows: for at most 8 digits, the
/// low half of one sixteen-digit kernel run; for at most 16, one full run; for
/// more, the heterogeneous shape. Returns `n`.
pub fn fmt_bounded_simd_inner<const MAX_DIGITS: u32>(value: u64, n: usize, out: &mut [u8]) -> (k:
    usize)
    requires
        n == num_digits(value as nat),
        n <= MAX_DIGITS,
        n <= old(out)@.len(),
    ensures
        k == n,
        final(out)@ == splice(old(out)@, 0, decimal(value as nat)),
{
    proof {
        lemma_pow10_values();
    }
    if MAX_DIGITS <= 8 {
        proof {
            lemma_num_digits_le(value as nat, 8);
            lemma_sixteen_split(value as nat);
            lemma_tail_is_decimal(value as nat, 16, n as nat);
        }
        let lo8 = to_string_16digits(0, value);
        store_last(lo8.as_slice(), n, out, 0);
        return n;
    }
    if MAX_DIGITS <= 16 {
        proof {
            lemma_num_digits_le(value as nat, 16);
            lemma_sixteen_split(value as nat);
            lemma_tail_is_decimal(value as nat, 16, n as nat);
        }
        let digits_15_0 = to_string_16digits(value / 100_000_000, value % 100_000_000);
        store_last(digits_15_0.as_slice(), n, out, 0);
        return n;
    }
    heterogeneous(value, n, out, 0)
}

/// Formats a `u32`: the eight-digit kernel below `10^8`, the heterogeneous
/// shape for nine and ten digits.
pub fn fmt_u32_inner(v: u32, out: &mut [u8]) -> (r: Result<usize, Error>)
    ensures
        formats(v as nat, old(out)@, final(out)@, r),
{
    let n = count_digits_u32(v);
    if out.len() < n {
        return Err(Error::BufferTooSmall { need: n, have: out.len() });
    }
    if v < 100_000_000u32 {
        u32_le_1e8(v, n, out, 0);
    } else {
        heterogeneous(v as u64, n, out, 0);
    }
    Ok(n)
}

/// Formats a `u128` by splitting it into chunks of sixteen digits: values
/// below `10^16` go through the `u64` path; values of 17 to 32 digits are the
/// high part `value / 10^16` followed by the sixteen-digit chunk
/// `value % 10^16`; values of 33 to 39 digits are a one-to-seven-digit top
/// part followed by two sixteen-digit chunks. The digit count comes from the
/// leading chunk.
pub fn fmt_u128_inner(value: u128, out: &mut [u8]) -> (r: Result<usize, Error>)
    ensures
        formats(value as nat, old(out)@, final(out)@, r),
{
    if value < D {
        return fmt(value as u64, out);
    }
    let (q, lo) = div_rem_1e16(value);
    proof {
        lemma_pow10_values();
        lemma_decimal_split(value as nat, 16);
        lemma_num_digits_of_width(value as nat);
        assert(q as nat == value as nat / pow10(16));
        assert(lo as nat == value as nat % pow10(16));
    }
    if q < D {
        let hi = q as u64;
        let n_hi = digit_count(hi) as usize;
        let n = n_hi + 16;
        if out.len() < n {
            return Err(Error::BufferTooSmall { need: n, have: out.len() });
        }
        write_u64_digits(hi, n_hi, out, 0);
        write_16_digits_unmasked(lo, out, n_hi);
        proof {
            lemma_fixed_width_len(hi as nat, n_hi as nat);
            lemma_fixed_width_len(lo as nat, 16);
            lemma_splice_concat(old(out)@, 0, decimal(hi as nat), fixed_width(lo as nat, 16));
        }
        return Ok(n);
    }
    let (top128, mid) = div_rem_1e16(q);
    proof {
        lemma_decimal_split(q as nat, 16);
        assert(top128 as nat == q as nat / pow10(16));
        assert(mid as nat == q as nat % pow10(16));
        assert(top128 < 10000000);
    }
    let top = top128 as u32;
    let n_top = count_digits_u32(top);
    let n = n_top + 32;
    if out.len() < n {
        return Err(Error::BufferTooSmall { need: n, have: out.len() });
    }
    u32_le_1e8(top, n_top, out, 0);
    write_16_digits_unmasked(mid, out, n_top);
    write_16_digits_unmasked(lo, out, n_top + 16);
    proof {
        lemma_fixed_width_len(top as nat, n_top as nat);
        lemma_fixed_width_len(mid as nat, 16);
        lemma_fixed_width_len(lo as nat, 16);
        lemma_splice_concat(old(out)@, 0, decimal(top as nat), fixed_width(mid as nat, 16));
        lemma_splice_concat(
            old(out)@,
            0,
            decimal(top as nat) + fixed_width(mid as nat, 16),
            fixed_width(lo as nat, 16),
        );
    }
    Ok(n)
}

/// Every unsigned integer width that [`fmt`] accepts: `u8`, `u16`, `u32`,
/// `u64` and `u128`.
pub trait Decimal: Sealed + Sized {
    /// The number this value stands for.
    spec fn decimal_value(&self) -> nat;

    /// Writes `self` to `out` as decimal ASCII and returns the bytes written.
    fn fmt_into(self, out: &mut [u8]) -> (r: Result<usize, Error>)
        ensures
            formats(self.decimal_value(), old(out)@, final(out)@, r),
    ;
}

impl Decimal for u8 {
    open spec fn decimal_value(&self) -> nat {
        *self as nat
    }

    fn fmt_into(self, out: &mut [u8]) -> (r: Result<usize, Error>) {
        proof {
            lemma_num_digits_of_width(self as nat);
        }
        fmt_bounded_inner::<3>(self as u64, out)
    }
}

impl Decimal for u16 {
    open spec fn decimal_value(&self) -> nat {
        *self as nat
    }

    fn fmt_into(self, out: &mut [u8]) -> (r: Result<usize, Error>) {
        proof {
            lemma_num_digits_of_width(self as nat);
        }
        fmt_bounded_inner::<5>(self as u64, out)
    }
}

impl Decimal for u32 {
    open spec fn decimal_value(&self) -> nat {
        *self as nat
    }

    fn fmt_into(self, out: &mut [u8]) -> (r: Result<usize, Error>) {
        fmt_u32_inner(self, out)
    }
}

impl Decimal for u64 {
    open spec fn decimal_value(&self) -> nat {
        *self as nat
    }

    fn fmt_into(self, out: &mut [u8]) -> (r: Result<usize, Error>) {
        fmt_u64_inner(self, out)
    }
}

impl Decimal for u128 {
    open spec fn decimal_value(&self) -> nat {
        *self as nat
    }

    fn fmt_into(self, out: &mut [u8]) -> (r: Result<usize, Error>) {
        fmt_u128_inner(self, out)
    }
}

/// Writes the decimal text of any unsigned integer into `out` and returns
/// the number of bytes written, or `BufferTooSmall` (leaving `out` untouched)
/// when `out` is shorter than the text.
pub fn fmt<T: Decimal>(value: T, out: &mut [u8]) -> (r: Result<usize, Error>)
    ensures
        formats(value.decimal_value(), old(out)@, final(out)@, r),
{
    value.fmt_into(out)
}

} // verus!
