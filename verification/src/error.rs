//! Error type of the formatting functions.
use vstd::prelude::*;

use crate::model::{
    decimal, digit_byte, fixed_width, is_digit_byte, lemma_fixed_width_digits,
    lemma_fixed_width_len, lemma_fixed_width_one, lemma_num_digits_bounds,
    lemma_num_digits_of_width, num_digits, ASCII_ZERO,
};
use crate::support::push_ascii_digits;

verus! {

/// Errors returned by the formatting functions.
#[derive(Debug, Clone, Copy, PartialEq, Eq, Structural)]
pub enum Error {
    /// The output buffer is too small to hold the conversion result.
    BufferTooSmall {
        /// Number of bytes required.
        need: usize,
        /// Number of bytes available.
        have: usize,
    },
    /// The `offsets` slice passed to a batch function has the wrong length.
    OffsetsLengthMismatch {
        /// Expected length (`values.len() + 1`).
        expected: usize,
        /// Actual length provided.
        got: usize,
    },
    /// The cumulative byte length of a batch does not fit in `u32`, the type
    /// of the offset array; split the batch.
    TotalLengthOverflow,
}

/// The decimal text of `n` as characters.
pub open spec fn decimal_chars(n: nat) -> Seq<char> {
    decimal(n).map_values(|b: u8| b as char)
}

/// The human-readable message of an error.
pub open spec fn error_message(e: Error) -> Seq<char> {
    match e {
        Error::BufferTooSmall { need, have } => "vitoa: buffer too small: need "@ + decimal_chars(
            need as nat,
        ) + " bytes, have "@ + decimal_chars(have as nat) + " bytes"@,
        Error::OffsetsLengthMismatch { expected, got } => "vitoa: offsets length mismatch: expected "@
            + decimal_chars(expected as nat) + ", got "@ + decimal_chars(got as nat),
        Error::TotalLengthOverflow => "vitoa: batch total byte length exceeds u32::MAX; split the batch"@,
    }
}

/// Writes the decimal text of `v` into `buf[0..n]` and returns `n`. The digits
/// are produced right-aligned in `buf` and then moved to its front, so for
/// `v > 0` the last `n` bytes of `buf` also hold them.
pub fn u64_to_decimal(v: u64, buf: &mut [u8; 20]) -> (n: usize)
    ensures
        n == num_digits(v as nat),
        1 <= n <= 20,
        final(buf)@.subrange(0, n as int) == decimal(v as nat),
        forall|j: int|
            n <= j < 20 ==> #[trigger] final(buf)@[j] == if v > 0 && j >= 20 - n {
                decimal(v as nat)[j - (20 - n)]
            } else {
                old(buf)@[j]
            },
{
    proof {
        lemma_num_digits_of_width(v as nat);
    }
    if v == 0 {
        buf[0] = ASCII_ZERO;
        proof {
            lemma_fixed_width_one(0);
            assert(final(buf)@.subrange(0, 1) =~= decimal(0));
        }
        return 1;
    }
    let ghost full = decimal(v as nat);
    let mut x = v;
    let mut i: usize = 20;
    while x > 0
        invariant
            i <= 20,
            x > 0 ==> full == fixed_width(x as nat, num_digits(x as nat)) + buf@.subrange(
                i as int,
                20,
            ) && 20 - i + num_digits(x as nat) == num_digits(v as nat),
            x == 0 ==> full == buf@.subrange(i as int, 20),
            forall|j: int| 0 <= j < i ==> #[trigger] buf@[j] == old(buf)@[j],
            full == decimal(v as nat),
            num_digits(v as nat) <= 20,
        decreases x,
    {
        let ghost before = buf@;
        let ghost ox = x as nat;
        proof {
            lemma_num_digits_bounds(x as nat);
            if x >= 10 {
                assert(num_digits(x as nat) == 1 + num_digits(x as nat / 10));
            } else {
                assert(fixed_width(x as nat / 10, 0) =~= Seq::<u8>::empty());
            }
            assert(fixed_width(x as nat, num_digits(x as nat)) == fixed_width(
                x as nat / 10,
                (num_digits(x as nat) - 1) as nat,
            ).push(digit_byte(x as nat % 10)));
        }
        i = i - 1;
        buf[i] = ASCII_ZERO + (x % 10) as u8;
        x = x / 10;
        proof {
            assert(buf@.subrange(i as int, 20) =~= seq![digit_byte(ox % 10)]
                + before.subrange(i + 1, 20)) by {
                assert(buf@[i as int] == digit_byte(ox % 10));
            }
        }
    }
    let n = 20 - i;
    proof {
        lemma_fixed_width_len(v as nat, num_digits(v as nat));
    }
    let ghost moved = buf@;
    let mut k: usize = 0;
    while k < n
        invariant
            n == 20 - i,
            i <= 20,
            k <= n,
            moved.len() == 20,
            buf@.len() == 20,
            forall|j: int| k <= j < 20 ==> buf@[j] == moved[j],
            buf@.subrange(0, k as int) =~= moved.subrange(i as int, i + k),
            moved.subrange(i as int, 20) == full,
            full == decimal(v as nat),
            forall|j: int| 0 <= j < i ==> #[trigger] moved[j] == old(buf)@[j],
        decreases n - k,
    {
        buf[k] = buf[i + k];
        k = k + 1;
    }
    assert(buf@.subrange(0, n as int) =~= full);
    assert forall|j: int| n <= j < 20 implies #[trigger] buf@[j] == if v > 0 && j >= 20 - n {
        decimal(v as nat)[j - (20 - n)]
    } else {
        old(buf)@[j]
    } by {
        assert(buf@[j] == moved[j]);
        if j >= i {
            assert(moved[j] == moved.subrange(i as int, 20)[j - i]);
        }
    }
    n
}

/// Appends the decimal text of `v` to `s`.
fn push_decimal(s: &mut String, v: u64)
    ensures
        final(s)@ == old(s)@ + decimal_chars(v as nat),
{
    let mut tmp = [0u8; 20];
    let n = u64_to_decimal(v, &mut tmp);
    proof {
        lemma_fixed_width_digits(v as nat, num_digits(v as nat));
        assert forall|j: int| 0 <= j < n implies is_digit_byte(#[trigger] tmp@[j]) by {
            assert(tmp@[j] == tmp@.subrange(0, n as int)[j]);
        }
    }
    push_ascii_digits(s, tmp.as_slice(), n);
    proof {
        assert(tmp@.take(n as int) =~= tmp@.subrange(0, n as int));
    }
}

impl Error {
    /// The human-readable message of this error.
    pub fn message(&self) -> (m: String)
        ensures
            m@ == error_message(*self),
    {
        match *self {
            Error::BufferTooSmall { need, have } => {
                let mut s = String::from_str("vitoa: buffer too small: need ");
                push_decimal(&mut s, need as u64);
                s.append(" bytes, have ");
                push_decimal(&mut s, have as u64);
                s.append(" bytes");
                s
            },
            Error::OffsetsLengthMismatch { expected, got } => {
                let mut s = String::from_str("vitoa: offsets length mismatch: expected ");
                push_decimal(&mut s, expected as u64);
                s.append(", got ");
                push_decimal(&mut s, got as u64);
                s
            },
            Error::TotalLengthOverflow => String::from_str(
                "vitoa: batch total byte length exceeds u32::MAX; split the batch",
            ),
        }
    }
}

} // verus!
