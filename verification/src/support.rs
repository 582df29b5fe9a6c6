//! Appending integers to growable text targets (`String`, `Vec<u8>`), and
//! writing several integers joined by a separator into a byte buffer.
//!
//! A `write!`-style call with the format string `"{}"` repeated once per
//! argument appends each argument in turn with [`FastIntArg::write_into`];
//! the `writeln!` form then appends a newline with
//! [`FastIntWrite::write_u64_fast_newline`].
use vstd::prelude::*;

use crate::batch::{joined, joined_fit, joined_need};
use crate::error::Error;
use crate::fmt_u128_inner;
use crate::model::{decimal, is_digit_byte, lemma_fixed_width_digits, num_digits, ASCII_ZERO};

verus! {

/// Declares std's `core::fmt::Error`, the error type of the text-target
/// writers; it is carried opaquely and nothing is claimed about it (the
/// writers here never return it).
#[verifier::external_type_specification]
#[verifier::external_body]
pub struct ExFmtError(core::fmt::Error);

/// `text` read as characters, one per byte.
pub open spec fn as_chars(text: Seq<u8>) -> Seq<char> {
    text.map_values(|b: u8| b as char)
}

/// The one-character text of the decimal digit `d`.
pub fn digit_str(d: u8) -> (s: &'static str)
    requires
        d < 10,
    ensures
        s@ == seq![(48 + d) as char],
{
    match d {
        0 => {
            proof {
                reveal_strlit("0");
            }
            "0"
        },
        1 => {
            proof {
                reveal_strlit("1");
            }
            "1"
        },
        2 => {
            proof {
                reveal_strlit("2");
            }
            "2"
        },
        3 => {
            proof {
                reveal_strlit("3");
            }
            "3"
        },
        4 => {
            proof {
                reveal_strlit("4");
            }
            "4"
        },
        5 => {
            proof {
                reveal_strlit("5");
            }
            "5"
        },
        6 => {
            proof {
                reveal_strlit("6");
            }
            "6"
        },
        7 => {
            proof {
                reveal_strlit("7");
            }
            "7"
        },
        8 => {
            proof {
                reveal_strlit("8");
            }
            "8"
        },
        _ => {
            proof {
                reveal_strlit("9");
            }
            "9"
        },
    }
}

/// Appends the ASCII digits `digits[0..n]` to `s`.
pub fn push_ascii_digits(s: &mut String, digits: &[u8], n: usize)
    requires
        n <= digits@.len(),
        forall|j: int| 0 <= j < n ==> is_digit_byte(#[trigger] digits@[j]),
    ensures
        final(s)@ == old(s)@ + as_chars(digits@.take(n as int)),
{
    let mut k: usize = 0;
    while k < n
        invariant
            k <= n,
            n <= digits@.len(),
            forall|j: int| 0 <= j < n ==> is_digit_byte(#[trigger] digits@[j]),
            s@ == old(s)@ + as_chars(digits@.take(k as int)),
        decreases n - k,
    {
        let d = digits[k] - ASCII_ZERO;
        s.append(digit_str(d));
        proof {
            assert(as_chars(digits@.take(k + 1)) =~= as_chars(digits@.take(k as int)) + seq![
                digits@[k as int] as char,
            ]);
        }
        k = k + 1;
    }
}

/// Appends the bytes `bytes[0..n]` to `v`.
fn push_bytes(v: &mut Vec<u8>, bytes: &[u8], n: usize)
    requires
        n <= bytes@.len(),
    ensures
        final(v)@ == old(v)@ + bytes@.take(n as int),
{
    let mut k: usize = 0;
    while k < n
        invariant
            k <= n,
            n <= bytes@.len(),
            v@ == old(v)@ + bytes@.take(k as int),
        decreases n - k,
    {
        v.push(bytes[k]);
        proof {
            assert(bytes@.take(k + 1) =~= bytes@.take(k as int).push(bytes@[k as int]));
        }
        k = k + 1;
    }
}

/// A growable text target that integers can be appended to.
pub trait FastIntWrite: Sized {
    /// `after` is `before` with the ASCII text `text` appended.
    spec fn appended(before: &Self, after: &Self, text: Seq<u8>) -> bool;

    /// Appends the decimal text of `v`.
    fn write_u64_fast(&mut self, v: u64) -> (r: Result<(), core::fmt::Error>)
        ensures
            r is Ok,
            Self::appended(old(self), final(self), decimal(v as nat)),
    ;

    /// Appends the decimal text of `v`.
    fn write_u128_fast(&mut self, v: u128) -> (r: Result<(), core::fmt::Error>)
        ensures
            r is Ok,
            Self::appended(old(self), final(self), decimal(v as nat)),
    ;

    /// Appends a newline.
    fn write_u64_fast_newline(&mut self) -> (r: Result<(), core::fmt::Error>)
        ensures
            r is Ok,
            Self::appended(old(self), final(self), seq![10u8]),
    ;
}

/// Formats `v` into a scratch buffer; returns the buffer and the digit count.
fn decimal_scratch(v: u128) -> (res: ([u8; 40], usize))
    ensures
        res.1 == num_digits(v as nat),
        res.1 <= 40,
        res.0@.take(res.1 as int) == decimal(v as nat),
        forall|j: int| 0 <= j < res.1 ==> is_digit_byte(#[trigger] res.0@[j]),
{
    let mut buf = [0u8; 40];
    proof {
        crate::model::lemma_num_digits_of_width(v as nat);
        crate::model::lemma_fixed_width_len(v as nat, num_digits(v as nat));
        lemma_fixed_width_digits(v as nat, num_digits(v as nat));
    }
    let r = fmt_u128_inner(v, &mut buf);
    let n = match r {
        Ok(n) => n,
        Err(_) => 0,
    };
    proof {
        assert(buf@.take(n as int) =~= decimal(v as nat));
        assert forall|j: int| 0 <= j < n implies is_digit_byte(#[trigger] buf@[j]) by {
            assert(buf@[j] == decimal(v as nat)[j]);
        }
    }
    (buf, n)
}

impl FastIntWrite for String {
    open spec fn appended(before: &Self, after: &Self, text: Seq<u8>) -> bool {
        after@ == before@ + as_chars(text)
    }

    fn write_u64_fast(&mut self, v: u64) -> (r: Result<(), core::fmt::Error>)
        ensures
            final(self)@ == old(self)@ + decimal(v as nat).map_values(|b: u8| b as char),
    {
        let (buf, n) = decimal_scratch(v as u128);
        push_ascii_digits(self, buf.as_slice(), n);
        proof {
            assert(as_chars(buf@.take(n as int)) =~= decimal(v as nat).map_values(|b: u8| b as char));
        }
        Ok(())
    }

    fn write_u128_fast(&mut self, v: u128) -> (r: Result<(), core::fmt::Error>)
        ensures
            final(self)@ == old(self)@ + decimal(v as nat).map_values(|b: u8| b as char),
    {
        let (buf, n) = decimal_scratch(v);
        push_ascii_digits(self, buf.as_slice(), n);
        proof {
            assert(as_chars(buf@.take(n as int)) =~= decimal(v as nat).map_values(|b: u8| b as char));
        }
        Ok(())
    }

    fn write_u64_fast_newline(&mut self) -> (r: Result<(), core::fmt::Error>)
        ensures
            final(self)@ == old(self)@ + seq!['\n'],
    {
        proof {
            reveal_strlit("\n");
        }
        self.append("\n");
        proof {
            assert((10u8 as char) == '\n');
            assert(as_chars(seq![10u8]) =~= seq!['\n']);
            assert(self@ =~= old(self)@ + as_chars(seq![10u8]));
        }
        Ok(())
    }
}

impl FastIntWrite for Vec<u8> {
    open spec fn appended(before: &Self, after: &Self, text: Seq<u8>) -> bool {
        after@ == before@ + text
    }

    fn write_u64_fast(&mut self, v: u64) -> (r: Result<(), core::fmt::Error>)
        ensures
            final(self)@ == old(self)@ + decimal(v as nat),
    {
        let (buf, n) = decimal_scratch(v as u128);
        push_bytes(self, buf.as_slice(), n);
        Ok(())
    }

    fn write_u128_fast(&mut self, v: u128) -> (r: Result<(), core::fmt::Error>)
        ensures
            final(self)@ == old(self)@ + decimal(v as nat),
    {
        let (buf, n) = decimal_scratch(v);
        push_bytes(self, buf.as_slice(), n);
        Ok(())
    }

    fn write_u64_fast_newline(&mut self) -> (r: Result<(), core::fmt::Error>)
        ensures
            final(self)@ == old(self)@ + seq![10u8],
    {
        self.push(10u8);
        proof {
            assert(self@ =~= old(self)@ + seq![10u8]);
        }
        Ok(())
    }
}

/// An unsigned integer that can be appended to a [`FastIntWrite`] target.
pub trait FastIntArg: Sized {
    /// The number this value stands for.
    spec fn arg_value(&self) -> nat;

    /// Appends the decimal text of `self` to `w`.
    fn write_into<W: FastIntWrite>(self, w: &mut W) -> (r: Result<(), core::fmt::Error>)
        ensures
            r is Ok,
            W::appended(old(w), final(w), decimal(self.arg_value())),
    ;
}

impl FastIntArg for u8 {
    open spec fn arg_value(&self) -> nat {
        *self as nat
    }

    fn write_into<W: FastIntWrite>(self, w: &mut W) -> (r: Result<(), core::fmt::Error>) {
        w.write_u64_fast(self as u64)
    }
}

impl FastIntArg for u16 {
    open spec fn arg_value(&self) -> nat {
        *self as nat
    }

    fn write_into<W: FastIntWrite>(self, w: &mut W) -> (r: Result<(), core::fmt::Error>) {
        w.write_u64_fast(self as u64)
    }
}

impl FastIntArg for u32 {
    open spec fn arg_value(&self) -> nat {
        *self as nat
    }

    fn write_into<W: FastIntWrite>(self, w: &mut W) -> (r: Result<(), core::fmt::Error>) {
        w.write_u64_fast(self as u64)
    }
}

impl FastIntArg for u64 {
    open spec fn arg_value(&self) -> nat {
        *self as nat
    }

    fn write_into<W: FastIntWrite>(self, w: &mut W) -> (r: Result<(), core::fmt::Error>) {
        w.write_u64_fast(self)
    }
}

impl FastIntArg for u128 {
    open spec fn arg_value(&self) -> nat {
        *self as nat
    }

    fn write_into<W: FastIntWrite>(self, w: &mut W) -> (r: Result<(), core::fmt::Error>) {
        w.write_u128_fast(self)
    }
}

/// Writes `values` separated by `sep` into `out` with no trailing separator
/// and returns the number of bytes written; this is [`crate::fmt_batch_joined`]
/// with the arguments in the order `buffer, separator, values`.
pub fn write_joined(out: &mut [u8], sep: u8, values: &[u64]) -> (r: Result<usize, Error>)
    requires
        old(out)@.len() < usize::MAX,
    ensures
        r is Ok <==> joined(values@, sep).len() <= old(out)@.len(),
        r is Ok ==> r == Ok::<usize, Error>(joined(values@, sep).len() as usize),
        r is Err ==> r == Err::<usize, Error>(
            Error::BufferTooSmall {
                need: joined_need(values@, sep),
                have: old(out)@.len() as usize,
            },
        ),
        ({
            let w = joined_fit(values@, 0, 0, old(out)@.len());
            final(out)@ == joined(values@, sep).take(w as int) + old(out)@.skip(w as int)
        }),
{
    crate::batch::fmt_batch_joined(values, sep, out)
}

} // verus!
