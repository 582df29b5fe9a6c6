//! Independent references used to cross-check the formatting code: a
//! digit counter that divides by ten until nothing is left, and decoders
//! that read decimal text back into a number.
use vstd::prelude::*;

use crate::model::{is_digit_byte, lemma_num_digits_of_width, num_digits, parse_digits, ASCII_ZERO};

verus! {

/// Number of decimal digits of `n` (1 for `0`), counted by repeated division
/// by ten.
pub fn reference_digit_count(n: u64) -> (count: u32)
    ensures
        count == num_digits(n as nat),
{
    proof {
        lemma_num_digits_of_width(n as nat);
    }
    let mut count: u32 = 1;
    let mut v = n / 10;
    while v > 0
        invariant
            num_digits(n as nat) == count + if v == 0 {
                0
            } else {
                num_digits(v as nat)
            },
            num_digits(n as nat) <= 20,
        decreases v,
    {
        count = count + 1;
        v = v / 10;
    }
    count
}

/// Reading a prefix of a digit string never gives more than the whole string.
pub proof fn lemma_parse_prefix_le(s: Seq<u8>, i: int)
    requires
        0 <= i <= s.len(),
        forall|j: int| 0 <= j < s.len() ==> is_digit_byte(#[trigger] s[j]),
    ensures
        parse_digits(s.take(i)) <= parse_digits(s),
    decreases s.len(),
{
    if i < s.len() {
        let t = s.drop_last();
        assert(t.take(i) =~= s.take(i));
        lemma_parse_prefix_le(t, i);
    } else {
        assert(s.take(i) =~= s);
    }
}

/// One more digit: the value of `s[..i + 1]` from the value of `s[..i]`.
proof fn lemma_parse_take_step(s: Seq<u8>, i: int)
    requires
        0 <= i < s.len(),
    ensures
        parse_digits(s.take(i + 1)) == 10 * parse_digits(s.take(i)) + (s[i] - 48) as nat,
{
    assert(s.take(i + 1).drop_last() =~= s.take(i));
}

/// Decodes ASCII decimal digits into a `u64`.
pub fn parse_decimal(bytes: &[u8]) -> (v: u64)
    requires
        forall|j: int| 0 <= j < bytes@.len() ==> is_digit_byte(#[trigger] bytes@[j]),
        parse_digits(bytes@) <= u64::MAX,
    ensures
        v == parse_digits(bytes@),
{
    let mut acc: u64 = 0;
    let mut i: usize = 0;
    proof {
        assert(bytes@.take(0) =~= Seq::<u8>::empty());
    }
    while i < bytes.len()
        invariant
            i <= bytes@.len(),
            forall|j: int| 0 <= j < bytes@.len() ==> is_digit_byte(#[trigger] bytes@[j]),
            parse_digits(bytes@) <= u64::MAX,
            acc == parse_digits(bytes@.take(i as int)),
        decreases bytes@.len() - i,
    {
        let b = bytes[i];
        proof {
            lemma_parse_take_step(bytes@, i as int);
            lemma_parse_prefix_le(bytes@, i + 1);
        }
        acc = acc * 10 + (b - ASCII_ZERO) as u64;
        i = i + 1;
    }
    proof {
        assert(bytes@.take(i as int) =~= bytes@);
    }
    acc
}

/// Decodes ASCII decimal digits into a `u128`.
pub fn parse_decimal_u128(bytes: &[u8]) -> (v: u128)
    requires
        forall|j: int| 0 <= j < bytes@.len() ==> is_digit_byte(#[trigger] bytes@[j]),
        parse_digits(bytes@) <= u128::MAX,
    ensures
        v == parse_digits(bytes@),
{
    let mut acc: u128 = 0;
    let mut i: usize = 0;
    proof {
        assert(bytes@.take(0) =~= Seq::<u8>::empty());
    }
    while i < bytes.len()
        invariant
            i <= bytes@.len(),
            forall|j: int| 0 <= j < bytes@.len() ==> is_digit_byte(#[trigger] bytes@[j]),
            parse_digits(bytes@) <= u128::MAX,
            acc == parse_digits(bytes@.take(i as int)),
        decreases bytes@.len() - i,
    {
        let b = bytes[i];
        proof {
            lemma_parse_take_step(bytes@, i as int);
            lemma_parse_prefix_le(bytes@, i + 1);
        }
        acc = acc * 10 + (b - ASCII_ZERO) as u128;
        i = i + 1;
    }
    proof {
        assert(bytes@.take(i as int) =~= bytes@);
    }
    acc
}

} // verus!
