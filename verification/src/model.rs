//! Mathematical model of decimal text: powers of ten, digit counts, the
//! digit sequence of a natural number, and the value of a digit sequence.
use vstd::prelude::*;

verus! {

/// The ASCII byte `'0'`.
pub const ASCII_ZERO: u8 = 48;

/// `10^k`
pub open spec fn pow10(k: nat) -> nat
    decreases k,
{
    if k == 0 {
        1
    } else {
        10 * pow10((k - 1) as nat)
    }
}

/// Number of decimal digits of `n`, with `0` counted as one digit.
pub open spec fn num_digits(n: nat) -> nat
    decreases n,
{
    if n < 10 {
        1
    } else {
        1 + num_digits(n / 10)
    }
}

/// The ASCII byte of the decimal digit `d` (for `d < 10`).
pub open spec fn digit_byte(d: nat) -> u8 {
    (48 + d) as u8
}

/// Whether `b` is one of the ASCII bytes `'0'..='9'`.
pub open spec fn is_digit_byte(b: u8) -> bool {
    48 <= b <= 57
}

/// The `w` least significant decimal digits of `n` as ASCII, most
/// significant first, padded with leading zeros.
pub open spec fn fixed_width(n: nat, w: nat) -> Seq<u8>
    decreases w,
{
    if w == 0 {
        Seq::empty()
    } else {
        fixed_width(n / 10, (w - 1) as nat).push(digit_byte(n % 10))
    }
}

/// The canonical decimal text of `n`: its digits, most significant first,
/// with no leading zero (the text of `0` is `"0"`).
pub open spec fn decimal(n: nat) -> Seq<u8> {
    fixed_width(n, num_digits(n))
}

/// The value of a sequence of ASCII decimal digits, read most significant
/// first.
pub open spec fn parse_digits(s: Seq<u8>) -> nat
    decreases s.len(),
{
    if s.len() == 0 {
        0
    } else {
        10 * parse_digits(s.drop_last()) + (s.last() - 48) as nat
    }
}

/// `s` with its bytes from position `start` on replaced by `ins`; the bytes
/// after `start + ins.len()` are kept.
pub open spec fn splice(s: Seq<u8>, start: int, ins: Seq<u8>) -> Seq<u8> {
    s.take(start) + ins + s.skip(start + ins.len())
}

pub proof fn lemma_pow10_positive(k: nat)
    ensures
        pow10(k) >= 1,
    decreases k,
{
    if k > 0 {
        lemma_pow10_positive((k - 1) as nat);
    }
}

pub proof fn lemma_pow10_monotone(a: nat, b: nat)
    requires
        a <= b,
    ensures
        pow10(a) <= pow10(b),
    decreases b,
{
    if a < b {
        lemma_pow10_monotone(a, (b - 1) as nat);
        lemma_pow10_positive((b - 1) as nat);
    }
}

pub proof fn lemma_fixed_width_len(n: nat, w: nat)
    ensures
        fixed_width(n, w).len() == w,
    decreases w,
{
    if w > 0 {
        lemma_fixed_width_len(n / 10, (w - 1) as nat);
    }
}

pub proof fn lemma_num_digits_bounds(n: nat)
    ensures
        num_digits(n) >= 1,
        n < pow10(num_digits(n)),
        n >= 1 ==> pow10((num_digits(n) - 1) as nat) <= n,
    decreases n,
{
    if n >= 10 {
        lemma_num_digits_bounds(n / 10);
        assert(pow10(num_digits(n)) == 10 * pow10(num_digits(n / 10)));
    } else {
        assert(pow10(1) == 10) by {
            reveal_with_fuel(pow10, 2);
        }
    }
}

/// The digit count is the unique `d` with `10^(d-1) <= n < 10^d` (for `n >= 1`).
pub proof fn lemma_num_digits_unique(n: nat, r: nat)
    requires
        pow10(r) <= n < pow10(r + 1),
    ensures
        num_digits(n) == r + 1,
    decreases r,
{
    if r > 0 {
        assert(pow10(r) == 10 * pow10((r - 1) as nat));
        lemma_pow10_positive((r - 1) as nat);
        lemma_num_digits_unique(n / 10, (r - 1) as nat);
    }
}

/// `num_digits(n) <= k` exactly when `n < 10^k` (for `k >= 1`).
pub proof fn lemma_num_digits_le(n: nat, k: nat)
    requires
        k >= 1,
    ensures
        num_digits(n) <= k <==> n < pow10(k),
{
    lemma_num_digits_bounds(n);
    if num_digits(n) <= k {
        lemma_pow10_monotone(num_digits(n), k);
    } else {
        lemma_pow10_monotone(k, (num_digits(n) - 1) as nat);
    }
}

/// Prepending a block of `k` low digits: `num_digits(q * 10^k + r) == num_digits(q) + k`
/// when `q >= 1` and `r < 10^k`.
pub proof fn lemma_num_digits_shift(q: nat, k: nat, r: nat)
    requires
        q >= 1,
        r < pow10(k),
    ensures
        num_digits(q * pow10(k) + r) == num_digits(q) + k,
    decreases k,
{
    if k > 0 {
        let p = pow10((k - 1) as nat);
        let x = q * p;
        assert(q * pow10(k) == 10 * x) by (nonlinear_arith)
            requires
                pow10(k) == 10 * p,
                x == q * p,
        ;
        assert(x >= 1) by (nonlinear_arith)
            requires
                q >= 1,
                p >= 1,
                x == q * p,
        {
        }
        lemma_pow10_positive((k - 1) as nat);
        assert((10 * x + r) / 10 == x + r / 10);
        assert(r / 10 < p);
        lemma_num_digits_shift(q, (k - 1) as nat, r / 10);
        assert(num_digits(x + r / 10) == num_digits(q) + (k - 1));
        assert(10 * x + r >= 10);
        assert(num_digits(10 * x + r) == 1 + num_digits((10 * x + r) / 10));
        assert(num_digits(10 * x + r) == 1 + num_digits(x + r / 10));
    } else {
        assert(pow10(0) == 1);
        assert(q * pow10(k) + r == q);
    }
}

/// Fixed-width text of `n` only depends on `n` modulo `10^w`; in particular the
/// digits above position `w` are dropped.
pub proof fn lemma_fixed_width_split(n: nat, w: nat, k: nat)
    ensures
        fixed_width(n, w + k) =~= fixed_width(n / pow10(k), w) + fixed_width(n, k),
    decreases k,
{
    if k > 0 {
        lemma_pow10_positive((k - 1) as nat);
        lemma_fixed_width_split(n / 10, w, (k - 1) as nat);
        assert(n / 10 / pow10((k - 1) as nat) == n / pow10(k)) by {
            vstd::arithmetic::div_mod::lemma_div_denominator(n as int, 10, pow10((k - 1) as nat) as int);
        }
        let d = digit_byte(n % 10);
        let a = fixed_width(n / pow10(k), w);
        let b = fixed_width(n / 10, (k - 1) as nat);
        assert(fixed_width(n / 10, (w + (k - 1)) as nat) =~= a + b);
        assert(fixed_width(n, w + k) == fixed_width(n / 10, (w + k - 1) as nat).push(d));
        assert(fixed_width(n, k) == b.push(d));
        assert((a + b).push(d) =~= a + b.push(d));
    } else {
        assert(pow10(k) == 1);
        vstd::arithmetic::div_mod::lemma_div_basics(n as int);
        assert(n / pow10(k) == n);
        assert(fixed_width(n, k) =~= Seq::<u8>::empty());
    }
}

/// All bytes of a fixed-width text are ASCII digits.
pub proof fn lemma_fixed_width_digits(n: nat, w: nat)
    ensures
        forall|i: int| 0 <= i < fixed_width(n, w).len() ==> is_digit_byte(#[trigger] fixed_width(n, w)[i]),
    decreases w,
{
    if w > 0 {
        lemma_fixed_width_digits(n / 10, (w - 1) as nat);
        lemma_fixed_width_len(n, w);
        let s = fixed_width(n, w);
        assert forall|i: int| 0 <= i < s.len() implies is_digit_byte(#[trigger] s[i]) by {
            if i == s.len() - 1 {
                assert(s[i] == digit_byte(n % 10));
            } else {
                assert(s[i] == fixed_width(n / 10, (w - 1) as nat)[i]);
            }
        }
    }
}

/// Reading back a fixed-width text gives `n mod 10^w`.
pub proof fn lemma_parse_fixed_width(n: nat, w: nat)
    ensures
        parse_digits(fixed_width(n, w)) == n % pow10(w),
    decreases w,
{
    lemma_pow10_positive(w);
    if w > 0 {
        let p = pow10((w - 1) as nat);
        lemma_pow10_positive((w - 1) as nat);
        lemma_parse_fixed_width(n / 10, (w - 1) as nat);
        let s = fixed_width(n, w);
        assert(s.drop_last() =~= fixed_width(n / 10, (w - 1) as nat));
        assert(s.last() == digit_byte(n % 10));
        // n % (10 * p) == 10 * ((n / 10) % p) + n % 10
        vstd::arithmetic::div_mod::lemma_mod_breakdown(n as int, 10, p as int);
    }
}

/// Peeling two low digits off a fixed-width text.
pub proof fn lemma_fixed_width_two(v: nat, i: nat)
    ensures
        fixed_width(v, i + 2) =~= fixed_width(v / 100, i) + seq![
            digit_byte((v % 100) / 10),
            digit_byte(v % 10),
        ],
{
    assert(fixed_width(v, i + 2) == fixed_width(v / 10, i + 1).push(digit_byte(v % 10)));
    assert(fixed_width(v / 10, i + 1) == fixed_width(v / 10 / 10, i).push(digit_byte((v / 10) % 10)));
    assert(v / 10 / 10 == v / 100);
    assert((v / 10) % 10 == (v % 100) / 10);
}

/// The text of a one-digit number.
pub proof fn lemma_fixed_width_one(v: nat)
    requires
        v < 10,
    ensures
        fixed_width(v, 1) =~= seq![digit_byte(v)],
{
    assert(fixed_width(v, 1) == fixed_width(v / 10, 0).push(digit_byte(v % 10)));
}

/// A fixed-width text of width `w` only sees `n mod 10^w`.
pub proof fn lemma_fixed_width_mod(n: nat, w: nat)
    ensures
        fixed_width(n, w) == fixed_width(n % pow10(w), w),
    decreases w,
{
    lemma_pow10_positive(w);
    if w > 0 {
        let p = pow10((w - 1) as nat);
        lemma_pow10_positive((w - 1) as nat);
        let m = n % pow10(w);
        vstd::arithmetic::div_mod::lemma_mod_breakdown(n as int, 10, p as int);
        assert(m == 10 * ((n / 10) % p) + n % 10);
        assert(m / 10 == (n / 10) % p);
        assert(m % 10 == n % 10);
        lemma_fixed_width_mod(n / 10, (w - 1) as nat);
        assert(fixed_width(m, w) == fixed_width(m / 10, (w - 1) as nat).push(digit_byte(m % 10)));
    } else {
        assert(fixed_width(n, w) =~= fixed_width(n % pow10(w), w));
    }
}

/// Byte `j` of a fixed-width text is the digit at position `w - 1 - j`.
pub proof fn lemma_fixed_width_index(n: nat, w: nat, j: int)
    requires
        0 <= j < w,
    ensures
        fixed_width(n, w)[j] == digit_byte((n / pow10((w - 1 - j) as nat)) % 10),
    decreases w,
{
    lemma_fixed_width_len(n / 10, (w - 1) as nat);
    if j == w - 1 {
        assert(pow10(0) == 1);
        vstd::arithmetic::div_mod::lemma_div_basics(n as int);
        assert(n / pow10(0) == n);
    } else {
        lemma_fixed_width_index(n / 10, (w - 1) as nat, j);
        lemma_pow10_positive((w - 2 - j) as nat);
        vstd::arithmetic::div_mod::lemma_div_denominator(n as int, 10, pow10((w - 2 - j) as nat) as int);
        assert(pow10((w - 1 - j) as nat) == 10 * pow10((w - 2 - j) as nat));
    }
}

/// Concrete powers of ten used by the formatting code.
pub proof fn lemma_pow10_values()
    ensures
        pow10(1) == 10,
        pow10(2) == 100,
        pow10(3) == 1000,
        pow10(4) == 10000,
        pow10(5) == 100000,
        pow10(6) == 1000000,
        pow10(7) == 10000000,
        pow10(8) == 100000000,
        pow10(10) == 10000000000,
        pow10(12) == 1000000000000,
        pow10(16) == 10000000000000000,
        pow10(20) == 100000000000000000000,
        pow10(32) == 100000000000000000000000000000000,
        pow10(39) == 1000000000000000000000000000000000000000,
{
    reveal_with_fuel(pow10, 40);
}

/// Every `u64` has at most 20 digits, every `u32` at most 10, every `u128` at most 39.
pub proof fn lemma_num_digits_of_width(n: nat)
    ensures
        n <= u128::MAX ==> num_digits(n) <= 39,
        n <= u64::MAX ==> num_digits(n) <= 20,
        n <= u32::MAX ==> num_digits(n) <= 10,
        n <= u16::MAX ==> num_digits(n) <= 5,
        n <= u8::MAX ==> num_digits(n) <= 3,
{
    lemma_pow10_values();
    assert(pow10(3) == 1000);
    lemma_num_digits_le(n, 39);
    lemma_num_digits_le(n, 20);
    lemma_num_digits_le(n, 10);
    lemma_num_digits_le(n, 5);
    lemma_num_digits_le(n, 3);
}

} // verus!
