//! Properties of decimal text and of the batch layout that hold for every
//! input.
use vstd::prelude::*;

use crate::batch::{batch_len, batch_offsets, batch_outcome, joined, joined_from};
use crate::error::Error;
use crate::formats;
use crate::support::FastIntWrite;
use crate::model::{
    decimal, digit_byte, fixed_width, is_digit_byte, lemma_fixed_width_digits,
    lemma_fixed_width_index, lemma_fixed_width_len, lemma_fixed_width_one, lemma_num_digits_bounds,
    lemma_parse_fixed_width, num_digits, parse_digits, pow10, splice,
};
use crate::selector::{
    default_sample_size, default_variant, first_with_count, max_count, sample_count, sampled, stride,
    Variant,
};

verus! {

/// Reading the decimal text of `n` back gives `n`.
pub proof fn law_decimal_roundtrip(n: nat)
    ensures
        parse_digits(decimal(n)) == n,
{
    lemma_parse_fixed_width(n, num_digits(n));
    lemma_num_digits_bounds(n);
    vstd::arithmetic::div_mod::lemma_small_mod(n, pow10(num_digits(n)));
}

/// The decimal text of `n` has exactly `num_digits(n)` bytes, each an ASCII digit.
pub proof fn law_decimal_is_digits(n: nat)
    ensures
        decimal(n).len() == num_digits(n),
        forall|i: int| 0 <= i < decimal(n).len() ==> is_digit_byte(#[trigger] decimal(n)[i]),
{
    lemma_fixed_width_len(n, num_digits(n));
    lemma_fixed_width_digits(n, num_digits(n));
}

/// The decimal text of a positive number does not start with `'0'`.
pub proof fn law_decimal_no_leading_zero(n: nat)
    requires
        n >= 1,
    ensures
        decimal(n)[0] != digit_byte(0),
    decreases n,
{
    if n < 10 {
        lemma_fixed_width_one(n);
    } else {
        lemma_num_digits_bounds(n / 10);
        assert(num_digits(n) == 1 + num_digits(n / 10));
        law_decimal_no_leading_zero(n / 10);
        assert(decimal(n) == fixed_width(n / 10, num_digits(n / 10)).push(digit_byte(n % 10)));
    }
}

/// Different numbers have different decimal texts.
pub proof fn law_decimal_injective(a: nat, b: nat)
    requires
        decimal(a) == decimal(b),
    ensures
        a == b,
{
    law_decimal_roundtrip(a);
    law_decimal_roundtrip(b);
}

/// The digit count of `n >= 1` is the `d` with `10^(d-1) <= n < 10^d`; the
/// digit count of `0` is 1.
pub proof fn law_digit_count_bounds(n: nat)
    ensures
        n < pow10(num_digits(n)),
        n >= 1 ==> pow10((num_digits(n) - 1) as nat) <= n,
        n == 0 ==> num_digits(n) == 1,
{
    lemma_num_digits_bounds(n);
}

/// In the offset table of a batch, consecutive entries differ by the digit
/// count of the value between them.
pub proof fn law_batch_offsets_step(values: Seq<u64>, i: int)
    requires
        0 <= i < values.len(),
        batch_len(values, values.len()) <= u32::MAX,
    ensures
        batch_offsets(values)[i + 1] - batch_offsets(values)[i] == num_digits(values[i] as nat),
        batch_offsets(values)[0] == 0,
        batch_offsets(values)[values.len() as int] == batch_len(values, values.len()),
{
    crate::batch::lemma_batch_len_monotone(values, (i + 1) as nat, values.len());
}

/// A successful format writes exactly `r` ASCII digits at the front of the
/// buffer, reading them back gives the value, and the bytes after them are
/// the buffer's old bytes.
pub proof fn law_fmt_roundtrip(value: nat, before: Seq<u8>, after: Seq<u8>, r: Result<usize, Error>)
    requires
        formats(value, before, after, r),
        r is Ok,
        before.len() <= usize::MAX,
    ensures
        parse_digits(after.take(r->Ok_0 as int)) == value,
        forall|i: int| 0 <= i < r->Ok_0 ==> is_digit_byte(#[trigger] after[i]),
        after.skip(r->Ok_0 as int) == before.skip(r->Ok_0 as int),
        after.len() == before.len(),
{
    let n = r->Ok_0;
    law_decimal_is_digits(value);
    assert(n == num_digits(value));
    law_decimal_roundtrip(value);
    assert(after == splice(before, 0, decimal(value)));
    assert(after.take(n as int) =~= decimal(value));
    assert(after.skip(n as int) =~= before.skip(n as int));
    assert forall|i: int| 0 <= i < n implies is_digit_byte(#[trigger] after[i]) by {
        assert(after[i] == decimal(value)[i]);
    }
}

/// A format that fails leaves the buffer as it was, and it fails exactly when
/// the buffer is shorter than the digit count.
pub proof fn law_fmt_failure(value: nat, before: Seq<u8>, after: Seq<u8>, r: Result<usize, Error>)
    requires
        formats(value, before, after, r),
    ensures
        r is Err <==> before.len() < num_digits(value),
        r is Err ==> after == before,
{
}

/// A batch conversion's result, output bytes and offset table are fixed by
/// the values and the buffers' previous contents alone. Every batch function
/// (`fmt_batch_using` with any selector, hence `fmt_batch` and a call with any
/// other tuning) ensures `batch_outcome`, so the chosen shape never changes
/// what is written or returned.
pub proof fn law_batch_outcome_unique(
    values: Seq<u64>,
    out_before: Seq<u8>,
    offsets_before: Seq<u32>,
    out1: Seq<u8>,
    offsets1: Seq<u32>,
    r1: Result<usize, Error>,
    out2: Seq<u8>,
    offsets2: Seq<u32>,
    r2: Result<usize, Error>,
)
    requires
        batch_outcome(values, out_before, out1, offsets_before, offsets1, r1),
        batch_outcome(values, out_before, out2, offsets_before, offsets2, r2),
    ensures
        r1 == r2,
        out1 == out2,
        offsets1 == offsets2,
{
}

/// Appending text to a `Vec<u8>` target is plain concatenation: the old bytes
/// stay in front and the new bytes follow, in order.
pub proof fn law_vec_target_appends_in_order(before: Vec<u8>, after: Vec<u8>, text: Seq<u8>)
    ensures
        <Vec<u8> as FastIntWrite>::appended(&before, &after, text) <==> after@ == before@ + text,
{
}

/// Appending text to a `String` target adds one character per byte, in order,
/// after the old characters.
pub proof fn law_string_target_appends_in_order(before: String, after: String, text: Seq<u8>)
    ensures
        <String as FastIntWrite>::appended(&before, &after, text) <==> (after@.len() == before@.len()
            + text.len() && after@.take(before@.len() as int) == before@ && forall|i: int|
            0 <= i < text.len() ==> #[trigger] after@[before@.len() + i] == text[i] as char),
{
    if <String as FastIntWrite>::appended(&before, &after, text) {
        assert(after@.take(before@.len() as int) =~= before@);
    }
    if after@.len() == before@.len() + text.len() && after@.take(before@.len() as int) == before@
        && forall|i: int| 0 <= i < text.len() ==> #[trigger] after@[before@.len() + i] == text[i] as char {
        assert forall|j: int| 0 <= j < after@.len() implies after@[j] == (before@
            + crate::support::as_chars(text))[j] by {
            if j < before@.len() {
                assert(after@[j] == after@.take(before@.len() as int)[j]);
            } else {
                assert(after@[before@.len() + (j - before@.len())] == text[j - before@.len()] as char);
            }
        }
        assert(after@ =~= before@ + crate::support::as_chars(text));
    }
}

/// Once an integer `v` has been appended to a `Vec<u8>`, the old bytes are
/// kept and the new bytes are ASCII digits that read back, most significant
/// first, as `v`, with no leading zero.
pub proof fn law_vec_append_integer(before: Vec<u8>, after: Vec<u8>, v: nat)
    requires
        <Vec<u8> as FastIntWrite>::appended(&before, &after, decimal(v)),
    ensures
        after@.len() == before@.len() + num_digits(v),
        after@.take(before@.len() as int) == before@,
        parse_digits(after@.skip(before@.len() as int)) == v,
        forall|i: int| before@.len() <= i < after@.len() ==> is_digit_byte(#[trigger] after@[i]),
        v > 0 ==> after@[before@.len() as int] != digit_byte(0),
{
    law_decimal_is_digits(v);
    law_decimal_roundtrip(v);
    assert(after@.take(before@.len() as int) =~= before@);
    assert(after@.skip(before@.len() as int) =~= decimal(v));
    assert forall|i: int| before@.len() <= i < after@.len() implies is_digit_byte(#[trigger] after@[i]) by {
        assert(after@[i] == decimal(v)[i - before@.len()]);
    }
    if v > 0 {
        law_decimal_no_leading_zero(v);
        assert(after@[before@.len() as int] == decimal(v)[0]);
    }
}

/// Where each value stands in the joined text: the suffix from value `k` on
/// starts after the digits of the earlier values and one separator per
/// earlier value.
proof fn lemma_joined_suffix(values: Seq<u64>, sep: u8, k: nat)
    requires
        k < values.len(),
    ensures
        joined(values, sep).len() == batch_len(values, k) + k + joined_from(values, sep, k).len(),
        joined(values, sep).skip((batch_len(values, k) + k) as int) == joined_from(values, sep, k),
    decreases k,
{
    if k == 0 {
        assert(joined(values, sep).skip(0) =~= joined(values, sep));
    } else {
        let j = (k - 1) as nat;
        lemma_joined_suffix(values, sep, j);
        let d = num_digits(values[j as int] as nat);
        lemma_fixed_width_len(values[j as int] as nat, d);
        let t = joined_from(values, sep, j);
        assert(t == decimal(values[j as int] as nat) + seq![sep] + joined_from(values, sep, k));
        assert(t.skip((d + 1) as int) =~= joined_from(values, sep, k));
        assert(joined(values, sep).skip((batch_len(values, k) + k) as int) =~= t.skip((d + 1) as int));
    }
}

/// The joined text is the values' decimal texts, most significant digit
/// first, with `sep` between consecutive values and nowhere else: value `i`
/// occupies the `num_digits(values[i])` bytes that start after the digits of
/// the earlier values and one separator for each of them, and those bytes
/// read back as `values[i]`.
pub proof fn law_joined_layout(values: Seq<u64>, sep: u8, i: int)
    requires
        0 <= i < values.len(),
    ensures
        ({
            let start = batch_len(values, i as nat) + i;
            let end = start + num_digits(values[i] as nat);
            &&& end <= joined(values, sep).len()
            &&& joined(values, sep).subrange(start, end) == decimal(values[i] as nat)
            &&& parse_digits(joined(values, sep).subrange(start, end)) == values[i]
            &&& forall|j: int| start <= j < end ==> is_digit_byte(#[trigger] joined(values, sep)[j])
            &&& i + 1 < values.len() ==> joined(values, sep)[end] == sep
            &&& i + 1 == values.len() ==> end == joined(values, sep).len()
        }),
{
    let k = i as nat;
    lemma_joined_suffix(values, sep, k);
    let start = batch_len(values, k) + k;
    let d = num_digits(values[i] as nat);
    law_decimal_is_digits(values[i] as nat);
    law_decimal_roundtrip(values[i] as nat);
    let t = joined_from(values, sep, k);
    let jn = joined(values, sep);
    if i + 1 < values.len() {
        assert(t == decimal(values[i] as nat) + seq![sep] + joined_from(values, sep, k + 1));
    } else {
        assert(t == decimal(values[i] as nat));
    }
    assert(jn.subrange(start as int, (start + d) as int) =~= t.take(d as int));
    assert(t.take(d as int) =~= decimal(values[i] as nat));
    assert forall|j: int| start <= j < start + d implies is_digit_byte(#[trigger] jn[j]) by {
        assert(jn[j] == jn.skip(start as int)[j - start]);
        assert(t[j - start] == decimal(values[i] as nat)[j - start]);
    }
    if i + 1 < values.len() {
        assert(jn[(start + d) as int] == jn.skip(start as int)[d as int]);
        assert(t[d as int] == sep);
    }
}

/// The joined text of no values is empty; otherwise its length is the total
/// digit count plus one separator between each pair of values.
pub proof fn law_joined_len(values: Seq<u64>, sep: u8)
    ensures
        values.len() == 0 ==> joined(values, sep).len() == 0,
        values.len() > 0 ==> joined(values, sep).len() == batch_len(values, values.len()) + values.len()
            - 1,
{
    if values.len() > 0 {
        let k = (values.len() - 1) as nat;
        lemma_joined_suffix(values, sep, k);
        lemma_fixed_width_len(values[k as int] as nat, num_digits(values[k as int] as nat));
        assert(joined_from(values, sep, k) == decimal(values[k as int] as nat));
    }
}

/// Byte `j` of the decimal text of `n` is the digit of `n` at decimal position
/// `num_digits(n) - 1 - j`: the text starts with the most significant digit.
pub proof fn law_decimal_digit_positions(n: nat, j: int)
    requires
        0 <= j < num_digits(n),
    ensures
        decimal(n)[j] == digit_byte((n / pow10((num_digits(n) - 1 - j) as nat)) % 10),
{
    lemma_fixed_width_index(n, num_digits(n), j);
}

/// The default number of samples for a batch of `len >= 1` values is at
/// least one, at most `len`, covers 1% of the batch and is the smallest count
/// that does.
pub proof fn law_default_sample_size(len: nat)
    requires
        len >= 1,
    ensures
        1 <= default_sample_size(len) <= len,
        len <= 100 * default_sample_size(len),
        default_sample_size(len) == 1 || 100 * (default_sample_size(len) - 1) < len,
{
}

/// The default choice is the homogeneous shape only when the dominant sampled
/// length is in `17..=20` and covers at least 95% of the samples.
pub proof fn law_default_variant_threshold(lengths: Seq<u8>)
    ensures
        default_variant(lengths) == Variant::Homogeneous17_20 ==> ({
            let s = sampled(lengths, default_sample_size(lengths.len()));
            &&& lengths.len() > 0
            &&& 17 <= s.dom_len <= 20
            &&& 20 * s.dom_count >= 19 * s.taken
            &&& s.taken > 0
        }),
{
}

proof fn lemma_max_count_bounds(lengths: Seq<u8>, step: nat, k: nat, upto: nat)
    ensures
        forall|b: nat| b < upto ==> #[trigger] sample_count(lengths, step, k, b) <= max_count(
            lengths,
            step,
            k,
            upto,
        ),
        upto > 0 ==> exists|b: nat|
            b < upto && #[trigger] sample_count(lengths, step, k, b) == max_count(
                lengths,
                step,
                k,
                upto,
            ),
    decreases upto,
{
    if upto > 0 {
        let u = (upto - 1) as nat;
        lemma_max_count_bounds(lengths, step, k, u);
        let c = sample_count(lengths, step, k, u);
        if c > max_count(lengths, step, k, u) || u == 0 {
            assert(sample_count(lengths, step, k, u) == max_count(lengths, step, k, upto));
        } else {
            let w = choose|b: nat| b < u && #[trigger] sample_count(lengths, step, k, b) == max_count(
                lengths,
                step,
                k,
                u,
            );
            assert(sample_count(lengths, step, k, w) == max_count(lengths, step, k, upto));
        }
    }
}

proof fn lemma_first_with_count_spec(lengths: Seq<u8>, step: nat, k: nat, c: nat, upto: nat)
    ensures
        first_with_count(lengths, step, k, c, upto) <= upto,
        first_with_count(lengths, step, k, c, upto) < upto ==> sample_count(
            lengths,
            step,
            k,
            first_with_count(lengths, step, k, c, upto),
        ) == c,
        forall|b: nat|
            b < first_with_count(lengths, step, k, c, upto) ==> #[trigger] sample_count(
                lengths,
                step,
                k,
                b,
            ) != c,
    decreases upto,
{
    if upto > 0 {
        lemma_first_with_count_spec(lengths, step, k, c, (upto - 1) as nat);
    }
}

/// The dominant length of a sample is the most frequent bucket among the
/// sampled lengths (lengths above 20 counted as 20), the smallest such bucket
/// when several tie, and its count is how often it was sampled.
pub proof fn law_sample_dominant(lengths: Seq<u8>, m: nat)
    requires
        m <= usize::MAX,
    ensures
        ({
            let s = sampled(lengths, m);
            let step = stride(lengths.len(), m);
            &&& s.taken == m
            &&& s.dom_len <= 20
            &&& sample_count(lengths, step, m, s.dom_len as nat) == s.dom_count
            &&& forall|b: nat| b <= 20 ==> #[trigger] sample_count(lengths, step, m, b) <= s.dom_count
            &&& forall|b: nat| b < s.dom_len ==> #[trigger] sample_count(lengths, step, m, b) < s.dom_count
        }),
{
    let step = stride(lengths.len(), m);
    let c = max_count(lengths, step, m, 21);
    lemma_max_count_bounds(lengths, step, m, 21);
    lemma_first_with_count_spec(lengths, step, m, c, 21);
    let w = choose|b: nat| b < 21 && #[trigger] sample_count(lengths, step, m, b) == c;
    let f = first_with_count(lengths, step, m, c, 21);
    if f == 21 {
        assert(sample_count(lengths, step, m, w) != c);
    }
    lemma_sample_count_bound(lengths, step, m, w);
}

proof fn lemma_sample_count_bound(lengths: Seq<u8>, step: nat, k: nat, b: nat)
    ensures
        sample_count(lengths, step, k, b) <= k,
    decreases k,
{
    if k > 0 {
        lemma_sample_count_bound(lengths, step, (k - 1) as nat, b);
    }
}

} // verus!
