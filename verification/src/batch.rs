//! Batch conversion: many `u64` values written back to back, with an offset
//! table recording where each one starts; and a joined form with a separator
//! byte between values.
use vstd::prelude::*;

use crate::digits::count_digits;
use crate::error::Error;
use crate::kernels::homogeneous_17_20;
use crate::dispatch_simd;
use crate::model::{
    decimal, lemma_fixed_width_len, lemma_num_digits_le, lemma_pow10_values, num_digits, splice,
};
use crate::selector::{DefaultSelector, Selector, Variant};

verus! {

/// Total digit count of the first `i` values.
pub open spec fn batch_len(values: Seq<u64>, i: nat) -> nat
    decreases i,
{
    if i == 0 {
        0
    } else {
        batch_len(values, (i - 1) as nat) + num_digits(values[i - 1] as nat)
    }
}

/// The decimal texts of the first `i` values, back to back.
pub open spec fn batch_text(values: Seq<u64>, i: nat) -> Seq<u8>
    decreases i,
{
    if i == 0 {
        Seq::empty()
    } else {
        batch_text(values, (i - 1) as nat) + decimal(values[i - 1] as nat)
    }
}

/// The offset table of a batch: entry `j` is where value `j` starts, and the
/// last entry is the total length.
pub open spec fn batch_offsets(values: Seq<u64>) -> Seq<u32> {
    Seq::new((values.len() + 1) as nat, |j: int| batch_len(values, j as nat) as u32)
}

/// What a batch conversion leaves in the offset table when the total length
/// does not fit in `u32`: the entries whose start offset fits were written,
/// the others kept.
pub open spec fn partial_offsets(values: Seq<u64>, before: Seq<u32>) -> Seq<u32> {
    Seq::new(
        before.len(),
        |j: int|
            if batch_len(values, j as nat) <= u32::MAX {
                batch_len(values, j as nat) as u32
            } else {
                before[j]
            },
    )
}

/// The full outcome of a batch conversion, as a relation between the inputs,
/// the buffers before and after, and the result.
pub open spec fn batch_outcome(
    values: Seq<u64>,
    out_before: Seq<u8>,
    out_after: Seq<u8>,
    offsets_before: Seq<u32>,
    offsets_after: Seq<u32>,
    r: Result<usize, Error>,
) -> bool {
    let len = values.len();
    let total = batch_len(values, len);
    if offsets_before.len() != len + 1 {
        &&& r == Err::<usize, Error>(
            Error::OffsetsLengthMismatch {
                expected: (len + 1) as usize,
                got: offsets_before.len() as usize,
            },
        )
        &&& offsets_after == offsets_before
        &&& out_after == out_before
    } else if total > u32::MAX {
        &&& r == Err::<usize, Error>(Error::TotalLengthOverflow)
        &&& offsets_after == partial_offsets(values, offsets_before)
        &&& out_after == out_before
    } else if total > out_before.len() {
        &&& r == Err::<usize, Error>(
            Error::BufferTooSmall { need: total as usize, have: out_before.len() as usize },
        )
        &&& offsets_after == batch_offsets(values)
        &&& out_after == out_before
    } else {
        &&& r == Ok::<usize, Error>(total as usize)
        &&& offsets_after == batch_offsets(values)
        &&& out_after == batch_text(values, len) + out_before.skip(total as int)
    }
}

pub proof fn lemma_batch_len_monotone(values: Seq<u64>, i: nat, j: nat)
    requires
        i <= j,
    ensures
        batch_len(values, i) <= batch_len(values, j),
    decreases j,
{
    if i < j {
        lemma_batch_len_monotone(values, i, (j - 1) as nat);
    }
}

pub proof fn lemma_batch_text_len(values: Seq<u64>, i: nat)
    requires
        i <= values.len(),
    ensures
        batch_text(values, i).len() == batch_len(values, i),
    decreases i,
{
    if i > 0 {
        lemma_batch_text_len(values, (i - 1) as nat);
        lemma_fixed_width_len(values[i - 1] as nat, num_digits(values[i - 1] as nat));
    }
}

/// Value `i`'s text sits between its start offset and the next one.
pub proof fn lemma_batch_segment(values: Seq<u64>, i: nat, k: nat)
    requires
        i < k <= values.len(),
    ensures
        batch_len(values, i + 1) <= batch_len(values, k),
        batch_text(values, k).subrange(
            batch_len(values, i) as int,
            batch_len(values, i + 1) as int,
        ) =~= decimal(values[i as int] as nat),
    decreases k,
{
    lemma_batch_len_monotone(values, i + 1, k);
    lemma_batch_text_len(values, (k - 1) as nat);
    lemma_batch_text_len(values, i);
    if k == i + 1 {
        lemma_fixed_width_len(values[i as int] as nat, num_digits(values[i as int] as nat));
    } else {
        lemma_batch_segment(values, i, (k - 1) as nat);
    }
}

/// First pass of a batch conversion: the digit length of every value and the
/// start offsets (prefix sums of the lengths), followed by the total.
fn fill_offsets(values: &[u64], offsets: &mut [u32]) -> (r: Result<Vec<u8>, Error>)
    requires
        old(offsets)@.len() == values@.len() + 1,
    ensures
        match r {
            Ok(lengths) => {
                &&& batch_len(values@, values@.len()) <= u32::MAX
                &&& final(offsets)@ == batch_offsets(values@)
                &&& lengths@.len() == values@.len()
                &&& forall|j: int|
                    0 <= j < values@.len() ==> lengths@[j] == num_digits(values@[j] as nat)
            },
            Err(e) => {
                &&& e == Error::TotalLengthOverflow
                &&& batch_len(values@, values@.len()) > u32::MAX
                &&& final(offsets)@ == partial_offsets(values@, old(offsets)@)
            },
        },
{
    let ghost vals = values@;
    let mut lengths: Vec<u8> = Vec::with_capacity(values.len());
    let mut total: u32 = 0;
    let mut i: usize = 0;
    while i < values.len()
        invariant
            vals == values@,
            offsets@.len() == vals.len() + 1,
            offsets@.len() == old(offsets)@.len(),
            i <= vals.len(),
            total == batch_len(vals, i as nat),
            lengths@.len() == i,
            forall|j: int| 0 <= j < i ==> lengths@[j] == num_digits(vals[j] as nat),
            forall|j: int| 0 <= j < i ==> offsets@[j] == batch_len(vals, j as nat),
            forall|j: int| i <= j < offsets@.len() ==> offsets@[j] == old(offsets)@[j],
        decreases vals.len() - i,
    {
        let len = count_digits(values[i]);
        lengths.push(len as u8);
        offsets[i] = total;
        match total.checked_add(len) {
            Some(t) => {
                total = t;
            },
            None => {
                proof {
                    lemma_batch_len_monotone(vals, (i + 1) as nat, vals.len());
                    assert forall|j: int| 0 <= j < offsets@.len() implies offsets@[j]
                        == partial_offsets(vals, old(offsets)@)[j] by {
                        if j > i {
                            lemma_batch_len_monotone(vals, (i + 1) as nat, j as nat);
                        } else {
                            lemma_batch_len_monotone(vals, j as nat, i as nat);
                        }
                    }
                    assert(offsets@ =~= partial_offsets(vals, old(offsets)@));
                }
                return Err(Error::TotalLengthOverflow);
            },
        }
        i = i + 1;
    }
    offsets[values.len()] = total;
    proof {
        assert(offsets@ =~= batch_offsets(vals));
    }
    Ok(lengths)
}

/// Second pass of a batch conversion: every value written at its start
/// offset, in the chosen shape.
fn emit_batch(
    values: &[u64],
    out: &mut [u8],
    offsets: &[u32],
    lengths: &Vec<u8>,
    variant: Variant,
)
    requires
        offsets@ == batch_offsets(values@),
        batch_len(values@, values@.len()) <= old(out)@.len(),
        batch_len(values@, values@.len()) <= u32::MAX,
        lengths@.len() == values@.len(),
        forall|j: int| 0 <= j < values@.len() ==> lengths@[j] == num_digits(values@[j] as nat),
    ensures
        final(out)@ == batch_text(values@, values@.len()) + old(out)@.skip(
            batch_len(values@, values@.len()) as int,
        ),
{
    let ghost vals = values@;
    proof {
        assert(batch_len(vals, vals.len()) <= out.len());
    }
    let mut i: usize = 0;
    while i < values.len()
        invariant
            vals == values@,
            i <= vals.len(),
            offsets@ == batch_offsets(vals),
            batch_len(vals, vals.len()) <= out.len(),
            batch_len(vals, vals.len()) <= u32::MAX,
            out@.len() == old(out)@.len(),
            lengths@.len() == vals.len(),
            forall|j: int| 0 <= j < vals.len() ==> lengths@[j] == num_digits(vals[j] as nat),
            out@ == batch_text(vals, i as nat) + old(out)@.skip(batch_len(vals, i as nat) as int),
        decreases vals.len() - i,
    {
        let v = values[i];
        proof {
            lemma_batch_len_monotone(vals, (i + 1) as nat, vals.len());
            lemma_batch_text_len(vals, i as nat);
            lemma_fixed_width_len(v as nat, num_digits(v as nat));
        }
        let start = offsets[i] as usize;
        let n = lengths[i] as usize;
        let ghost mid = out@;
        proof {
            lemma_batch_len_monotone(vals, i as nat, vals.len());
            assert(start == batch_len(vals, i as nat));
            assert(n == num_digits(v as nat));
        }
        match variant {
            Variant::Heterogeneous => {
                dispatch_simd(v, n, out, start);
            },
            Variant::Homogeneous17_20 => {
                if n >= 17 {
                    proof {
                        lemma_pow10_values();
                        lemma_num_digits_le(v as nat, 16);
                    }
                    homogeneous_17_20(v, n, out, start);
                } else {
                    dispatch_simd(v, n, out, start);
                }
            },
        }
        proof {
            assert(out@ == splice(mid, start as int, decimal(v as nat)));
            assert(out@ =~= batch_text(vals, (i + 1) as nat) + old(out)@.skip(
                batch_len(vals, (i + 1) as nat) as int,
            ));
        }
        i = i + 1;
    }
}

/// Converts a batch of `u64` values to decimal ASCII, writing them back to
/// back into `out` and their start offsets into `offsets` (whose last entry
/// receives the total length); `selector` chooses the conversion shape from
/// the digit lengths, which does not change the bytes written.
pub fn fmt_batch_using<S: Selector>(
    values: &[u64],
    out: &mut [u8],
    offsets: &mut [u32],
    selector: &S,
) -> (r: Result<usize, Error>)
    requires
        values@.len() < usize::MAX,
    ensures
        batch_outcome(values@, old(out)@, final(out)@, old(offsets)@, final(offsets)@, r),
        r is Ok ==> forall|i: int|
            0 <= i < values@.len() ==> final(out)@.subrange(
                final(offsets)@[i] as int,
                final(offsets)@[i + 1] as int,
            ) == decimal(values@[i] as nat),
{
    let expected_offsets = values.len() + 1;
    if offsets.len() != expected_offsets {
        return Err(Error::OffsetsLengthMismatch { expected: expected_offsets, got: offsets.len() });
    }
    let lengths = match fill_offsets(values, offsets) {
        Ok(l) => l,
        Err(e) => {
            return Err(e);
        },
    };
    let total_bytes = offsets[values.len()] as usize;
    if out.len() < total_bytes {
        return Err(Error::BufferTooSmall { need: total_bytes, have: out.len() });
    }
    let variant = selector.select(lengths.as_slice());
    emit_batch(values, out, offsets, &lengths, variant);
    proof {
        let vals = values@;
        lemma_batch_text_len(vals, vals.len());
        assert forall|k: int| 0 <= k < vals.len() implies final(out)@.subrange(
            offsets@[k] as int,
            offsets@[k + 1] as int,
        ) == decimal(vals[k] as nat) by {
            lemma_batch_len_monotone(vals, (k + 1) as nat, vals.len());
            lemma_batch_segment(vals, k as nat, vals.len());
        }
    }
    Ok(total_bytes)
}

/// Converts a batch of `u64` values with the default shape selection (1%
/// stride sample, 95% homogeneity threshold); see [`fmt_batch_using`].
pub fn fmt_batch(values: &[u64], out: &mut [u8], offsets: &mut [u32]) -> (r: Result<usize, Error>)
    requires
        values@.len() < usize::MAX,
    ensures
        batch_outcome(values@, old(out)@, final(out)@, old(offsets)@, final(offsets)@, r),
        r is Ok ==> forall|i: int|
            0 <= i < values@.len() ==> final(out)@.subrange(
                final(offsets)@[i] as int,
                final(offsets)@[i + 1] as int,
            ) == decimal(values@[i] as nat),
{
    fmt_batch_using(values, out, offsets, &DefaultSelector)
}

/// The decimal texts of `values[k..]` separated by `sep`.
pub open spec fn joined_from(values: Seq<u64>, sep: u8, k: nat) -> Seq<u8>
    decreases values.len() - k,
{
    if k >= values.len() {
        Seq::empty()
    } else if k + 1 == values.len() {
        decimal(values[k as int] as nat)
    } else {
        decimal(values[k as int] as nat) + seq![sep] + joined_from(values, sep, k + 1)
    }
}

/// The decimal texts of all `values` separated by `sep`, with no trailing
/// separator.
pub open spec fn joined(values: Seq<u64>, sep: u8) -> Seq<u8> {
    joined_from(values, sep, 0)
}

/// The longest prefix of the joined text that is made of whole values and
/// whole separators and fits in `cap` bytes, when the text of `values[k..]`
/// starts at byte `pos`: its length.
pub open spec fn joined_fit(values: Seq<u64>, k: nat, pos: nat, cap: nat) -> nat
    decreases values.len() - k,
{
    if k >= values.len() {
        pos
    } else {
        let end = pos + num_digits(values[k as int] as nat);
        if end > cap {
            pos
        } else if k + 1 == values.len() || end + 1 > cap {
            end
        } else {
            joined_fit(values, k + 1, end + 1, cap)
        }
    }
}

/// The byte count reported when the joined text does not fit: its whole
/// length (`usize::MAX` if that length is not a `usize`).
pub open spec fn joined_need(values: Seq<u64>, sep: u8) -> usize {
    if joined(values, sep).len() <= usize::MAX {
        joined(values, sep).len() as usize
    } else {
        usize::MAX
    }
}

/// Length of the text of `values[k..]`: its first value's digits, then a
/// separator and the rest.
pub proof fn lemma_joined_from_len(values: Seq<u64>, sep: u8, k: nat)
    requires
        k < values.len(),
    ensures
        joined_from(values, sep, k).len() == num_digits(values[k as int] as nat) + if k + 1
            < values.len() {
            1 + joined_from(values, sep, k + 1).len()
        } else {
            0
        },
{
    lemma_fixed_width_len(values[k as int] as nat, num_digits(values[k as int] as nat));
}

/// The whole-piece prefix that fits is the whole text exactly when the text
/// fits, and it never goes past the buffer or the text.
pub proof fn lemma_joined_fit(values: Seq<u64>, sep: u8, k: nat, pos: nat, cap: nat)
    requires
        pos <= cap,
    ensures
        joined_fit(values, k, pos, cap) == pos + joined_from(values, sep, k).len() <==> pos
            + joined_from(values, sep, k).len() <= cap,
        pos <= joined_fit(values, k, pos, cap) <= cap,
        joined_fit(values, k, pos, cap) <= pos + joined_from(values, sep, k).len(),
    decreases values.len() - k,
{
    if k < values.len() {
        lemma_joined_from_len(values, sep, k);
        let d = num_digits(values[k as int] as nat);
        if k + 1 < values.len() && pos + d + 1 <= cap {
            lemma_joined_fit(values, sep, k + 1, pos + d + 1, cap);
        }
    }
}

/// Length of the joined text of `values`, saturating at `usize::MAX`.
fn joined_len(values: &[u64], sep: u8) -> (n: usize)
    ensures
        n == joined_need(values@, sep),
{
    let ghost vals = values@;
    let mut acc: usize = 0;
    let mut idx: usize = 0;
    while idx < values.len()
        invariant
            vals == values@,
            idx <= vals.len(),
            joined_from(vals, sep, 0).len() >= joined_from(vals, sep, idx as nat).len(),
            acc as int == if joined_from(vals, sep, 0).len() - joined_from(vals, sep, idx as nat).len()
                <= usize::MAX {
                joined_from(vals, sep, 0).len() - joined_from(vals, sep, idx as nat).len()
            } else {
                usize::MAX as int
            },
        decreases vals.len() - idx,
    {
        proof {
            lemma_joined_from_len(vals, sep, idx as nat);
        }
        let n = count_digits(values[idx]) as usize;
        acc = acc.saturating_add(n);
        if idx + 1 < values.len() {
            acc = acc.saturating_add(1);
        }
        idx = idx + 1;
    }
    proof {
        assert(joined_from(vals, sep, idx as nat) =~= Seq::<u8>::empty());
    }
    acc
}

/// Writes `values` as decimal text separated by `sep` into `out`, with no
/// trailing separator, and returns the number of bytes written. When the
/// whole text does not fit, `BufferTooSmall` reports its length as `need` and
/// the length of `out` as `have`; the values and separators that fitted, in
/// order, stay written at the front of `out`.
pub fn fmt_batch_joined(values: &[u64], sep: u8, out: &mut [u8]) -> (r: Result<usize, Error>)
    requires
        old(out)@.len() < usize::MAX,
    ensures
        r is Ok <==> joined(values@, sep).len() <= old(out)@.len(),
        r is Ok ==> r == Ok::<usize, Error>(joined(values@, sep).len() as usize),
        r is Err ==> r == Err::<usize, Error>(
            Error::BufferTooSmall {
                need: joined_need(values@, sep),
                have: old(out)@.len() as usize,
            },
        ),
        ({
            let w = joined_fit(values@, 0, 0, old(out)@.len());
            final(out)@ == joined(values@, sep).take(w as int) + old(out)@.skip(w as int)
        }),
{
    proof {
        lemma_joined_fit(values@, sep, 0, 0, old(out)@.len());
    }
    if values.len() == 0 {
        proof {
            assert(final(out)@ =~= joined(values@, sep).take(0) + old(out)@.skip(0));
        }
        return Ok(0);
    }
    let ghost vals = values@;
    let ghost cap = old(out)@.len();
    let ghost full = joined(vals, sep);
    let mut offset: usize = 0;
    let last = values.len() - 1;
    let mut idx: usize = 0;
    while idx < values.len()
        invariant
            vals == values@,
            cap == old(out)@.len(),
            out@.len() == cap,
            cap == out.len(),
            cap < usize::MAX,
            full == joined(vals, sep),
            last + 1 == vals.len(),
            idx <= vals.len(),
            offset <= cap,
            idx < vals.len() ==> idx == 0 || offset > 0,
            joined_fit(vals, idx as nat, offset as nat, cap) == joined_fit(vals, 0, 0, cap),
            full =~= out@.take(offset as int) + joined_from(vals, sep, idx as nat),
            out@.skip(offset as int) == old(out)@.skip(offset as int),
        decreases vals.len() - idx,
    {
        let v = values[idx];
        let have = out.len();
        proof {
            lemma_joined_from_len(vals, sep, idx as nat);
        }
        if offset > have {
            return Err(Error::BufferTooSmall { need: joined_len(values, sep), have });
        }
        let n = count_digits(v) as usize;
        proof {
            lemma_fixed_width_len(v as nat, n as nat);
        }
        if have - offset < n {
            proof {
                assert(final(out)@ =~= full.take(offset as int) + old(out)@.skip(offset as int));
            }
            return Err(Error::BufferTooSmall { need: joined_len(values, sep), have });
        }
        let ghost before = out@;
        dispatch_simd(v, n, out, offset);
        proof {
            if idx < last {
                assert(joined_from(vals, sep, idx as nat) == decimal(v as nat) + seq![sep]
                    + joined_from(vals, sep, (idx + 1) as nat));
            } else {
                assert(joined_from(vals, sep, idx as nat) == decimal(v as nat));
            }
            assert(out@.take((offset + n) as int) =~= before.take(offset as int) + decimal(
                v as nat,
            ));
            assert forall|j: int| 0 <= j < out@.len() - (offset + n) implies #[trigger] out@.skip(
                (offset + n) as int,
            )[j] == old(out)@.skip((offset + n) as int)[j] by {
                assert(before.skip(offset as int)[j + n] == old(out)@.skip(offset as int)[j + n]);
            }
            assert(out@.skip((offset + n) as int) =~= old(out)@.skip((offset + n) as int));
        }
        offset = offset + n;
        if idx < last {
            if offset >= have {
                proof {
                    assert(final(out)@ =~= full.take(offset as int) + old(out)@.skip(
                        offset as int,
                    ));
                }
                return Err(Error::BufferTooSmall { need: joined_len(values, sep), have });
            }
            let ghost before2 = out@;
            out[offset] = sep;
            proof {
                assert(out@.take((offset + 1) as int) =~= before2.take(offset as int) + seq![sep]);
                assert forall|j: int| 0 <= j < out@.len() - (offset + 1) implies #[trigger] out@.skip(
                    (offset + 1) as int,
                )[j] == old(out)@.skip((offset + 1) as int)[j] by {
                    assert(before2.skip(offset as int)[j + 1] == old(out)@.skip(offset as int)[j + 1]);
                }
                assert(out@.skip((offset + 1) as int) =~= old(out)@.skip((offset + 1) as int));
            }
            offset = offset + 1;
        }
        idx = idx + 1;
    }
    proof {
        assert(joined_from(vals, sep, idx as nat) =~= Seq::<u8>::empty());
        assert(final(out)@ =~= full.take(offset as int) + old(out)@.skip(offset as int));
    }
    Ok(offset)
}

} // verus!
