//! Choice between the two batch conversion shapes. A batch's digit lengths
//! are sampled with a fixed stride, a histogram of the sampled lengths is
//! built, and the homogeneous shape is chosen only when the most frequent
//! sampled length lies in `17..=20` and is frequent enough.
use vstd::prelude::*;

verus! {

/// Which conversion shape the batch driver uses.
#[derive(Debug, Clone, Copy, PartialEq, Eq, Structural)]
pub enum Variant {
    /// The heterogeneous shape; correct for every digit length.
    Heterogeneous,
    /// The homogeneous shape for values of 17 to 20 digits.
    Homogeneous17_20,
}

/// The outcome of sampling a batch's digit lengths.
#[derive(Debug, Clone, Copy, PartialEq, Eq, Structural)]
pub struct Sample {
    /// The most frequent sampled length (the smallest one on a tie).
    pub dom_len: usize,
    /// How many samples have that length.
    pub dom_count: usize,
    /// Number of samples taken.
    pub taken: usize,
}

/// Histogram bucket of a digit length: lengths above 20 share bucket 20.
pub open spec fn bucket(l: u8) -> nat {
    if l <= 20 {
        l as nat
    } else {
        20
    }
}

/// Distance between two samples when `m` samples are drawn from `len` lengths.
pub open spec fn stride(len: nat, m: nat) -> nat {
    if m == 0 || len / m == 0 {
        1
    } else {
        len / m
    }
}

/// Number of the first `k` samples (positions `0, step, 2 * step, ...`) whose
/// bucket is `b`.
pub open spec fn sample_count(lengths: Seq<u8>, step: nat, k: nat, b: nat) -> nat
    decreases k,
{
    if k == 0 {
        0
    } else {
        sample_count(lengths, step, (k - 1) as nat, b) + if bucket(
            lengths[((k - 1) * step) as int],
        ) == b {
            1nat
        } else {
            0nat
        }
    }
}

/// The largest count among buckets `0..upto`.
pub open spec fn max_count(lengths: Seq<u8>, step: nat, k: nat, upto: nat) -> nat
    decreases upto,
{
    if upto == 0 {
        0
    } else {
        let prev = max_count(lengths, step, k, (upto - 1) as nat);
        let c = sample_count(lengths, step, k, (upto - 1) as nat);
        if c > prev {
            c
        } else {
            prev
        }
    }
}

/// The smallest bucket below `upto` whose count is `c`, or `upto` if none is.
pub open spec fn first_with_count(lengths: Seq<u8>, step: nat, k: nat, c: nat, upto: nat) -> nat
    decreases upto,
{
    if upto == 0 {
        0
    } else {
        let f = first_with_count(lengths, step, k, c, (upto - 1) as nat);
        if f < upto - 1 {
            f
        } else if sample_count(lengths, step, k, (upto - 1) as nat) == c {
            (upto - 1) as nat
        } else {
            upto
        }
    }
}

/// The sample of `m` lengths: the dominant bucket and its count.
pub open spec fn sampled(lengths: Seq<u8>, m: nat) -> Sample {
    let step = stride(lengths.len(), m);
    let c = max_count(lengths, step, m, 21);
    Sample {
        dom_len: first_with_count(lengths, step, m, c, 21) as usize,
        dom_count: c as usize,
        taken: m as usize,
    }
}

/// The shape chosen for a sample, given whether its dominant length is
/// frequent enough.
pub open spec fn variant_for(s: Sample, meets_threshold: bool) -> Variant {
    if s.taken > 0 && meets_threshold && 17 <= s.dom_len <= 20 {
        Variant::Homogeneous17_20
    } else {
        Variant::Heterogeneous
    }
}

/// Number of samples drawn by default: 1% of the batch, rounded up, at least
/// one and at most the batch size.
pub open spec fn default_sample_size(len: nat) -> nat {
    let m = if len % 100 == 0 {
        len / 100
    } else {
        len / 100 + 1
    };
    if m == 0 {
        1
    } else if m > len {
        len
    } else {
        m
    }
}

/// The default choice: 1% stride sample, homogeneous when the dominant sampled
/// length is in `17..=20` and covers at least 95% of the samples.
pub open spec fn default_variant(lengths: Seq<u8>) -> Variant {
    if lengths.len() == 0 {
        Variant::Heterogeneous
    } else {
        let s = sampled(lengths, default_sample_size(lengths.len()));
        variant_for(s, 20 * s.dom_count >= 19 * s.taken)
    }
}

proof fn lemma_sample_count_le(lengths: Seq<u8>, step: nat, k: nat, b: nat)
    ensures
        sample_count(lengths, step, k, b) <= k,
    decreases k,
{
    if k > 0 {
        lemma_sample_count_le(lengths, step, (k - 1) as nat, b);
    }
}

proof fn lemma_max_count_le(lengths: Seq<u8>, step: nat, k: nat, upto: nat)
    ensures
        max_count(lengths, step, k, upto) <= k,
    decreases upto,
{
    if upto > 0 {
        lemma_max_count_le(lengths, step, k, (upto - 1) as nat);
        lemma_sample_count_le(lengths, step, k, (upto - 1) as nat);
    }
}

/// Samples `m` of the `lengths` with a fixed stride and reports the most
/// frequent bucket (the smallest on a tie) and its count.
pub fn sample_lengths(lengths: &[u8], m: usize) -> (s: Sample)
    requires
        1 <= m <= lengths@.len(),
    ensures
        s == sampled(lengths@, m as nat),
{
    let len = lengths.len();
    let q = len / m;
    let step = if q > 1 {
        q
    } else {
        1
    };
    let ghost gstep = step as nat;
    proof {
        assert(gstep == stride(len as nat, m as nat));
        assert(m * step <= len) by (nonlinear_arith)
            requires
                q == len / m,
                step == if q > 1 {
                    q
                } else {
                    1
                },
                1 <= m <= len,
        ;
    }
    let mut hist = [0usize; 21];
    let mut taken: usize = 0;
    let mut i: usize = 0;
    while i < len && taken < m
        invariant
            len == lengths@.len(),
            1 <= m <= len,
            m * step <= len,
            gstep == step,
            step >= 1,
            taken <= m,
            i == taken * step,
            forall|b: int| 0 <= b < 21 ==> hist@[b] == sample_count(lengths@, gstep, taken as nat, b as nat),
        decreases m - taken,
    {
        let digit_len = lengths[i] as usize;
        let slot = if digit_len < 20 {
            digit_len
        } else {
            20
        };
        proof {
            lemma_sample_count_le(lengths@, gstep, taken as nat, slot as nat);
            assert((taken + 1) * step <= m * step) by (nonlinear_arith)
                requires
                    taken < m,
                    step >= 1,
            ;
            assert((taken + 1) * step == taken * step + step) by (nonlinear_arith);
        }
        hist[slot] = hist[slot] + 1;
        i = i + step;
        taken = taken + 1;
        proof {
            assert forall|b: int| 0 <= b < 21 implies hist@[b] == sample_count(
                lengths@,
                gstep,
                taken as nat,
                b as nat,
            ) by {
                assert(((taken - 1) * step) as int == (i - step) as int);
            }
        }
    }
    proof {
        if taken < m {
            assert(taken * step < m * step) by (nonlinear_arith)
                requires
                    taken < m,
                    step >= 1,
            ;
        }
        assert(taken == m);
    }
    let mut best_i: usize = 0;
    let mut best_c: usize = 0;
    let mut j: usize = 0;
    while j < 21
        invariant
            j <= 21,
            taken == m,
            forall|b: int| 0 <= b < 21 ==> hist@[b] == sample_count(lengths@, gstep, m as nat, b as nat),
            best_c == max_count(lengths@, gstep, m as nat, j as nat),
            best_i == first_with_count(lengths@, gstep, m as nat, best_c as nat, j as nat),
            j > 0 ==> best_i < j,
        decreases 21 - j,
    {
        let c = hist[j];
        proof {
            lemma_first_with_count_step(lengths@, gstep, m as nat, best_c as nat, j as nat, c as nat);
        }
        if c > best_c {
            best_i = j;
            best_c = c;
        }
        j = j + 1;
    }
    Sample { dom_len: best_i, dom_count: best_c, taken }
}

/// Maintaining the first-maximum while scanning one more bucket.
proof fn lemma_first_with_count_step(lengths: Seq<u8>, step: nat, k: nat, best: nat, j: nat, c: nat)
    requires
        best == max_count(lengths, step, k, j),
        c == sample_count(lengths, step, k, j),
        j > 0 ==> first_with_count(lengths, step, k, best, j) < j,
    ensures
        c > best ==> max_count(lengths, step, k, j + 1) == c && first_with_count(
            lengths,
            step,
            k,
            c,
            j + 1,
        ) == j,
        c <= best ==> max_count(lengths, step, k, j + 1) == best && first_with_count(
            lengths,
            step,
            k,
            best,
            j + 1,
        ) == if j > 0 {
            first_with_count(lengths, step, k, best, j)
        } else {
            0
        },
{
    if c > best {
        lemma_first_with_count_none(lengths, step, k, c, j);
    }
}

/// No bucket below `upto` reaches a count above the running maximum.
proof fn lemma_first_with_count_none(lengths: Seq<u8>, step: nat, k: nat, c: nat, upto: nat)
    requires
        c > max_count(lengths, step, k, upto),
    ensures
        first_with_count(lengths, step, k, c, upto) == upto,
    decreases upto,
{
    if upto > 0 {
        lemma_first_with_count_none(lengths, step, k, c, (upto - 1) as nat);
    }
}

/// The shape for a sample: homogeneous exactly when samples were taken, the
/// dominant length is frequent enough, and it lies in `17..=20`.
pub fn choose_variant(sample: &Sample, meets_threshold: bool) -> (v: Variant)
    ensures
        v == variant_for(*sample, meets_threshold),
{
    if sample.taken > 0 && meets_threshold && 17 <= sample.dom_len && sample.dom_len <= 20 {
        Variant::Homogeneous17_20
    } else {
        Variant::Heterogeneous
    }
}

/// Default number of samples for a batch of `len` lengths.
pub fn default_sample_size_of(len: usize) -> (m: usize)
    ensures
        m == default_sample_size(len as nat),
{
    let m = if len % 100 == 0 {
        len / 100
    } else {
        len / 100 + 1
    };
    if m == 0 {
        1
    } else if m > len {
        len
    } else {
        m
    }
}

/// Selects the shape for a batch with the default tuning: a 1% stride sample
/// and a 95% homogeneity threshold. An empty batch gets the heterogeneous
/// shape.
pub fn select_default(lengths: &[u8]) -> (v: Variant)
    ensures
        v == default_variant(lengths@),
{
    if lengths.len() == 0 {
        return Variant::Heterogeneous;
    }
    let m = default_sample_size_of(lengths.len());
    let s = sample_lengths(lengths, m);
    proof {
        lemma_max_count_le(lengths@, stride(lengths@.len(), m as nat), m as nat, 21);
    }
    let meets = (s.dom_count as u128) * 20 >= (s.taken as u128) * 19;
    choose_variant(&s, meets)
}

/// A policy that picks the conversion shape of a batch from its digit
/// lengths. The shape only affects speed: every shape writes the same bytes.
pub trait Selector {
    /// The shape to use for a batch whose digit lengths are `lengths`.
    fn select(&self, lengths: &[u8]) -> Variant;
}

/// The default policy, [`select_default`].
pub struct DefaultSelector;

impl Selector for DefaultSelector {
    fn select(&self, lengths: &[u8]) -> (v: Variant)
        ensures
            v == default_variant(lengths@),
    {
        select_default(lengths)
    }
}

} // verus!
