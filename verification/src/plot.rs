//! Which samples of a trace get drawn.
//!
//! A trace is reduced to the plot's pixel budget before it is drawn: either a
//! polyline through a thinned subset of the samples, or a min/max envelope over
//! one chunk of samples per pixel column. The values themselves are handled by
//! the caller; here are the sample indices each form is drawn from.

use vstd::prelude::*;

verus! {

/// Points kept per pixel column when thinning a polyline. Well above 1, so the
/// curve stays smooth.
pub const POINT_BUDGET: usize = 4;

/// The chunk of samples behind pixel column `c` of `columns`, over `n` samples:
/// from `c * n / columns`, at least one sample long, and never past the end.
pub open spec fn column_chunk(n: nat, columns: nat, c: nat) -> (nat, nat) {
    let lo = c * n / columns;
    let next = (c + 1) * n / columns;
    let hi = if next > lo + 1 { next } else { lo + 1 };
    (lo, if hi < n { hi } else { n })
}

/// The chunks of an envelope trace, one per pixel column, as half-open sample
/// ranges; each holds at least one sample and lies inside the trace.
pub fn band_columns(n: usize, columns: usize) -> (chunks: Vec<(usize, usize)>)
    requires
        n >= 1,
        columns * n <= usize::MAX,
    ensures
        chunks@.len() == columns,
        forall|c: int| 0 <= c < columns ==> {
            &&& (#[trigger] chunks@[c].0 as nat, chunks@[c].1 as nat) == column_chunk(n as nat, columns as nat, c as nat)
            &&& chunks@[c].0 < chunks@[c].1 <= n
        },
{
    let mut chunks: Vec<(usize, usize)> = Vec::new();
    let mut c: usize = 0;
    while c < columns
        invariant
            0 <= c <= columns,
            n >= 1,
            columns * n <= usize::MAX,
            chunks@.len() == c,
            forall|m: int| 0 <= m < c ==> {
                &&& (#[trigger] chunks@[m].0 as nat, chunks@[m].1 as nat) == column_chunk(n as nat, columns as nat, m as nat)
                &&& chunks@[m].0 < chunks@[m].1 <= n
            },
        decreases columns - c,
    {
        proof {
            vstd::arithmetic::mul::lemma_mul_inequality((c + 1) as int, columns as int, n as int);
            vstd::arithmetic::mul::lemma_mul_inequality(c as int, (c + 1) as int, n as int);
            vstd::arithmetic::mul::lemma_mul_is_commutative(columns as int, n as int);
            lemma_chunk_start_inside(n as int, columns as int, c as int);
        }
        let lo = c * n / columns;
        let next = (c + 1) * n / columns;
        let hi0 = if next > lo + 1 { next } else { lo + 1 };
        let hi = if hi0 < n { hi0 } else { n };
        chunks.push((lo, hi));
        c = c + 1;
    }
    chunks
}

/// A column before the last starts inside the trace.
proof fn lemma_chunk_start_inside(n: int, columns: int, c: int)
    requires
        n >= 1,
        0 <= c < columns,
    ensures
        (c * n) / columns < n,
{
    vstd::arithmetic::mul::lemma_mul_inequality(c, columns - 1, n);
    vstd::arithmetic::mul::lemma_mul_is_distributive_sub_other_way(n, columns, 1);
    vstd::arithmetic::mul::lemma_mul_is_commutative(n, columns);
    vstd::arithmetic::mul::lemma_mul_is_commutative(n, columns - 1);
    vstd::arithmetic::div_mod::lemma_div_is_ordered(c * n, columns * n - n, columns);
    vstd::arithmetic::div_mod::lemma_fundamental_div_mod(columns * n - n, columns);
    let q = (columns * n - n) / columns;
    if q >= n {
        vstd::arithmetic::mul::lemma_mul_inequality(n, q, columns);
        vstd::arithmetic::mul::lemma_mul_is_commutative(columns, q);
    }
}

/// A trace is drawn as an envelope when its cycles outrun the pixels: more than
/// one cycle per 2.5 columns, counting cycles of `bin`, the harmonic up to which
/// the tones carry most of the amplitude, over `n_periods` repeats. Cycles, not
/// samples, decide it, so raising the sample rate never turns a readable trace
/// into a band.
pub open spec fn needs_envelope(bin: nat, n_periods: nat, columns: nat) -> bool {
    5 * (bin * n_periods) > 2 * columns
}

/// Whether a trace is drawn as a min/max envelope over `columns` pixel columns,
/// when its tones carry most of their amplitude up to harmonic `bin` and the
/// record repeats `n_periods` times.
pub fn envelope_needed(bin: usize, n_periods: usize, columns: usize) -> (b: bool)
    ensures
        b == needs_envelope(bin as nat, n_periods as nat, columns as nat),
{
    assert((bin as int) * (n_periods as int) <= 0xffff_ffff_ffff_ffff_ffff_ffff_ffff_ffff) by (nonlinear_arith)
        requires
            bin <= usize::MAX,
            n_periods <= usize::MAX,
            usize::MAX <= u64::MAX,
    ;
    let cycles: u128 = (bin as u128) * (n_periods as u128);
    if cycles > (columns as u128) {
        true
    } else {
        5 * cycles > 2 * (columns as u128)
    }
}

/// The stride of a thinned polyline over `n` samples and `columns` pixel
/// columns: one while the samples fit the budget of `POINT_BUDGET` per column
/// (and at least two), else `n` over that budget, and never less than two.
pub open spec fn line_stride(n: nat, columns: nat) -> nat {
    let target: nat = if columns * POINT_BUDGET > 2 { (columns * POINT_BUDGET) as nat } else { 2 };
    if n <= target {
        1
    } else if n / target > 2 {
        n / target
    } else {
        2
    }
}

/// The samples of a polyline over `n` samples: every `stride`-th from the first,
/// then the last one when striding missed it, so the trace spans the full width.
pub open spec fn line_sample_seq(n: nat, columns: nat) -> Seq<usize> {
    let stride = line_stride(n, columns);
    let count = ((n + stride - 1) / (stride as int)) as nat;
    let strided = Seq::new(count, |j: int| (j * stride) as usize);
    if n == 0 || (count - 1) * stride == n - 1 {
        strided
    } else {
        strided.push((n - 1) as usize)
    }
}

/// With `j * stride < n <= (j + 1) * stride`, striding over `n` samples gives
/// `j + 1` of them.
proof fn lemma_stride_count(n: int, stride: int, j: int)
    requires
        stride >= 1,
        j >= 0,
        j * stride < n,
        n <= j * stride + stride,
    ensures
        (n + stride - 1) / stride == j + 1,
{
    vstd::arithmetic::mul::lemma_mul_is_distributive_add_other_way(stride, j, 1);
    vstd::arithmetic::div_mod::lemma_fundamental_div_mod_converse(
        n + stride - 1,
        stride,
        j + 1,
        n - 1 - j * stride,
    );
}

/// The sample indices a polyline trace is drawn through: ascending, from the
/// first sample to the last.
pub fn line_samples(n: usize, columns: usize) -> (idx: Vec<usize>)
    requires
        columns <= usize::MAX / POINT_BUDGET,
    ensures
        idx@ == line_sample_seq(n as nat, columns as nat),
        n > 0 ==> idx@.len() > 0 && idx@[0] == 0 && idx@.last() == n - 1,
        forall|a: int, b: int| 0 <= a < b < idx@.len() ==> idx@[a] < idx@[b],
{
    let budget = columns * POINT_BUDGET;
    let target = if budget > 2 { budget } else { 2 };
    let stride: usize = if n <= target {
        1
    } else if n / target > 2 {
        n / target
    } else {
        2
    };
    let mut idx: Vec<usize> = Vec::new();
    if n == 0 {
        proof {
            assert(idx@ =~= line_sample_seq(n as nat, columns as nat));
        }
        return idx;
    }
    let mut i: usize = 0;
    let mut j: usize = 0;
    loop
        invariant_except_break
            i == j * stride,
            i < n,
            idx@ == Seq::new(j as nat, |m: int| (m * stride) as usize),
        invariant
            n >= 1,
            stride >= 1,
        ensures
            i == j * stride,
            i < n,
            n <= i + stride,
            idx@ == Seq::new((j + 1) as nat, |m: int| (m * stride) as usize),
        decreases n - i,
    {
        idx.push(i);
        proof {
            assert(idx@ =~= Seq::new((j + 1) as nat, |m: int| (m * stride) as usize));
        }
        if n - i <= stride {
            break;
        }
        proof {
            vstd::arithmetic::mul::lemma_mul_is_distributive_add_other_way(stride as int, j as int, 1);
            assert(j <= j * stride) by (nonlinear_arith)
                requires
                    stride >= 1,
                    j >= 0,
            ;
        }
        i = i + stride;
        j = j + 1;
    }
    proof {
        lemma_stride_count(n as int, stride as int, j as int);
        assert forall|a: int, b: int| 0 <= a < b < j + 1 implies #[trigger] idx@[a] < #[trigger] idx@[b] by {
            vstd::arithmetic::mul::lemma_mul_strict_inequality(a, b, stride as int);
            vstd::arithmetic::mul::lemma_mul_inequality(b, j as int, stride as int);
        }
        assert(0 * stride == 0);
    }
    if i != n - 1 {
        idx.push(n - 1);
        proof {
            assert forall|a: int| 0 <= a < j + 1 implies #[trigger] idx@[a] <= i by {
                vstd::arithmetic::mul::lemma_mul_inequality(a, j as int, stride as int);
            }
        }
    }
    idx
}

/// On a linear frequency axis, two tones closer than this many pixels crowd
/// together.
pub const MIN_PAIR_PIXELS: usize = 6;

/// The spectrum is drawn on a log frequency axis when, on a linear axis spanning
/// the lowest to the highest bin over `columns` pixels, some pair of distinct tones
/// would sit closer than `MIN_PAIR_PIXELS`. The closest pair decides, not how many
/// decades the tones span, so an evenly spaced set whose spacing is visible keeps
/// its linear axis.
pub open spec fn prefers_log_axis(bins: Seq<usize>, columns: nat) -> bool {
    exists|i: int, j: int, p: int, q: int|
        #![trigger bins[i], bins[j], bins[p], bins[q]]
        0 <= i < bins.len() && 0 <= j < bins.len() && 0 <= p < bins.len() && 0 <= q < bins.len()
            && bins[i] < bins[j]
            && (bins[j] - bins[i]) * columns < MIN_PAIR_PIXELS * (bins[q] - bins[p])
}

/// Whether the spectrum of tones at `bins` (all inputs together) is drawn on a
/// log frequency axis `columns` pixels wide.
pub fn log_axis_preferred(bins: &[usize], columns: usize) -> (b: bool)
    ensures
        b == prefers_log_axis(bins@, columns as nat),
{
    let n = bins.len();
    if n == 0 {
        return false;
    }
    let mut lo_i: usize = 0;
    let mut hi_i: usize = 0;
    let mut t: usize = 1;
    while t < n
        invariant
            n == bins@.len(),
            1 <= t <= n,
            lo_i < n,
            hi_i < n,
            forall|x: int| 0 <= x < t ==> bins@[lo_i as int] <= #[trigger] bins@[x] <= bins@[hi_i as int],
        decreases n - t,
    {
        if bins[t] < bins[lo_i] {
            lo_i = t;
        }
        if bins[t] > bins[hi_i] {
            hi_i = t;
        }
        t = t + 1;
    }
    let span: u128 = (bins[hi_i] - bins[lo_i]) as u128;
    let mut i: usize = 0;
    while i < n
        invariant
            n == bins@.len(),
            0 <= i <= n,
            lo_i < n,
            hi_i < n,
            span == bins@[hi_i as int] - bins@[lo_i as int],
            forall|x: int| 0 <= x < n ==> bins@[lo_i as int] <= #[trigger] bins@[x] <= bins@[hi_i as int],
            forall|a: int, c: int| 0 <= a < i && 0 <= c < n && #[trigger] bins@[a] < #[trigger] bins@[c]
                ==> (bins@[c] - bins@[a]) * columns >= MIN_PAIR_PIXELS * span,
        decreases n - i,
    {
        let mut j: usize = 0;
        while j < n
            invariant
                n == bins@.len(),
                0 <= i < n,
                0 <= j <= n,
                lo_i < n,
                hi_i < n,
                span == bins@[hi_i as int] - bins@[lo_i as int],
                forall|x: int| 0 <= x < n ==> bins@[lo_i as int] <= #[trigger] bins@[x] <= bins@[hi_i as int],
                forall|a: int, c: int| 0 <= a < i && 0 <= c < n && #[trigger] bins@[a] < #[trigger] bins@[c]
                    ==> (bins@[c] - bins@[a]) * columns >= MIN_PAIR_PIXELS * span,
                forall|c: int| 0 <= c < j && bins@[i as int] < #[trigger] bins@[c]
                    ==> (bins@[c] - bins@[i as int]) * columns >= MIN_PAIR_PIXELS * span,
            decreases n - j,
        {
            if bins[i] < bins[j] {
                let gap: u128 = (bins[j] - bins[i]) as u128;
                assert(gap * (columns as u128) <= u128::MAX) by (nonlinear_arith)
                    requires
                        gap <= usize::MAX,
                        columns <= usize::MAX,
                        usize::MAX <= u64::MAX,
                ;
                if gap * (columns as u128) < 6 * span {
                    proof {
                        assert(bins@[i as int] < bins@[j as int]);
                        assert((bins@[j as int] - bins@[i as int]) * columns < MIN_PAIR_PIXELS * (bins@[hi_i as int] - bins@[lo_i as int]));
                    }
                    return true;
                }
            }
            j = j + 1;
        }
        i = i + 1;
    }
    proof {
        if prefers_log_axis(bins@, columns as nat) {
            let (a, c, p, q) = choose|a: int, c: int, p: int, q: int|
                #![trigger bins@[a], bins@[c], bins@[p], bins@[q]]
                0 <= a < bins@.len() && 0 <= c < bins@.len() && 0 <= p < bins@.len() && 0 <= q < bins@.len()
                    && bins@[a] < bins@[c]
                    && (bins@[c] - bins@[a]) * columns < MIN_PAIR_PIXELS * (bins@[q] - bins@[p]);
            assert(bins@[q] - bins@[p] <= span);
            assert((bins@[c] - bins@[a]) * columns >= MIN_PAIR_PIXELS * span);
        }
    }
    false
}

/// Repeats count towards the envelope decision: `n_periods` repeats of a record
/// are decided like one record holding all their cycles, more repeats never turn
/// an envelope back into a polyline, and the line between the two lies at one
/// cycle per 2.5 pixel columns.
pub proof fn lemma_envelope_counts_every_cycle(bin: nat, n_periods: nat, more_periods: nat, columns: nat)
    ensures
        needs_envelope(bin, n_periods, columns) == needs_envelope(bin * n_periods, 1, columns),
        n_periods <= more_periods && needs_envelope(bin, n_periods, columns)
            ==> needs_envelope(bin, more_periods, columns),
        needs_envelope(bin, n_periods, columns) <==> 2 * columns < 5 * (bin * n_periods),
{
    assert(bin * n_periods * 1 == bin * n_periods);
    if n_periods <= more_periods {
        assert(bin * n_periods <= bin * more_periods) by (nonlinear_arith)
            requires
                n_periods <= more_periods,
        ;
    }
}

/// How a polyline thins `n` samples on `columns` pixel columns. While the samples
/// fit the budget of `POINT_BUDGET` per column (and at least two), every sample is
/// kept. Past it, the kept samples run from the first to the last, each
/// `max(n / budget, 2)` after the one before (the last sample alone may come
/// sooner), so at least half the budget of points is drawn.
pub proof fn lemma_line_samples_stride(n: nat, columns: nat)
    requires
        n <= usize::MAX,
    ensures
        ({
            let idx = line_sample_seq(n, columns);
            let target: nat = if columns * POINT_BUDGET > 2 { (columns * POINT_BUDGET) as nat } else { 2 };
            let stride: nat = if n / target > 2 { n / target } else { 2 };
            &&& n <= target ==> idx == Seq::new(n, |i: int| i as usize)
            &&& n > target ==> {
                &&& idx.len() >= 2
                &&& idx[0] == 0
                &&& idx.last() == n - 1
                &&& forall|j: int| 0 <= j && j + 2 < idx.len() ==> #[trigger] idx[j + 1] == idx[j] + stride
                &&& 0 < idx.last() - idx[idx.len() - 2] <= stride
                &&& idx.len() >= target / 2
            }
        }),
{
    let idx = line_sample_seq(n, columns);
    let target: nat = if columns * POINT_BUDGET > 2 { (columns * POINT_BUDGET) as nat } else { 2 };
    let stride = line_stride(n, columns);
    if n <= target {
        assert(stride == 1);
        if n > 0 {
            assert((n + 1 - 1) / 1 == n);
        }
        assert(idx =~= Seq::new(n, |i: int| i as usize));
    } else {
        assert(stride == if n / target > 2 { n / target } else { 2 });
        let count = ((n + stride - 1) / (stride as int)) as nat;
        vstd::arithmetic::div_mod::lemma_fundamental_div_mod(n + stride - 1, stride as int);
        let r = (n + stride - 1) % (stride as int);
        assert(count * stride == n + stride - 1 - r) by (nonlinear_arith)
            requires
                n + stride - 1 == stride * count + r,
        ;
        assert(n <= count * stride);
        assert((count - 1) * stride == n - 1 - r) by (nonlinear_arith)
            requires
                count * stride == n + stride - 1 - r,
        ;
        // the stride leaves at least two samples
        assert(stride < n) by {
            if n / target > 2 {
                vstd::arithmetic::div_mod::lemma_div_is_ordered_by_denominator(n as int, 2, target as int);
            }
        }
        assert(count >= 2) by {
            if count < 2 {
                assert(count * stride <= 1 * stride) by (nonlinear_arith)
                    requires
                        count < 2,
                ;
            }
        }
        let strided = Seq::new(count, |j: int| (j * stride) as usize);
        assert forall|j: int| 0 <= j < count implies #[trigger] strided[j] == j * stride by {
            assert(j * stride <= (count - 1) * stride) by (nonlinear_arith)
                requires
                    j <= count - 1,
            ;
            assert(0 <= j * stride) by (nonlinear_arith)
                requires
                    j >= 0,
            ;
        }
        assert forall|j: int| 0 <= j && j + 2 < idx.len() implies #[trigger] idx[j + 1] == idx[j] + stride by {
            assert(idx[j] == strided[j]);
            assert(idx[j + 1] == strided[j + 1]);
            assert((j + 1) * stride == j * stride + stride) by (nonlinear_arith);
        }
        assert(idx[0] == strided[0]);
        assert(strided[count - 1] == (count - 1) * stride);
        assert(strided[count - 2] == (count - 2) * stride);
        assert((count - 2) * stride == (count - 1) * stride - stride) by (nonlinear_arith);
        // enough points: every stride fits the budget at least half the time
        assert(count >= target / 2) by {
            if n / target > 2 {
                vstd::arithmetic::div_mod::lemma_fundamental_div_mod(n as int, target as int);
                assert(stride * target <= n);
                if count < target {
                    assert(count * stride < target * stride) by (nonlinear_arith)
                        requires
                            count < target,
                            stride >= 1,
                    ;
                }
            } else {
                assert(count * 2 >= n);
            }
        }
    }
}

/// The spectrum's axis depends only on which bins are present: any reordering
/// of the bins, or any repetition of them, gives the same choice.
pub proof fn lemma_log_axis_ignores_order(bins: Seq<usize>, other: Seq<usize>, columns: nat)
    requires
        bins.to_set() == other.to_set(),
    ensures
        prefers_log_axis(bins, columns) == prefers_log_axis(other, columns),
{
    if prefers_log_axis(bins, columns) {
        lemma_log_axis_carries_over(bins, other, columns);
    }
    if prefers_log_axis(other, columns) {
        lemma_log_axis_carries_over(other, bins, columns);
    }
}

proof fn lemma_log_axis_carries_over(bins: Seq<usize>, other: Seq<usize>, columns: nat)
    requires
        bins.to_set() == other.to_set(),
        prefers_log_axis(bins, columns),
    ensures
        prefers_log_axis(other, columns),
{
    let (i, j, p, q) = choose|i: int, j: int, p: int, q: int|
        #![trigger bins[i], bins[j], bins[p], bins[q]]
        0 <= i < bins.len() && 0 <= j < bins.len() && 0 <= p < bins.len() && 0 <= q < bins.len()
            && bins[i] < bins[j]
            && (bins[j] - bins[i]) * columns < MIN_PAIR_PIXELS * (bins[q] - bins[p]);
    assert(bins.to_set().contains(bins[i]) && bins.to_set().contains(bins[j]));
    assert(bins.to_set().contains(bins[p]) && bins.to_set().contains(bins[q]));
    assert(other.contains(bins[i]) && other.contains(bins[j]) && other.contains(bins[p]) && other.contains(bins[q]));
    let i2 = choose|x: int| 0 <= x < other.len() && other[x] == bins[i];
    let j2 = choose|x: int| 0 <= x < other.len() && other[x] == bins[j];
    let p2 = choose|x: int| 0 <= x < other.len() && other[x] == bins[p];
    let q2 = choose|x: int| 0 <= x < other.len() && other[x] == bins[q];
    assert(other[i2] < other[j2]
        && (other[j2] - other[i2]) * columns < MIN_PAIR_PIXELS * (other[q2] - other[p2]));
}

} // verus!
