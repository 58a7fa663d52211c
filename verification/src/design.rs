//! Input specifications, harmonic-bin allocation, and the structural checks of a
//! design.
//!
//! Everything here works on harmonic bin numbers: bin `k` is the tone at `k * f0`,
//! where `f0 = 1 / record_length`. Frequencies, amplitudes and phases are handled
//! by the caller; the decisions about which bins an input gets live here.

use crate::fft::{next_power_of_two, power_of_two_ceiling};
use std::collections::HashSet;
use vstd::prelude::*;
use vstd::std_specs::hash::*;
use vstd::std_specs::iter::IteratorSpec;
use vstd::string::StringExecFns;

verus! {

broadcast use vstd::std_specs::hash::group_hash_axioms;

/// Optimisation grid points per cycle of the highest tone.
pub const OVERSAMPLE: usize = 8;

/// Smallest optimisation grid.
pub const MIN_GRID: usize = 256;

/// Finer grid for reporting RPF and setting the peak scale.
pub const MEASURE_OVERSAMPLE: usize = 32;

/// Smallest reporting grid.
pub const MIN_MEASURE_GRID: usize = 2048;

/// A design that cannot describe a signal at all.
#[derive(Debug, Clone, PartialEq, Eq)]
pub struct DesignError(pub String);

impl DesignError {
    /// The message, as shown to the user.
    pub fn to_string(&self) -> (s: String)
        ensures
            s@ == self.0@,
    {
        self.0.clone()
    }

    /// No inputs were given.
    pub fn no_inputs() -> (e: DesignError)
        ensures
            e.0@ == "add at least one input"@,
    {
        DesignError(String::from_str("add at least one input"))
    }

    /// The record length is not a positive number.
    pub fn bad_record_length() -> (e: DesignError)
        ensures
            e.0@ == "record length must be a positive number"@,
    {
        DesignError(String::from_str("record length must be a positive number"))
    }

    /// The sample rate is not a positive number.
    pub fn bad_sample_rate() -> (e: DesignError)
        ensures
            e.0@ == "sample rate must be a positive number"@,
    {
        DesignError(String::from_str("sample rate must be a positive number"))
    }

    /// Fewer than one repeat was asked for.
    pub fn bad_repeats() -> (e: DesignError)
        ensures
            e.0@ == "repeats must be at least one"@,
    {
        DesignError(String::from_str("repeats must be at least one"))
    }

    /// An input has an empty tone list.
    pub fn no_tones(name: &str) -> (e: DesignError)
        ensures
            e.0@ == name@ + ": add at least one tone"@,
    {
        let mut s = String::from_str(name);
        s.append(": add at least one tone");
        DesignError(s)
    }

    /// An input has tones, but none with a usable frequency.
    pub fn no_usable_tones(name: &str) -> (e: DesignError)
        ensures
            e.0@ == name@ + ": no usable tones"@,
    {
        let mut s = String::from_str(name);
        s.append(": no usable tones");
        DesignError(s)
    }
}

/// Amplitude shape of a generated tone set.
#[derive(Debug, Clone, Copy, PartialEq, Eq, Structural)]
pub enum Shape {
    Flat,
    InvSqrtF,
    InvF,
    InvF15,
}

/// The name a shape is shown under.
pub open spec fn shape_label(shape: Shape) -> Seq<char> {
    match shape {
        Shape::Flat => "flat"@,
        Shape::InvSqrtF => "1/sqrt(f)"@,
        Shape::InvF => "1/f"@,
        Shape::InvF15 => "1/f^1.5"@,
    }
}

impl Shape {
    pub const ALL: [Shape; 4] = [Shape::Flat, Shape::InvSqrtF, Shape::InvF, Shape::InvF15];

    pub fn label(self) -> (s: &'static str)
        ensures
            s@ == shape_label(self),
    {
        match self {
            Shape::Flat => "flat",
            Shape::InvSqrtF => "1/sqrt(f)",
            Shape::InvF => "1/f",
            Shape::InvF15 => "1/f^1.5",
        }
    }
}

/// How generated tones are laid out across the band.
#[derive(Debug, Clone, Copy, PartialEq, Eq, Structural)]
pub enum Spacing {
    Linear,
    Logarithmic,
}

/// The name a spacing is shown under.
pub open spec fn spacing_label(spacing: Spacing) -> Seq<char> {
    match spacing {
        Spacing::Linear => "linear"@,
        Spacing::Logarithmic => "logarithmic"@,
    }
}

impl Spacing {
    pub const ALL: [Spacing; 2] = [Spacing::Linear, Spacing::Logarithmic];

    pub fn label(self) -> (s: &'static str)
        ensures
            s@ == spacing_label(self),
    {
        match self {
            Spacing::Linear => "linear",
            Spacing::Logarithmic => "logarithmic",
        }
    }
}


/// The largest bin of a channel, or one for a channel without tones.
pub open spec fn top_bin(bins: Seq<usize>) -> nat
    decreases bins.len(),
{
    if bins.len() == 0 {
        1
    } else {
        let rest = top_bin(bins.drop_last());
        if bins.len() == 1 || bins.last() as nat > rest {
            bins.last() as nat
        } else {
            rest
        }
    }
}

/// `top_bin` is one of the bins (or one), and no bin exceeds it.
pub proof fn lemma_top_bin(bins: Seq<usize>)
    ensures
        bins.len() == 0 ==> top_bin(bins) == 1,
        bins.len() > 0 ==> bins.contains(top_bin(bins) as usize),
        forall|i: int| 0 <= i < bins.len() ==> bins[i] <= top_bin(bins),
    decreases bins.len(),
{
    if bins.len() > 0 {
        lemma_top_bin(bins.drop_last());
        assert(forall|i: int| 0 <= i < bins.len() - 1 ==> bins.drop_last()[i] == bins[i]);
        if bins.len() > 1 && bins.last() as nat <= top_bin(bins.drop_last()) {
            let w = choose|i: int| 0 <= i < bins.drop_last().len() && bins.drop_last()[i] == top_bin(bins.drop_last()) as usize;
            assert(bins[w] == top_bin(bins) as usize);
        } else {
            assert(bins[bins.len() - 1] == top_bin(bins) as usize);
        }
    }
}

/// The largest bin, or one when there are none.
pub fn max_bin(bins: &[usize]) -> (k: usize)
    ensures
        k == top_bin(bins@),
{
    let mut best: usize = 1;
    let mut i: usize = 0;
    while i < bins.len()
        invariant
            0 <= i <= bins@.len(),
            best == top_bin(bins@.take(i as int)),
        decreases bins@.len() - i,
    {
        proof {
            assert(bins@.take(i + 1).drop_last() =~= bins@.take(i as int));
        }
        if i == 0 || bins[i] > best {
            best = bins[i];
        }
        i = i + 1;
    }
    proof {
        assert(bins@.take(bins@.len() as int) =~= bins@);
    }
    best
}

/// Points on the optimisation grid: a power of two resolving the top tone at
/// `OVERSAMPLE` points per cycle, and never fewer than `MIN_GRID`.
pub open spec fn spec_grid_size(bins: Seq<usize>) -> nat {
    let p = power_of_two_ceiling((OVERSAMPLE * top_bin(bins)) as nat);
    if p > MIN_GRID { p } else { MIN_GRID as nat }
}

/// Points on the measurement grid, which must out-resolve the output sampling.
pub open spec fn spec_measure_grid(bins: Seq<usize>) -> nat {
    let p = power_of_two_ceiling((MEASURE_OVERSAMPLE * top_bin(bins)) as nat);
    if p > MIN_MEASURE_GRID { p } else { MIN_MEASURE_GRID as nat }
}

/// Optimisation grid: decoupled from the output rate, sized to resolve the peak.
pub fn grid_size(bins: &[usize]) -> (n: usize)
    requires
        OVERSAMPLE * top_bin(bins@) <= usize::MAX / 2 + 1,
    ensures
        n == spec_grid_size(bins@),
{
    let k_max = max_bin(bins);
    let p = next_power_of_two(OVERSAMPLE * k_max);
    if p > MIN_GRID { p } else { MIN_GRID }
}

/// Reporting grid. Must out-resolve the output sampling, or the scale factor is
/// set from a peak the exported signal then exceeds.
pub fn measure_grid(bins: &[usize]) -> (n: usize)
    requires
        MEASURE_OVERSAMPLE * top_bin(bins@) <= usize::MAX / 2 + 1,
    ensures
        n == spec_measure_grid(bins@),
{
    let k_max = max_bin(bins);
    let p = next_power_of_two(MEASURE_OVERSAMPLE * k_max);
    if p > MIN_MEASURE_GRID { p } else { MIN_MEASURE_GRID }
}


/// Bin `k` may be given to an input: inside the band, not taken by another input,
/// and odd when only odd harmonics are wanted.
pub open spec fn is_free_bin(k: usize, k_lo: usize, k_hi: usize, avoid: Set<usize>, odd_only: bool) -> bool {
    &&& k_lo <= k <= k_hi
    &&& !avoid.contains(k)
    &&& (!odd_only || k % 2 == 1)
}

/// The bins in `k_lo..=k_hi` that are not in `avoid` (and odd, when asked).
pub fn free_bins(k_lo: usize, k_hi: usize, avoid: &HashSet<usize>, odd_only: bool) -> (free: HashSet<usize>)
    ensures
        forall|k: usize| #[trigger] free@.contains(k) <==> is_free_bin(k, k_lo, k_hi, avoid@, odd_only),
{
    let mut free: HashSet<usize> = HashSet::new();
    if k_lo > k_hi {
        return free;
    }
    let mut k = k_lo;
    loop
        invariant
            k_lo <= k <= k_hi,
            forall|x: usize| #[trigger] free@.contains(x) <==> (is_free_bin(x, k_lo, k_hi, avoid@, odd_only) && x < k),
        decreases k_hi - k,
    {
        if !avoid.contains(&k) && (!odd_only || k % 2 == 1) {
            free.insert(k);
        }
        if k == k_hi {
            return free;
        }
        k = k + 1;
    }
}

/// Spacing between bins of a run must be a multiple of this: two when only odd
/// harmonics are allowed.
pub open spec fn run_step(odd_only: bool) -> int {
    if odd_only { 2 } else { 1 }
}

/// The `j`-th bin of the run that starts at `start` with spacing `d`.
pub open spec fn run_bin(start: int, d: int, j: int) -> usize {
    (start + j * d) as usize
}

/// Every bin of the run lies in `free`.
pub open spec fn run_in(free: Set<usize>, start: int, d: int, count: int) -> bool {
    forall|j: int| 0 <= j < count ==> #[trigger] free.contains(run_bin(start, d, j))
}

/// An exact arithmetic run of `count` free bins with spacing `d` from `start`,
/// inside `k_lo..=k_hi` and spanning at least 85% of it.
pub open spec fn is_run_candidate(
    free: Set<usize>,
    k_lo: int,
    k_hi: int,
    count: int,
    odd_only: bool,
    d: int,
    start: int,
) -> bool {
    &&& d >= run_step(odd_only)
    &&& d % run_step(odd_only) == 0
    &&& k_lo <= start
    &&& start + (count - 1) * d <= k_hi
    &&& 20 * ((count - 1) * d) >= 17 * (k_hi - k_lo)
    &&& run_in(free, start, d, count)
}

/// The candidate run with the widest spacing, and among those the lowest start.
pub open spec fn is_best_run(
    free: Set<usize>,
    k_lo: int,
    k_hi: int,
    count: int,
    odd_only: bool,
    d: int,
    start: int,
) -> bool {
    &&& is_run_candidate(free, k_lo, k_hi, count, odd_only, d, start)
    &&& forall|d2: int, s2: int| #[trigger] is_run_candidate(free, k_lo, k_hi, count, odd_only, d2, s2)
        ==> d2 < d || (d2 == d && start <= s2)
}

/// The bins of the run.
pub open spec fn run_seq(start: int, d: int, count: int) -> Seq<usize> {
    Seq::new(count as nat, |j: int| run_bin(start, d, j))
}

/// The least element of a set of bins.
pub open spec fn is_least(set: Set<usize>, k: usize) -> bool {
    set.contains(k) && forall|x: usize| #[trigger] set.contains(x) ==> k <= x
}

/// The least bin of a set, if it has one.
fn least_bin(free: &HashSet<usize>) -> (r: Option<usize>)
    ensures
        r is None <==> free@.is_empty(),
        r matches Some(k) ==> is_least(free@, k),
{
    let mut best: Option<usize> = None;
    let ghost keys = spec_hash_keys_iter(free).remaining().unref();
    for k in it: free.iter()
        invariant
            keys == it.seq().unref(),
            keys.to_set() == free@,
            best is None <==> it.index() == 0,
            best matches Some(b) ==> keys.contains(b) && forall|i: int| 0 <= i < it.index() ==> b <= #[trigger] keys[i],
    {
        match best {
            None => best = Some(*k),
            Some(b) => if *k < b { best = Some(*k) },
        }
    }
    proof {
        if best is None {
            if !free@.is_empty() {
                let x = free@.choose();
                assert(keys.to_set().contains(x));
            }
        } else {
            assert forall|x: usize| #[trigger] free@.contains(x) implies best->0 <= x by {
                assert(keys.to_set().contains(x));
                let i = keys.index_of(x);
            }
        }
    }
    best
}


/// Whether the run from `start` with spacing `d` lies wholly in `free`.
fn run_fits(free: &HashSet<usize>, start: usize, d: usize, count: usize) -> (fits: bool)
    requires
        start + (count - 1) * d <= usize::MAX,
        count >= 1,
    ensures
        fits == run_in(free@, start as int, d as int, count as int),
{
    let mut j: usize = 0;
    let mut k: usize = start;
    while j < count
        invariant
            count >= 1,
            start + (count - 1) * d <= usize::MAX,
            0 <= j <= count,
            j < count ==> k == start + j * d,
            forall|i: int| 0 <= i < j ==> #[trigger] free@.contains(run_bin(start as int, d as int, i)),
        decreases count - j,
    {
        assert(run_bin(start as int, d as int, j as int) == k);
        if !free.contains(&k) {
            return false;
        }
        if j + 1 < count {
            assert((j + 1) * d <= (count - 1) * d) by (nonlinear_arith)
                requires
                    j + 1 <= count - 1,
            ;
            assert((j + 1) * d == j * d + d) by (nonlinear_arith);
            k = k + d;
        }
        j = j + 1;
    }
    true
}

/// The bins of the run, in order.
fn run_bins(start: usize, d: usize, count: usize) -> (run: Vec<usize>)
    requires
        count >= 1,
        start + (count - 1) * d <= usize::MAX,
    ensures
        run@ == run_seq(start as int, d as int, count as int),
{
    let mut run: Vec<usize> = Vec::new();
    let mut j: usize = 0;
    let mut k: usize = start;
    while j < count
        invariant
            count >= 1,
            start + (count - 1) * d <= usize::MAX,
            0 <= j <= count,
            j < count ==> k == start + j * d,
            run@ =~= run_seq(start as int, d as int, j as int),
        decreases count - j,
    {
        run.push(k);
        if j + 1 < count {
            assert((j + 1) * d <= (count - 1) * d) by (nonlinear_arith)
                requires
                    j + 1 <= count - 1,
            ;
            assert((j + 1) * d == j * d + d) by (nonlinear_arith);
            k = k + d;
        }
        j = j + 1;
    }
    run
}

/// Find the widest exact arithmetic bin progression that fits the free bins.
///
/// Worth searching for: an evenly spaced harmonic set optimises far better than a
/// nearly-even one. Snapping ideal positions to the nearest free bin leaves spacings
/// like 11,11,12,11 -- and measured over 8 tones that irregularity costs ~30% of RPF
/// against a true arithmetic run. When several inputs share a band, each in turn
/// finds a run offset from the others, which is Morelli's interleave exactly.
///
/// A run that cannot reach across 85% of the band is not worth having: covering
/// 0.1-1 Hz when 0.1-2 Hz was asked for is a worse design than an unevenly spaced
/// one. A single tone takes the lowest free bin.
pub fn arithmetic_run(
    free: &HashSet<usize>,
    k_lo: usize,
    k_hi: usize,
    count: usize,
    odd_only: bool,
) -> (run: Option<Vec<usize>>)
    requires
        count >= 1,
    ensures
        count == 1 ==> (run is None <==> free@.is_empty()),
        count == 1 ==> (run matches Some(r) ==> exists|k: usize| is_least(free@, k) && r@ == seq![k]),
        count >= 2 ==> (run is None <==> !exists|d: int, s: int| is_run_candidate(free@, k_lo as int, k_hi as int, count as int, odd_only, d, s)),
        count >= 2 ==> (run matches Some(r) ==> exists|d: int, s: int| is_best_run(free@, k_lo as int, k_hi as int, count as int, odd_only, d, s) && r@ == run_seq(s, d, count as int)),
{
    if count == 1 {
        return match least_bin(free) {
            Some(k) => {
                let v = vec![k];
                assert(v@ =~= seq![k]);
                Some(v)
            },
            None => None,
        };
    }
    let step: usize = if odd_only { 2 } else { 1 };
    let ghost fr = free@;
    let ghost (lo, hi, c) = (k_lo as int, k_hi as int, count as int);
    if k_hi <= k_lo {
        proof {
            assert forall|d: int, s: int| !is_run_candidate(fr, lo, hi, c, odd_only, d, s) by {
                if is_run_candidate(fr, lo, hi, c, odd_only, d, s) {
                    assert((c - 1) * d >= 1) by (nonlinear_arith)
                        requires c >= 2, d >= 1;
                }
            }
        }
        return None;
    }
    let width = k_hi - k_lo;
    let widest = width / (count - 1);
    let mut d = widest - widest % step;
    proof {
        assert((count - 1) * d <= (count - 1) * widest) by (nonlinear_arith)
            requires d <= widest, count >= 2;
        assert((count - 1) * widest <= width) by (nonlinear_arith)
            requires widest as int == (width as int) / (count as int - 1), count >= 2;
        assert forall|d2: int, s2: int| #[trigger] is_run_candidate(fr, lo, hi, c, odd_only, d2, s2) implies d2 <= d by {
            assert(d2 <= widest) by (nonlinear_arith)
                requires (c - 1) * d2 <= width, widest as int == (width as int) / (c - 1), c >= 2, d2 >= 1;
        }
    }
    while d >= step
        invariant
            count >= 2,
            k_lo < k_hi,
            width == k_hi - k_lo,
            step as int == run_step(odd_only),
            d % step == 0,
            (count - 1) * d <= width,
            fr == free@,
            lo == k_lo, hi == k_hi, c == count,
            forall|d2: int, s2: int| #[trigger] is_run_candidate(fr, lo, hi, c, odd_only, d2, s2) ==> d2 <= d,
        decreases d,
    {
        let span = (count - 1) * d;
        if (span as u128) * 20 < (width as u128) * 17 {
            proof {
                assert forall|d2: int, s2: int| !is_run_candidate(fr, lo, hi, c, odd_only, d2, s2) by {
                    if is_run_candidate(fr, lo, hi, c, odd_only, d2, s2) {
                        assert((c - 1) * d2 <= (c - 1) * d) by (nonlinear_arith)
                            requires d2 <= d, c >= 2;
                    }
                }
            }
            return None;
        }
        let last_start = k_hi - span;
        let mut start = k_lo;
        loop
            invariant
                count >= 2,
                k_lo < k_hi,
                width == k_hi - k_lo,
                step as int == run_step(odd_only),
                d >= step,
                d % step == 0,
                span == (count - 1) * d,
                span <= width,
                20 * span >= 17 * width,
                last_start == k_hi - span,
                k_lo <= start <= last_start,
                fr == free@,
                lo == k_lo, hi == k_hi, c == count,
                forall|d2: int, s2: int| #[trigger] is_run_candidate(fr, lo, hi, c, odd_only, d2, s2) ==> d2 <= d,
                forall|s2: int| k_lo <= s2 < start ==> !#[trigger] run_in(fr, s2, d as int, c),
            ensures
                forall|s2: int| k_lo <= s2 <= last_start ==> !#[trigger] run_in(fr, s2, d as int, c),
            decreases last_start - start,
        {
            if run_fits(free, start, d, count) {
                proof {
                    assert(is_run_candidate(fr, lo, hi, c, odd_only, d as int, start as int));
                    assert forall|d2: int, s2: int| #[trigger] is_run_candidate(fr, lo, hi, c, odd_only, d2, s2)
                        implies d2 < d || (d2 == d && start <= s2) by {
                        if d2 == d && s2 < start {
                            assert(!run_in(fr, s2, d as int, c));
                        }
                    }
                }
                return Some(run_bins(start, d, count));
            }
            if start == last_start {
                break;
            }
            start = start + 1;
        }
        proof {
            assert forall|d2: int, s2: int| #[trigger] is_run_candidate(fr, lo, hi, c, odd_only, d2, s2) implies d2 <= d - step by {
                if d2 == d {
                    assert(s2 <= last_start);
                    assert(!run_in(fr, s2, d as int, c));
                }
            }
            assert((count - 1) * (d - step) <= (count - 1) * d) by (nonlinear_arith)
                requires step <= d, count >= 2;
        }
        d = d - step;
    }
    proof {
        assert forall|d2: int, s2: int| !is_run_candidate(fr, lo, hi, c, odd_only, d2, s2) by {
            if is_run_candidate(fr, lo, hi, c, odd_only, d2, s2) {
                assert(d2 <= d);
            }
        }
    }
    None
}


/// Ascending order.
pub open spec fn is_ascending(s: Seq<usize>) -> bool {
    forall|i: int, j: int| 0 <= i < j < s.len() ==> s[i] <= s[j]
}

/// Strictly ascending order: sorted without repeats.
pub open spec fn is_strictly_ascending(s: Seq<usize>) -> bool {
    forall|i: int, j: int| 0 <= i < j < s.len() ==> s[i] < s[j]
}

/// A sorted copy of `v`.
pub fn sort_bins(v: &Vec<usize>) -> (r: Vec<usize>)
    ensures
        is_ascending(r@),
        r@.to_multiset() == v@.to_multiset(),
{
    broadcast use vstd::seq_lib::group_to_multiset_ensures;
    let mut r: Vec<usize> = Vec::new();
    let mut i: usize = 0;
    while i < v.len()
        invariant
            0 <= i <= v@.len(),
            is_ascending(r@),
            r@.to_multiset() == v@.take(i as int).to_multiset(),
        decreases v@.len() - i,
    {
        let x = v[i];
        let mut pos: usize = 0;
        while pos < r.len() && r[pos] <= x
            invariant
                0 <= pos <= r@.len(),
                forall|m: int| 0 <= m < pos ==> r@[m] <= x,
            decreases r@.len() - pos,
        {
            pos = pos + 1;
        }
        let ghost before = r@;
        r.insert(pos, x);
        proof {
            assert(r@ == before.insert(pos as int, x));
            vstd::seq_lib::to_multiset_insert(before, pos as int, x);
            assert(v@.take(i + 1) =~= v@.take(i as int).push(x));
            vstd::seq_lib::to_multiset_build(v@.take(i as int), x);
            assert(is_ascending(r@)) by {
                assert forall|a: int, b: int| 0 <= a < b < r@.len() implies r@[a] <= r@[b] by {
                    if a < pos && b > pos {
                        assert(before[a] <= x);
                        if pos < before.len() {
                            assert(before[pos as int] > x);
                            assert(before[pos as int] <= before[b - 1]);
                        }
                    } else if a == pos as int && b > pos {
                        assert(before[pos as int] > x);
                        assert(before[pos as int] <= before[b - 1]);
                    }
                }
            }
        }
        i = i + 1;
    }
    proof {
        assert(v@.take(v@.len() as int) =~= v@);
    }
    r
}

/// Sorting a sequence without repeats gives a strictly ascending one with the
/// same elements.
pub proof fn lemma_sorted_distinct(r: Seq<usize>, v: Seq<usize>)
    requires
        is_ascending(r),
        r.to_multiset() == v.to_multiset(),
        v.no_duplicates(),
    ensures
        is_strictly_ascending(r),
        r.to_set() == v.to_set(),
        r.len() == v.len(),
{
    broadcast use vstd::seq_lib::group_to_multiset_ensures;
    v.lemma_multiset_has_no_duplicates();
    r.lemma_multiset_has_no_duplicates_conv();
    assert(r.to_set() =~= v.to_set()) by {
        assert forall|x: usize| r.to_set().contains(x) <==> v.to_set().contains(x) by {
            assert(r.to_multiset().count(x) > 0 <==> r.contains(x));
            assert(v.to_multiset().count(x) > 0 <==> v.contains(x));
        }
    }
    vstd::seq_lib::to_multiset_len(r);
    vstd::seq_lib::to_multiset_len(v);
}

/// A target bin position `num / den`, held exactly. Targets come from the
/// caller's spacing rule; here they are only compared against whole bins.
#[derive(Debug, Clone, Copy, PartialEq, Eq, Structural)]
pub struct Target {
    pub num: u128,
    pub den: u64,
}

/// Distance from bin `k` to the target, scaled by the target's denominator.
pub open spec fn gap(k: usize, t: Target) -> int {
    let a = k as int * t.den as int;
    if a >= t.num { a - t.num } else { t.num - a }
}

/// Bin `a` is a better pick than `b` for target `t`: nearer, or as near and lower.
pub open spec fn nearer(a: usize, b: usize, t: Target) -> bool {
    gap(a, t) < gap(b, t) || (gap(a, t) == gap(b, t) && a < b)
}

/// `k` is the best pick for `t` among `avail`.
pub open spec fn is_nearest(avail: Set<usize>, t: Target, k: usize) -> bool {
    &&& avail.contains(k)
    &&& forall|x: usize| #[trigger] avail.contains(x) && x != k ==> nearer(k, x, t)
}

/// `chosen` is what snapping the targets one by one gives: each target takes the
/// nearest free bin not already taken, and the walk stops early only when no free
/// bin is left.
pub open spec fn is_greedy_pick(free: Set<usize>, targets: Seq<Target>, chosen: Seq<usize>) -> bool {
    &&& chosen.len() <= targets.len()
    &&& forall|j: int| 0 <= j < chosen.len() ==> is_nearest(
        free.difference(chosen.take(j).to_set()),
        targets[j],
        #[trigger] chosen[j],
    )
    &&& chosen.len() < targets.len() ==> free.subset_of(chosen.to_set())
}

fn gap_of(k: usize, t: Target) -> (g: u128)
    requires
        t.den >= 1,
    ensures
        g == gap(k, t),
{
    assert((k as int) * (t.den as int) <= u128::MAX) by (nonlinear_arith)
        requires k <= usize::MAX, t.den <= u64::MAX, usize::MAX <= u64::MAX;
    let a = (k as u128) * (t.den as u128);
    if a >= t.num { a - t.num } else { t.num - a }
}

fn holds(v: &Vec<usize>, x: usize) -> (b: bool)
    ensures
        b == v@.contains(x),
{
    let mut i: usize = 0;
    while i < v.len()
        invariant
            0 <= i <= v@.len(),
            forall|m: int| 0 <= m < i ==> v@[m] != x,
        decreases v@.len() - i,
    {
        if v[i] == x {
            return true;
        }
        i = i + 1;
    }
    false
}

/// The best pick for `t` among the free bins not yet chosen.
fn nearest_free(free: &HashSet<usize>, chosen: &Vec<usize>, t: Target) -> (r: Option<usize>)
    requires
        t.den >= 1,
    ensures
        r is None <==> free@.subset_of(chosen@.to_set()),
        r matches Some(k) ==> is_nearest(free@.difference(chosen@.to_set()), t, k),
{
    let mut best: Option<usize> = None;
    let ghost keys = spec_hash_keys_iter(free).remaining().unref();
    let ghost avail = free@.difference(chosen@.to_set());
    for k in it: free.iter()
        invariant
            t.den >= 1,
            keys == it.seq().unref(),
            keys.to_set() == free@,
            avail == free@.difference(chosen@.to_set()),
            best is None ==> forall|i: int| 0 <= i < it.index() ==> !avail.contains(#[trigger] keys[i]),
            best matches Some(b) ==> avail.contains(b) && forall|i: int| 0 <= i < it.index()
                && avail.contains(#[trigger] keys[i]) && keys[i] != b ==> nearer(b, keys[i], t),
    {
        let x = *k;
        if !holds(chosen, x) {
            match best {
                None => best = Some(x),
                Some(b) => {
                    let gx = gap_of(x, t);
                    let gb = gap_of(b, t);
                    if gx < gb || (gx == gb && x < b) {
                        best = Some(x);
                    }
                },
            }
        }
    }
    proof {
        if best is None {
            assert forall|x: usize| free@.contains(x) implies chosen@.to_set().contains(x) by {
                assert(keys.to_set().contains(x));
                let i = keys.index_of(x);
                assert(!avail.contains(keys[i]));
            }
        } else {
            let b = best->0;
            assert(!free@.subset_of(chosen@.to_set()));
            assert forall|x: usize| #[trigger] avail.contains(x) && x != b implies nearer(b, x, t) by {
                assert(keys.to_set().contains(x));
                let i = keys.index_of(x);
                assert(avail.contains(keys[i]));
            }
        }
    }
    best
}

/// Even spread across the band, snapped to the nearest free bin.
///
/// `targets` are the ideal positions, in order; each takes the nearest free bin
/// that an earlier target has not taken (the lower on a tie). The picks come back
/// in ascending order.
pub fn snap_spread(free: &HashSet<usize>, targets: &[Target]) -> (bins: Vec<usize>)
    requires
        forall|j: int| 0 <= j < targets@.len() ==> (#[trigger] targets@[j]).den >= 1,
    ensures
        exists|chosen: Seq<usize>| {
            &&& is_greedy_pick(free@, targets@, chosen)
            &&& chosen.len() == bins@.len()
            &&& chosen.to_set() == bins@.to_set()
        },
        is_strictly_ascending(bins@),
{
    let mut chosen: Vec<usize> = Vec::new();
    let mut j: usize = 0;
    while j < targets.len()
        invariant
            forall|m: int| 0 <= m < targets@.len() ==> (#[trigger] targets@[m]).den >= 1,
            0 <= j <= targets@.len(),
            chosen@.len() == j,
            chosen@.no_duplicates(),
            chosen@.to_set().subset_of(free@),
            forall|m: int| 0 <= m < j ==> is_nearest(
                free@.difference(chosen@.take(m).to_set()),
                targets@[m],
                #[trigger] chosen@[m],
            ),
        ensures
            chosen@.len() <= targets@.len(),
            chosen@.no_duplicates(),
            forall|m: int| 0 <= m < chosen@.len() ==> is_nearest(
                free@.difference(chosen@.take(m).to_set()),
                targets@[m],
                #[trigger] chosen@[m],
            ),
            chosen@.len() < targets@.len() ==> free@.subset_of(chosen@.to_set()),
        decreases targets@.len() - j,
    {
        match nearest_free(free, &chosen, targets[j]) {
            Some(k) => {
                let ghost before = chosen@;
                chosen.push(k);
                proof {
                    assert(chosen@.take(j as int) =~= before);
                    assert forall|m: int| 0 <= m < j + 1 implies is_nearest(
                        free@.difference(chosen@.take(m).to_set()),
                        targets@[m],
                        #[trigger] chosen@[m],
                    ) by {
                        if m < j {
                            assert(chosen@.take(m) =~= before.take(m));
                        }
                    }
                    assert(!before.contains(k));
                    assert(chosen@.to_set() =~= before.to_set().insert(k)) by {
                        before.lemma_push_to_set_commute(k);
                    }
                }
            },
            None => {
                break;
            },
        }
        j = j + 1;
    }
    let sorted = sort_bins(&chosen);
    proof {
        lemma_sorted_distinct(sorted@, chosen@);
        assert(is_greedy_pick(free@, targets@, chosen@));
    }
    sorted
}


/// A linear generator finds an exact run over the free bins: the least free bin
/// for a single tone, a candidate run for more.
pub open spec fn has_run(free: Set<usize>, k_lo: int, k_hi: int, count: int, odd_only: bool) -> bool {
    if count == 1 {
        !free.is_empty()
    } else {
        exists|d: int, s: int| is_run_candidate(free, k_lo, k_hi, count, odd_only, d, s)
    }
}

/// The bins of a candidate run are distinct and free.
proof fn lemma_run_distinct_and_free(
    free: Set<usize>,
    k_lo: int,
    k_hi: int,
    count: int,
    odd_only: bool,
    d: int,
    s: int,
)
    requires
        0 <= k_lo,
        k_hi <= usize::MAX,
        count >= 1,
        is_run_candidate(free, k_lo, k_hi, count, odd_only, d, s),
    ensures
        run_seq(s, d, count).no_duplicates(),
        forall|j: int| 0 <= j < count ==> free.contains(#[trigger] run_seq(s, d, count)[j]),
{
    let r = run_seq(s, d, count);
    assert forall|j: int| 0 <= j < count implies free.contains(#[trigger] r[j]) by {
        assert(free.contains(run_bin(s, d, j)));
    }
    assert forall|a: int, b: int| 0 <= a < b < count implies r[a] != r[b] by {
        assert(a * d < b * d) by (nonlinear_arith)
            requires a < b, d >= 1;
        assert(0 <= a * d) by (nonlinear_arith)
            requires a >= 0, d >= 1;
        assert(b * d <= (count - 1) * d) by (nonlinear_arith)
            requires b <= count - 1, d >= 1;
    }
}

/// The bins a generator takes from the free bins of its band.
///
/// With linear spacing it looks for the widest exact arithmetic run across the
/// band first; when there is none, or the spacing is not linear, each target is
/// snapped in turn to the nearest free bin. Either way the bins are distinct and
/// all free, so a generator that steps around taken bins never lands on one.
pub fn generator_bins(
    free: &HashSet<usize>,
    k_lo: usize,
    k_hi: usize,
    count: usize,
    odd_only: bool,
    linear: bool,
    targets: &[Target],
) -> (bins: Vec<usize>)
    requires
        count >= 1,
        forall|j: int| 0 <= j < targets@.len() ==> (#[trigger] targets@[j]).den >= 1,
    ensures
        bins@.no_duplicates(),
        forall|j: int| 0 <= j < bins@.len() ==> free@.contains(#[trigger] bins@[j]),
        linear && count == 1 && !free@.is_empty() ==> exists|k: usize| is_least(free@, k) && bins@ == seq![k],
        linear && count >= 2 && has_run(free@, k_lo as int, k_hi as int, count as int, odd_only) ==> exists|d: int, s: int| {
            &&& is_best_run(free@, k_lo as int, k_hi as int, count as int, odd_only, d, s)
            &&& bins@ == run_seq(s, d, count as int)
        },
        !(linear && has_run(free@, k_lo as int, k_hi as int, count as int, odd_only)) ==> {
            &&& exists|chosen: Seq<usize>| {
                &&& is_greedy_pick(free@, targets@, chosen)
                &&& chosen.len() == bins@.len()
                &&& chosen.to_set() == bins@.to_set()
            }
            &&& is_strictly_ascending(bins@)
        },
{
    if linear {
        match arithmetic_run(free, k_lo, k_hi, count, odd_only) {
            Some(run) => {
                proof {
                    if count == 1 {
                        let k = choose|k: usize| is_least(free@, k) && run@ == seq![k];
                        assert(run@[0] == k);
                    } else {
                        let (d, s) = choose|d: int, s: int| is_best_run(free@, k_lo as int, k_hi as int, count as int, odd_only, d, s)
                            && run@ == run_seq(s, d, count as int);
                        lemma_run_distinct_and_free(free@, k_lo as int, k_hi as int, count as int, odd_only, d, s);
                    }
                }
                return run;
            },
            None => {},
        }
    }
    let bins = snap_spread(free, targets);
    proof {
        let chosen = choose|chosen: Seq<usize>| {
            &&& is_greedy_pick(free@, targets@, chosen)
            &&& chosen.len() == bins@.len()
            &&& chosen.to_set() == bins@.to_set()
        };
        lemma_snap_avoids_taken(free@, targets@, chosen);
        assert forall|j: int| 0 <= j < bins@.len() implies free@.contains(#[trigger] bins@[j]) by {
            assert(bins@.to_set().contains(bins@[j]));
            assert(chosen.to_set().contains(bins@[j]));
            let w = choose|w: int| 0 <= w < chosen.len() && chosen[w] == bins@[j];
            assert(free@.contains(chosen[w]));
        }
        assert forall|a: int, b: int| 0 <= a < b < bins@.len() implies bins@[a] != bins@[b] by {
            assert(bins@[a] < bins@[b]);
        }
    }
    bins
}

/// Every bin of every input, input by input.
pub open spec fn all_bins(channels: Seq<Seq<usize>>) -> Seq<usize>
    decreases channels.len(),
{
    if channels.len() == 0 {
        Seq::empty()
    } else {
        all_bins(channels.drop_last()) + channels.last()
    }
}

/// Some input before input `i` holds bin `k`.
pub open spec fn held_before(channels: Seq<Seq<usize>>, i: int, k: usize) -> bool {
    exists|j: int| 0 <= j < i && #[trigger] channels[j].contains(k)
}

/// Bin `k` is held by two different inputs. A bin repeated inside one input is
/// not shared: sharing is what keeps inputs from being separated.
pub open spec fn is_shared(channels: Seq<Seq<usize>>, k: usize) -> bool {
    exists|i: int, j: int|
        0 <= i < j < channels.len() && #[trigger] channels[i].contains(k) && #[trigger] channels[j].contains(k)
}

/// Bins used by more than one input, ascending. Sharing a bin means those inputs
/// are not separable from a single manoeuvre; it is still a legal signal.
pub fn shared_bins(channels: &Vec<Vec<usize>>) -> (shared: Vec<usize>)
    ensures
        is_strictly_ascending(shared@),
        forall|k: usize| #[trigger] shared@.contains(k) <==> is_shared(channels@.map_values(|c: Vec<usize>| c@), k),
{
    let ghost views = channels@.map_values(|c: Vec<usize>| c@);
    let mut seen: HashSet<usize> = HashSet::new();
    let mut shared: Vec<usize> = Vec::new();
    let mut i: usize = 0;
    while i < channels.len()
        invariant
            0 <= i <= channels@.len(),
            views == channels@.map_values(|c: Vec<usize>| c@),
            forall|k: usize| #[trigger] seen@.contains(k) <==> held_before(views, i as int, k),
            shared@.no_duplicates(),
            forall|k: usize| #[trigger] shared@.contains(k) <==> is_shared(views.take(i as int), k),
        decreases channels@.len() - i,
    {
        let bins = &channels[i];
        proof {
            assert(views[i as int] == bins@);
        }
        let mut m: usize = 0;
        while m < bins.len()
            invariant
                0 <= m <= bins@.len(),
                views == channels@.map_values(|c: Vec<usize>| c@),
                i < channels@.len(),
                views[i as int] == bins@,
                forall|k: usize| #[trigger] seen@.contains(k) <==> held_before(views, i as int, k),
                shared@.no_duplicates(),
                forall|k: usize| #[trigger] shared@.contains(k) <==> (is_shared(views.take(i as int), k)
                    || (bins@.take(m as int).contains(k) && held_before(views, i as int, k))),
            decreases bins@.len() - m,
        {
            let k = bins[m];
            let ghost old_shared = shared@;
            let was_seen = seen.contains(&k);
            proof {
                assert(was_seen <==> held_before(views, i as int, k));
            }
            let already = holds(&shared, k);
            if was_seen && !already {
                shared.push(k);
            }
            proof {
                assert(shared@.contains(k) <==> (was_seen || old_shared.contains(k))) by {
                    if was_seen && !already {
                        assert(shared@[shared@.len() - 1] == k);
                    }
                }
            }
            proof {
                assert forall|x: usize| #[trigger] shared@.contains(x) <==> (is_shared(views.take(i as int), x)
                    || (bins@.take(m + 1).contains(x) && held_before(views, i as int, x))) by {
                    assert(bins@.take(m + 1) =~= bins@.take(m as int).push(k));
                    assert(bins@.take(m + 1)[m as int] == k);
                    assert(old_shared.contains(x) <==> (is_shared(views.take(i as int), x)
                        || (bins@.take(m as int).contains(x) && held_before(views, i as int, x))));
                    if shared@.len() > old_shared.len() {
                        assert(shared@ == old_shared.push(k));
                        if shared@.contains(x) && x != k {
                            let w = shared@.index_of(x);
                            assert(old_shared[w] == x);
                        }
                        if old_shared.contains(x) {
                            let w = old_shared.index_of(x);
                            assert(shared@[w] == x);
                        }
                    }
                    if bins@.take(m + 1).contains(x) && !bins@.take(m as int).contains(x) {
                        let w = bins@.take(m + 1).index_of(x);
                        assert(w == m);
                    }
                    if bins@.take(m as int).contains(x) {
                        let w = bins@.take(m as int).index_of(x);
                        assert(bins@.take(m + 1)[w] == x);
                    }
                }
            }
            m = m + 1;
        }
        proof {
            assert(bins@.take(bins@.len() as int) =~= bins@);
            assert forall|x: usize| #[trigger] shared@.contains(x) <==> is_shared(views.take(i + 1), x) by {
                let t = views.take(i as int);
                let u = views.take(i + 1);
                if is_shared(t, x) {
                    let (p, q) = choose|p: int, q: int| 0 <= p < q < t.len() && #[trigger] t[p].contains(x) && #[trigger] t[q].contains(x);
                    assert(u[p] == t[p] && u[q] == t[q]);
                }
                if bins@.contains(x) && held_before(views, i as int, x) {
                    let j = choose|j: int| 0 <= j < i && #[trigger] views[j].contains(x);
                    assert(u[j] == views[j] && u[i as int] == bins@);
                    assert(u[j].contains(x) && u[i as int].contains(x));
                }
                if is_shared(u, x) {
                    let (p, q) = choose|p: int, q: int| 0 <= p < q < u.len() && #[trigger] u[p].contains(x) && #[trigger] u[q].contains(x);
                    if q < i {
                        assert(t[p] == u[p] && t[q] == u[q]);
                        assert(t[p].contains(x) && t[q].contains(x));
                    } else {
                        assert(u[q] == bins@);
                        assert(views[p] == u[p]);
                        assert(views[p].contains(x));
                    }
                }
            }
        }
        let mut m: usize = 0;
        while m < bins.len()
            invariant
                0 <= m <= bins@.len(),
                views == channels@.map_values(|c: Vec<usize>| c@),
                i < channels@.len(),
                views[i as int] == bins@,
                forall|k: usize| #[trigger] seen@.contains(k) <==> (held_before(views, i as int, k) || bins@.take(m as int).contains(k)),
            decreases bins@.len() - m,
        {
            let k = bins[m];
            let ghost old_seen = seen@;
            seen.insert(k);
            proof {
                assert forall|x: usize| #[trigger] seen@.contains(x) <==> (held_before(views, i as int, x) || bins@.take(m + 1).contains(x)) by {
                    assert(bins@.take(m + 1) =~= bins@.take(m as int).push(k));
                    assert(bins@.take(m + 1)[m as int] == k);
                    assert(seen@.contains(x) <==> (old_seen.contains(x) || x == k));
                    if bins@.take(m + 1).contains(x) && !bins@.take(m as int).contains(x) {
                        let w = bins@.take(m + 1).index_of(x);
                        assert(w == m);
                    }
                    if bins@.take(m as int).contains(x) {
                        let w = bins@.take(m as int).index_of(x);
                        assert(bins@.take(m + 1)[w] == x);
                    }
                }
            }
            m = m + 1;
        }
        proof {
            assert(bins@.take(bins@.len() as int) =~= bins@);
            assert forall|x: usize| #[trigger] seen@.contains(x) <==> held_before(views, i + 1, x) by {
                if held_before(views, i + 1, x) {
                    let j = choose|j: int| 0 <= j < i + 1 && #[trigger] views[j].contains(x);
                    if j < i {
                        assert(held_before(views, i as int, x));
                    }
                }
                if held_before(views, i as int, x) {
                    let j = choose|j: int| 0 <= j < i && #[trigger] views[j].contains(x);
                    assert(0 <= j < i + 1);
                }
                if bins@.contains(x) {
                    assert(views[i as int].contains(x));
                }
            }
        }
        i = i + 1;
    }
    proof {
        assert(views.take(channels@.len() as int) =~= views);
    }
    let sorted = sort_bins(&shared);
    proof {
        lemma_sorted_distinct(sorted@, shared@);
        assert forall|k: usize| #[trigger] sorted@.contains(k) <==> shared@.contains(k) by {
            assert(sorted@.to_set().contains(k) <==> shared@.to_set().contains(k));
        }
    }
    sorted
}

/// Bins in use over all inputs, a bin shared by two inputs counted twice.
pub fn used_bins(channels: &Vec<Vec<usize>>) -> (n: usize)
    requires
        all_bins(channels@.map_values(|c: Vec<usize>| c@)).len() <= usize::MAX,
    ensures
        n == all_bins(channels@.map_values(|c: Vec<usize>| c@)).len(),
{
    let ghost views = channels@.map_values(|c: Vec<usize>| c@);
    let mut n: usize = 0;
    let mut i: usize = 0;
    while i < channels.len()
        invariant
            0 <= i <= channels@.len(),
            views == channels@.map_values(|c: Vec<usize>| c@),
            all_bins(views).len() <= usize::MAX,
            n == all_bins(views.take(i as int)).len(),
        decreases channels@.len() - i,
    {
        proof {
            assert(views.take(i + 1).drop_last() =~= views.take(i as int));
            assert(views[i as int] == channels@[i as int]@);
            lemma_all_bins_prefix(views, i + 1);
        }
        n = n + channels[i].len();
        i = i + 1;
    }
    proof {
        assert(views.take(channels@.len() as int) =~= views);
    }
    n
}

/// The bins of the first inputs are no more than those of all of them.
proof fn lemma_all_bins_prefix(channels: Seq<Seq<usize>>, i: int)
    requires
        0 <= i <= channels.len(),
    ensures
        all_bins(channels.take(i)).len() <= all_bins(channels).len(),
    decreases channels.len() - i,
{
    if i < channels.len() {
        lemma_all_bins_prefix(channels, i + 1);
        assert(channels.take(i + 1).drop_last() =~= channels.take(i));
    } else {
        assert(channels.take(i) =~= channels);
    }
}

/// One period repeated `n_periods` times back to back: the record as played.
pub fn repeat_periods<T: Copy>(period: &[T], n_periods: usize) -> (out: Vec<T>)
    requires
        period@.len() * n_periods <= usize::MAX,
    ensures
        out@.len() == period@.len() * n_periods,
        forall|i: int| 0 <= i < out@.len() ==> #[trigger] out@[i] == period@[i % period@.len() as int],
{
    let len = period.len();
    let mut out: Vec<T> = Vec::new();
    let mut r: usize = 0;
    while r < n_periods
        invariant
            0 <= r <= n_periods,
            len == period@.len(),
            len * n_periods <= usize::MAX,
            out@.len() == len * r,
            forall|i: int| 0 <= i < out@.len() ==> #[trigger] out@[i] == period@[i % len as int],
        decreases n_periods - r,
    {
        proof {
            vstd::arithmetic::mul::lemma_mul_is_distributive_add(len as int, r as int, 1);
            vstd::arithmetic::mul::lemma_mul_inequality(r + 1, n_periods as int, len as int);
            vstd::arithmetic::mul::lemma_mul_is_commutative(len as int, r + 1);
            vstd::arithmetic::mul::lemma_mul_is_commutative(len as int, n_periods as int);
        }
        let mut j: usize = 0;
        while j < len
            invariant
                0 <= j <= len,
                len == period@.len(),
                out@.len() == len * r + j,
                len * r + len <= usize::MAX,
                forall|i: int| 0 <= i < out@.len() ==> #[trigger] out@[i] == period@[i % len as int],
            decreases len - j,
        {
            proof {
                vstd::arithmetic::mul::lemma_mul_is_commutative(len as int, r as int);
                vstd::arithmetic::div_mod::lemma_fundamental_div_mod_converse(
                    (len * r + j) as int, len as int, r as int, j as int);
            }
            out.push(period[j]);
            j = j + 1;
        }
        r = r + 1;
    }
    out
}

/// What became of one requested tone when its input was assembled.
#[derive(Debug, Clone, Copy, PartialEq, Eq, Structural)]
pub enum ToneFate {
    /// The frequency was not a positive number.
    Skipped,
    /// It landed on the same harmonic as an earlier tone of the input.
    Collides(usize),
    /// It was given this bin.
    Kept(usize),
}

/// An earlier tone than tone `i` asked for bin `b`.
pub open spec fn seen_before(requested: Seq<Option<usize>>, i: int, b: usize) -> bool {
    exists|j: int| 0 <= j < i && requested[j] == Some(b)
}

/// The fate of tone `i`: skipped when it has no bin, a collision when an earlier
/// tone already has its bin, kept otherwise.
pub open spec fn fate_of(requested: Seq<Option<usize>>, i: int) -> ToneFate {
    match requested[i] {
        None => ToneFate::Skipped,
        Some(b) => if seen_before(requested, i, b) {
            ToneFate::Collides(b)
        } else {
            ToneFate::Kept(b)
        },
    }
}

/// The bins some tone asked for.
pub open spec fn requested_bins(requested: Seq<Option<usize>>) -> Set<usize> {
    Set::new(|b: usize| seen_before(requested, requested.len() as int, b))
}

/// One input's tones after snapping: the fate of each tone in order, the distinct
/// bins ascending, and for each bin the tone it came from.
pub struct SnappedTones {
    pub fates: Vec<ToneFate>,
    pub bins: Vec<usize>,
    pub sources: Vec<usize>,
}

/// The first tone that asked for bin `b`.
fn first_request(requested: &[Option<usize>], b: usize) -> (i: usize)
    requires
        seen_before(requested@, requested@.len() as int, b),
    ensures
        i < requested@.len(),
        requested@[i as int] == Some(b),
        !seen_before(requested@, i as int, b),
{
    let mut i: usize = 0;
    loop
        invariant
            seen_before(requested@, requested@.len() as int, b),
            0 <= i <= requested@.len(),
            !seen_before(requested@, i as int, b),
        decreases requested@.len() - i,
    {
        if i >= requested.len() {
            proof {
                assert(false);
            }
            return i;
        }
        match requested[i] {
            Some(k) => if k == b {
                return i;
            },
            None => {},
        }
        proof {
            assert forall|j: int| 0 <= j < i + 1 implies requested@[j] != Some(b) by {
                if j < i {
                    assert(!seen_before(requested@, i as int, b));
                }
            }
        }
        i = i + 1;
    }
}

/// Snap an input's tones to distinct bins.
///
/// `requested[i]` is the harmonic tone `i` landed on, or `None` when its frequency
/// was not a positive number. Two tones on one harmonic cannot both be kept: the
/// first wins and the later one is reported as a collision. The kept bins come
/// back ascending, each with the tone it came from, so amplitudes travel with them.
pub fn snap_tones(requested: &[Option<usize>]) -> (s: SnappedTones)
    ensures
        s.fates@.len() == requested@.len(),
        forall|i: int| 0 <= i < requested@.len() ==> s.fates@[i] == fate_of(requested@, i),
        is_strictly_ascending(s.bins@),
        s.bins@.to_set() == requested_bins(requested@),
        s.sources@.len() == s.bins@.len(),
        forall|m: int| 0 <= m < s.bins@.len() ==> {
            &&& s.sources@[m] < requested@.len()
            &&& requested@[s.sources@[m] as int] == Some(s.bins@[m])
            &&& !seen_before(requested@, s.sources@[m] as int, s.bins@[m])
        },
{
    let mut seen: HashSet<usize> = HashSet::new();
    let mut kept: Vec<usize> = Vec::new();
    let mut fates: Vec<ToneFate> = Vec::new();
    let mut i: usize = 0;
    while i < requested.len()
        invariant
            0 <= i <= requested@.len(),
            fates@.len() == i,
            forall|m: int| 0 <= m < i ==> fates@[m] == fate_of(requested@, m),
            forall|b: usize| #[trigger] seen@.contains(b) <==> seen_before(requested@, i as int, b),
            kept@.to_set() == seen@,
            kept@.no_duplicates(),
        decreases requested@.len() - i,
    {
        match requested[i] {
            None => {
                fates.push(ToneFate::Skipped);
            },
            Some(b) => {
                let ghost prev = kept@;
                if seen.insert(b) {
                    kept.push(b);
                    fates.push(ToneFate::Kept(b));
                    proof {
                        prev.lemma_push_to_set_commute(b);
                    }
                } else {
                    fates.push(ToneFate::Collides(b));
                }
            },
        }
        proof {
            assert forall|b: usize| #[trigger] seen@.contains(b) <==> seen_before(requested@, i + 1, b) by {
                if seen_before(requested@, i + 1, b) && !seen_before(requested@, i as int, b) {
                    let j = choose|j: int| 0 <= j < i + 1 && requested@[j] == Some(b);
                    assert(j == i);
                }
                if seen_before(requested@, i as int, b) {
                    let j = choose|j: int| 0 <= j < i && requested@[j] == Some(b);
                    assert(0 <= j < i + 1 && requested@[j] == Some(b));
                }
            }
        }
        i = i + 1;
    }
    let bins = sort_bins(&kept);
    proof {
        lemma_sorted_distinct(bins@, kept@);
        assert(bins@.to_set() =~= requested_bins(requested@));
    }
    let mut sources: Vec<usize> = Vec::new();
    let mut m: usize = 0;
    while m < bins.len()
        invariant
            0 <= m <= bins@.len(),
            sources@.len() == m,
            bins@.to_set() == requested_bins(requested@),
            forall|q: int| 0 <= q < m ==> {
                &&& sources@[q] < requested@.len()
                &&& requested@[sources@[q] as int] == Some(bins@[q])
                &&& !seen_before(requested@, sources@[q] as int, bins@[q])
            },
        decreases bins@.len() - m,
    {
        proof {
            assert(bins@.to_set().contains(bins@[m as int]));
        }
        let i = first_request(requested, bins[m]);
        sources.push(i);
        m = m + 1;
    }
    SnappedTones { fates, bins, sources }
}

/// The structural problem with a design, if any, in the order they are checked:
/// no inputs, a record length or sample rate that is not a positive number, or
/// fewer than one repeat. Everything else is a warning, not an error.
pub fn structural_error(
    n_inputs: usize,
    record_length_ok: bool,
    sample_rate_ok: bool,
    n_periods: usize,
) -> (e: Option<DesignError>)
    ensures
        n_inputs == 0 ==> (e matches Some(x) && x.0@ == "add at least one input"@),
        n_inputs > 0 && !record_length_ok ==> (e matches Some(x) && x.0@ == "record length must be a positive number"@),
        n_inputs > 0 && record_length_ok && !sample_rate_ok ==> (e matches Some(x) && x.0@ == "sample rate must be a positive number"@),
        n_inputs > 0 && record_length_ok && sample_rate_ok && n_periods < 1 ==> (e matches Some(x) && x.0@ == "repeats must be at least one"@),
        e is None <==> (n_inputs > 0 && record_length_ok && sample_rate_ok && n_periods >= 1),
{
    if n_inputs == 0 {
        return Some(DesignError::no_inputs());
    }
    if !record_length_ok {
        return Some(DesignError::bad_record_length());
    }
    if !sample_rate_ok {
        return Some(DesignError::bad_sample_rate());
    }
    if n_periods < 1 {
        return Some(DesignError::bad_repeats());
    }
    None
}


/// Both grids are powers of two that resolve the top tone, and the
/// measurement grid is always finer than the optimisation grid.
pub proof fn lemma_grids(bins: Seq<usize>)
    ensures
        crate::fft::is_power_of_two(spec_grid_size(bins)),
        crate::fft::is_power_of_two(spec_measure_grid(bins)),
        spec_grid_size(bins) >= OVERSAMPLE * top_bin(bins),
        spec_measure_grid(bins) >= MEASURE_OVERSAMPLE * top_bin(bins),
        spec_measure_grid(bins) > spec_grid_size(bins),
{
    let k = top_bin(bins);
    lemma_top_bin(bins);
    let p = power_of_two_ceiling(8 * k);
    let q = power_of_two_ceiling(32 * k);
    crate::fft::lemma_power_of_two_ceiling_props(8 * k);
    crate::fft::lemma_power_of_two_ceiling_props(32 * k);
    if k >= 1 {
        crate::fft::lemma_power_of_two_ceiling_scales(8 * k);
        crate::fft::lemma_power_of_two_ceiling_scales(16 * k);
        assert(q == 4 * p);
    }
    assert(MIN_GRID == 256);
    assert(crate::fft::is_power_of_two(256)) by {
        reveal_with_fuel(crate::fft::is_power_of_two, 10);
    }
    assert(crate::fft::is_power_of_two(2048)) by {
        reveal_with_fuel(crate::fft::is_power_of_two, 13);
    }
}

/// Every bin of a candidate run over the free bins of a band is in the band,
/// clear of the bins other inputs hold, odd when asked, and the run steps by `d`.
pub proof fn lemma_run_avoids_taken(
    free: Set<usize>,
    k_lo: usize,
    k_hi: usize,
    avoid: Set<usize>,
    odd_only: bool,
    count: int,
    d: int,
    start: int,
)
    requires
        forall|k: usize| #[trigger] free.contains(k) <==> is_free_bin(k, k_lo, k_hi, avoid, odd_only),
        is_run_candidate(free, k_lo as int, k_hi as int, count, odd_only, d, start),
    ensures
        forall|j: int| 0 <= j < count ==> is_free_bin(#[trigger] run_seq(start, d, count)[j], k_lo, k_hi, avoid, odd_only),
        forall|j: int| 0 <= j < count - 1 ==> #[trigger] run_seq(start, d, count)[j + 1] == run_seq(start, d, count)[j] + d,
{
    assert forall|j: int| 0 <= j < count implies is_free_bin(#[trigger] run_seq(start, d, count)[j], k_lo, k_hi, avoid, odd_only) by {
        assert(free.contains(run_bin(start, d, j)));
    }
    assert forall|j: int| 0 <= j < count - 1 implies #[trigger] run_seq(start, d, count)[j + 1] == run_seq(start, d, count)[j] + d by {
        assert((j + 1) * d == j * d + d) by (nonlinear_arith);
        assert(j * d <= (count - 1) * d) by (nonlinear_arith)
            requires j <= count - 1, d >= 1;
        assert((j + 1) * d <= (count - 1) * d) by (nonlinear_arith)
            requires j + 1 <= count - 1, d >= 1;
        assert(0 <= j * d) by (nonlinear_arith)
            requires j >= 0, d >= 1;
    }
}

/// Snapping picks distinct bins, all of them free.
pub proof fn lemma_snap_avoids_taken(free: Set<usize>, targets: Seq<Target>, chosen: Seq<usize>)
    requires
        is_greedy_pick(free, targets, chosen),
    ensures
        chosen.no_duplicates(),
        forall|j: int| 0 <= j < chosen.len() ==> free.contains(#[trigger] chosen[j]),
{
    assert forall|j: int| 0 <= j < chosen.len() implies free.contains(#[trigger] chosen[j]) by {
        assert(is_nearest(free.difference(chosen.take(j).to_set()), targets[j], chosen[j]));
    }
    assert forall|a: int, b: int| 0 <= a < b < chosen.len() implies chosen[a] != chosen[b] by {
        assert(is_nearest(free.difference(chosen.take(b).to_set()), targets[b], chosen[b]));
        assert(chosen.take(b)[a] == chosen[a]);
        assert(chosen.take(b).to_set().contains(chosen[a]));
    }
}

/// A bin is among all the bins exactly when some input holds it.
proof fn lemma_all_bins_contains(channels: Seq<Seq<usize>>, x: usize)
    ensures
        all_bins(channels).contains(x) <==> exists|i: int| 0 <= i < channels.len() && #[trigger] channels[i].contains(x),
    decreases channels.len(),
{
    if channels.len() > 0 {
        let init = channels.drop_last();
        lemma_all_bins_contains(init, x);
        let a = all_bins(init);
        let b = channels.last();
        assert(all_bins(channels) == a + b);
        if (a + b).contains(x) {
            let w = choose|w: int| 0 <= w < (a + b).len() && (a + b)[w] == x;
            if w < a.len() {
                assert(a[w] == x);
                let i = choose|i: int| 0 <= i < init.len() && #[trigger] init[i].contains(x);
                assert(channels[i] == init[i]);
            } else {
                assert(b[w - a.len()] == x);
                assert(channels[channels.len() - 1].contains(x));
            }
        }
        if exists|i: int| 0 <= i < channels.len() && #[trigger] channels[i].contains(x) {
            let i = choose|i: int| 0 <= i < channels.len() && #[trigger] channels[i].contains(x);
            if i < channels.len() - 1 {
                assert(init[i] == channels[i]);
                assert(a.contains(x));
                let w = choose|w: int| 0 <= w < a.len() && a[w] == x;
                assert((a + b)[w] == x);
            } else {
                let w = choose|w: int| 0 <= w < b.len() && b[w] == x;
                assert((a + b)[a.len() + w] == x);
            }
        }
    }
}

/// Inputs that each hold distinct bins, none of them held by an earlier input,
/// share no bin: generating inputs in turn, each stepping around the bins already
/// taken, keeps them separable from a single manoeuvre.
pub proof fn lemma_stepping_around_shares_nothing(channels: Seq<Seq<usize>>)
    requires
        forall|i: int| 0 <= i < channels.len() ==> (#[trigger] channels[i]).no_duplicates(),
        forall|i: int, j: int, k: usize|
            0 <= j < i < channels.len() && #[trigger] channels[i].contains(k) ==> !#[trigger] channels[j].contains(k),
    ensures
        all_bins(channels).no_duplicates(),
        forall|k: usize| !#[trigger] is_shared(channels, k),
    decreases channels.len(),
{
    if channels.len() > 0 {
        let init = channels.drop_last();
        assert forall|i: int| 0 <= i < init.len() implies (#[trigger] init[i]).no_duplicates() by {
            assert(init[i] == channels[i]);
        }
        assert forall|i: int, j: int, k: usize|
            0 <= j < i < init.len() && #[trigger] init[i].contains(k) implies !#[trigger] init[j].contains(k) by {
            assert(init[i] == channels[i]);
            assert(init[j] == channels[j]);
        }
        lemma_stepping_around_shares_nothing(init);
        let a = all_bins(init);
        let b = channels.last();
        assert(channels[channels.len() - 1] == b);
        assert forall|p: int, q: int| 0 <= p < q < (a + b).len() implies (a + b)[p] != (a + b)[q] by {
            if q < a.len() {
                assert((a + b)[p] == a[p] && (a + b)[q] == a[q]);
            } else if p >= a.len() {
                assert((a + b)[p] == b[p - a.len()] && (a + b)[q] == b[q - a.len()]);
            } else {
                let x = a[p];
                assert((a + b)[q] == b[q - a.len()]);
                if b[q - a.len()] == x {
                    assert(b.contains(x));
                    lemma_all_bins_contains(init, x);
                    assert(a.contains(x));
                    let j = choose|j: int| 0 <= j < init.len() && #[trigger] init[j].contains(x);
                    assert(init[j] == channels[j]);
                    assert(channels[channels.len() - 1].contains(x));
                    assert(channels[j].contains(x));
                }
            }
        }
        assert(all_bins(channels) == a + b);
    }
    assert forall|k: usize| !#[trigger] is_shared(channels, k) by {
        if is_shared(channels, k) {
            let (p, q) = choose|p: int, q: int|
                0 <= p < q < channels.len() && #[trigger] channels[p].contains(k) && #[trigger] channels[q].contains(k);
        }
    }
}

} // verus!
