//! Control of the phase optimiser: effort budgets, the annealing schedule of the
//! lp-norm surrogate, and the deterministic random stream for extra starts.

use vstd::prelude::*;

verus! {

/// One algorithm, three budgets.
#[derive(Debug, Clone, Copy, PartialEq, Eq, Structural)]
pub enum Effort {
    Fast,
    Standard,
    Thorough,
}

/// The name an effort level is shown under.
pub open spec fn effort_label(effort: Effort) -> Seq<char> {
    match effort {
        Effort::Fast => "fast"@,
        Effort::Standard => "standard"@,
        Effort::Thorough => "thorough"@,
    }
}

/// (starts, swap iterations, lp anneal ceiling) of an effort level.
pub open spec fn effort_budget(effort: Effort) -> (usize, usize, u32) {
    match effort {
        Effort::Fast => (1, 80, 256),
        Effort::Standard => (3, 120, 256),
        Effort::Thorough => (8, 200, 512),
    }
}

impl Effort {
    pub const ALL: [Effort; 3] = [Effort::Fast, Effort::Standard, Effort::Thorough];

    pub fn label(self) -> (s: &'static str)
        ensures
            s@ == effort_label(self),
    {
        match self {
            Effort::Fast => "fast",
            Effort::Standard => "standard",
            Effort::Thorough => "thorough",
        }
    }

    /// (starts, swap iterations, lp anneal ceiling)
    pub fn budget(self) -> (b: (usize, usize, u32))
        ensures
            b == effort_budget(self),
    {
        match self {
            Effort::Fast => (1, 80, 256),
            Effort::Standard => (3, 120, 256),
            Effort::Thorough => (8, 200, 512),
        }
    }
}

/// Multiplier of the generator's linear congruential step.
pub const LCG_MULTIPLIER: u64 = 6364136223846793005;

/// Increment of the generator's linear congruential step.
pub const LCG_INCREMENT: u64 = 1442695040888963407;

/// One step of the generator: `x * LCG_MULTIPLIER + LCG_INCREMENT`, each
/// operation wrapping modulo 2^64.
pub open spec fn lcg_step(x: u64) -> u64 {
    vstd::wrapping::u64_specs::wrapping_add(
        vstd::wrapping::u64_specs::wrapping_mul(x, LCG_MULTIPLIER),
        LCG_INCREMENT,
    )
}

/// Deterministic uniform stream, so designs reproduce exactly.
pub struct Rng(u64);

impl Rng {
    /// The generator's state.
    pub closed spec fn state(&self) -> u64 {
        self.0
    }

    /// A generator whose state is one step on from `seed`.
    pub fn new(seed: u64) -> (r: Rng)
        ensures
            r.state() == lcg_step(seed),
    {
        Rng(seed.wrapping_mul(LCG_MULTIPLIER).wrapping_add(LCG_INCREMENT))
    }

    /// Advance one step and return the top 53 bits of the new state: a uniform
    /// integer below 2^53, which divided by 2^53 is a uniform draw from [0, 1).
    pub fn next_bits(&mut self) -> (r: u64)
        ensures
            final(self).state() == lcg_step(old(self).state()),
            r == final(self).state() / 2048,
            r < 0x20_0000_0000_0000,
    {
        self.0 = self.0.wrapping_mul(LCG_MULTIPLIER).wrapping_add(LCG_INCREMENT);
        let s = self.0;
        assert(s >> 11u64 == s / 2048) by (bit_vector);
        s >> 11
    }
}

/// The channels an optimisation run works on: those selected, in the order
/// given, or every channel when there is no selection.
pub fn optimize_targets(selection: Option<&[usize]>, n_channels: usize) -> (t: Vec<usize>)
    ensures
        match selection {
            Some(list) => t@ == list@,
            None => t@ == Seq::new(n_channels as nat, |i: int| i as usize),
        },
{
    match selection {
        Some(list) => {
            let mut t: Vec<usize> = Vec::new();
            let mut i: usize = 0;
            while i < list.len()
                invariant
                    0 <= i <= list@.len(),
                    t@ == list@.take(i as int),
                decreases list@.len() - i,
            {
                t.push(list[i]);
                proof {
                    assert(list@.take(i + 1) =~= list@.take(i as int).push(list@[i as int]));
                }
                i = i + 1;
            }
            proof {
                assert(list@.take(list@.len() as int) =~= list@);
            }
            t
        },
        None => {
            let mut t: Vec<usize> = Vec::new();
            let mut i: usize = 0;
            while i < n_channels
                invariant
                    0 <= i <= n_channels,
                    t@ == Seq::new(i as nat, |j: int| j as usize),
                decreases n_channels - i,
            {
                t.push(i);
                proof {
                    assert(t@ =~= Seq::new((i + 1) as nat, |j: int| j as usize));
                }
                i = i + 1;
            }
            t
        },
    }
}

/// Nothing listening.
pub struct Silent;

/// The exponents of the lp-norm surrogate, in the order they are minimised:
/// start at 4 and multiply by four, clamped to `p_max`; the last stage is the
/// first one at or above `p_max`.
pub open spec fn is_anneal_schedule(s: Seq<u32>, p_max: u32) -> bool {
    &&& s.len() >= 1
    &&& s[0] == 4
    &&& forall|i: int| 0 <= i < s.len() - 1 ==> #[trigger] s[i] < p_max
    &&& forall|i: int| 0 <= i < s.len() - 1 ==> #[trigger] s[i + 1] == if 4 * s[i] < p_max { 4 * s[i] } else { p_max as int }
    &&& s.last() >= p_max
}

/// The exponents rise strictly and the last stage runs at exactly the
/// ceiling, whenever the ceiling is at least the starting exponent.
pub proof fn lemma_anneal_ends_at_ceiling(s: Seq<u32>, p_max: u32)
    requires
        is_anneal_schedule(s, p_max),
        p_max >= 4,
    ensures
        s.last() == p_max,
        forall|i: int| 0 <= i < s.len() - 1 ==> #[trigger] s[i] < s[i + 1],
{
    if s.len() >= 2 {
        let k = s.len() - 2;
        assert(s[k + 1] == if 4 * s[k] < p_max { 4 * s[k] } else { p_max as int });
        assert(s[k] < p_max);
    }
    assert forall|i: int| 0 <= i < s.len() - 1 implies #[trigger] s[i] < s[i + 1] by {
        lemma_anneal_stage_at_least_four(s, p_max, i);
        assert(s[i] < p_max);
    }
}

proof fn lemma_anneal_stage_at_least_four(s: Seq<u32>, p_max: u32, i: int)
    requires
        is_anneal_schedule(s, p_max),
        p_max >= 4,
        0 <= i < s.len(),
    ensures
        s[i] >= 4,
    decreases i,
{
    if i > 0 {
        lemma_anneal_stage_at_least_four(s, p_max, i - 1);
        let k = i - 1;
        assert(s[k + 1] == if 4 * s[k] < p_max { 4 * s[k] } else { p_max as int });
    }
}

/// The annealing schedule of the lp-norm stage for ceiling `p_max`.
pub fn anneal_schedule(p_max: u32) -> (s: Vec<u32>)
    requires
        p_max <= 0x4000_0000,
    ensures
        is_anneal_schedule(s@, p_max),
{
    let mut s: Vec<u32> = Vec::new();
    let mut p: u32 = 4;
    s.push(p);
    while p < p_max
        invariant
            p_max <= 0x4000_0000,
            p >= 4,
            s@.len() >= 1,
            s@[0] == 4,
            s@.last() == p,
            forall|i: int| 0 <= i < s@.len() - 1 ==> #[trigger] s@[i] < p_max,
            forall|i: int| 0 <= i < s@.len() - 1 ==> #[trigger] s@[i + 1] == if 4 * s@[i] < p_max { 4 * s@[i] } else { p_max as int },
        decreases p_max - p,
    {
        let next = if p * 4 < p_max { p * 4 } else { p_max };
        let ghost before = s@;
        s.push(next);
        proof {
            assert forall|i: int| 0 <= i < s@.len() - 1 implies #[trigger] s@[i] < p_max by {
                if i < before.len() - 1 {
                    assert(before[i] < p_max);
                } else {
                    assert(s@[i] == p);
                }
            }
            assert forall|i: int| 0 <= i < s@.len() - 1 implies #[trigger] s@[i + 1] == if 4 * s@[i] < p_max { 4 * s@[i] } else { p_max as int } by {
                if i < before.len() - 1 {
                    assert(s@[i + 1] == before[i + 1]);
                } else {
                    assert(s@[i] == p);
                }
            }
        }
        p = next;
    }
    s
}

} // verus!
