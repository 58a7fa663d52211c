use persistex_core::design::{
    arithmetic_run, free_bins, generator_bins, grid_size, max_bin, measure_grid, repeat_periods,
    shared_bins,
    snap_spread, snap_tones, structural_error, used_bins, DesignError, Shape, Spacing, Target,
    ToneFate,
};
use persistex_core::fft::next_power_of_two;
use std::collections::HashSet;

/// An exact rational form of a non-negative float target.
fn exact(t: f64) -> Target {
    let bits = t.to_bits();
    let exponent = ((bits >> 52) & 0x7ff) as i64;
    let fraction = bits & ((1u64 << 52) - 1);
    let (mantissa, e) = if exponent == 0 {
        (fraction, -1074)
    } else {
        (fraction | (1u64 << 52), exponent - 1075)
    };
    if e >= 0 {
        Target { num: (mantissa as u128) << e, den: 1 }
    } else {
        Target { num: mantissa as u128, den: 1u64 << (-e) }
    }
}

/// The bins a linear generator over `f_min..f_max` takes, stepping around `taken`.
fn generate_bins(f_min: f64, f_max: f64, count: usize, f0: f64, taken: &HashSet<usize>, odd_only: bool) -> Vec<usize> {
    let k_lo = ((f_min / f0).round() as usize).max(1);
    let k_hi = ((f_max / f0).round() as usize).max(k_lo + 1);
    let free = free_bins(k_lo, k_hi, taken, odd_only);
    let n = count.min(free.len().max(1));
    let targets: Vec<Target> = (0..n)
        .map(|j| {
            let f = if n == 1 { 0.0 } else { j as f64 / (n - 1) as f64 };
            exact(k_lo as f64 + (k_hi as f64 - k_lo as f64) * f)
        })
        .collect();
    generator_bins(&free, k_lo, k_hi, count, odd_only, true, &targets)
}

/// n inputs over the same band, each stepping around the bins already taken.
fn specs(n: usize, f_min: f64, f_max: f64, count: usize, f0: f64) -> Vec<Vec<usize>> {
    let mut taken: HashSet<usize> = HashSet::new();
    let mut out = Vec::new();
    for _ in 0..n {
        let bins = generate_bins(f_min, f_max, count, f0, &taken, false);
        for &k in &bins {
            taken.insert(k);
        }
        out.push(bins);
    }
    out
}

#[test]
fn generated_tones_are_evenly_spaced_and_avoid_each_other() {
    let f0 = 1.0 / 30.0;
    for (n, f_min, f_max, count) in [
        (4usize, 0.1, 3.0, 8usize),
        (8, 0.3, 6.0, 5),
        (2, 0.2, 5.0, 20),
    ] {
        let channels = specs(n, f_min, f_max, count, f0);
        let mut all: Vec<usize> = channels.iter().flat_map(|c| c.clone()).collect();
        let total = all.len();
        all.sort_unstable();
        all.dedup();
        assert_eq!(all.len(), total, "inputs share bins");
        assert!(shared_bins(&channels).is_empty());
        for bins in &channels {
            let steps: Vec<usize> = bins.windows(2).map(|w| w[1] - w[0]).collect();
            assert!(
                steps.windows(2).all(|w| w[0] == w[1]),
                "not an arithmetic run: {:?}",
                bins
            );
        }
    }
}

#[test]
fn odd_only_generation_stays_odd() {
    let f0 = 1.0 / 30.0;
    let bins = generate_bins(0.1, 3.0, 8, f0, &HashSet::new(), true);
    assert_eq!(bins.len(), 8);
    for k in &bins {
        assert_eq!(k % 2, 1);
    }
}

#[test]
fn grids_are_powers_of_two() {
    for bins in specs(2, 0.1, 8.0, 10, 1.0 / 30.0) {
        let grid = grid_size(&bins);
        let measure = measure_grid(&bins);
        assert!(grid.is_power_of_two());
        assert!(measure.is_power_of_two());
        assert!(measure > grid);
        assert_eq!(next_power_of_two(grid), grid);
    }
}

#[test]
fn grid_sizes_follow_the_top_bin() {
    assert_eq!(grid_size(&[]), 256);
    assert_eq!(measure_grid(&[]), 2048);
    assert_eq!(grid_size(&[3, 90, 7]), 1024);
    assert_eq!(measure_grid(&[3, 90, 7]), 4096);
    assert_eq!(grid_size(&[2000]), 16384);
    assert_eq!(measure_grid(&[2000]), 65536);
    assert_eq!(max_bin(&[4, 9, 2]), 9);
    assert_eq!(max_bin(&[]), 1);
}

#[test]
fn tones_are_taken_as_given() {
    let wanted: [f64; 5] = [0.37, 0.9, 1.13, 2.7, 4.02];
    let f0 = 1.0 / 30.0;
    let requested: Vec<Option<usize>> = wanted
        .iter()
        .map(|&f| Some(((f / f0).round() as usize).max(1)))
        .collect();
    let s = snap_tones(&requested);
    assert_eq!(s.bins.len(), wanted.len());
    for (k, w) in s.bins.iter().zip(wanted) {
        let g = *k as f64 * f0;
        assert!((g - w).abs() <= 0.5 / 30.0 + 1e-9, "{g} vs {w}");
    }
}

#[test]
fn snapping_keeps_first_of_colliding_tones_and_sorts() {
    let s = snap_tones(&[Some(9), None, Some(4), Some(9), Some(2), Some(4)]);
    assert_eq!(
        s.fates,
        vec![
            ToneFate::Kept(9),
            ToneFate::Skipped,
            ToneFate::Kept(4),
            ToneFate::Collides(9),
            ToneFate::Kept(2),
            ToneFate::Collides(4),
        ]
    );
    assert_eq!(s.bins, vec![2, 4, 9]);
    assert_eq!(s.sources, vec![4, 2, 0]);
    let none = snap_tones(&[None, None]);
    assert!(none.bins.is_empty());
    assert_eq!(none.fates, vec![ToneFate::Skipped, ToneFate::Skipped]);
}

#[test]
fn two_inputs_sharing_a_bin_are_reported() {
    assert_eq!(shared_bins(&vec![vec![30], vec![30]]), vec![30]);
    assert_eq!(shared_bins(&vec![vec![5, 9, 12], vec![9, 2], vec![12, 9]]), vec![9, 12]);
    assert!(shared_bins(&vec![vec![1, 4], vec![2, 5], vec![3, 6]]).is_empty());
    assert!(shared_bins(&vec![]).is_empty());
    // a bin repeated inside one input is not shared with another input
    assert!(shared_bins(&vec![vec![5, 5], vec![6]]).is_empty());
    assert_eq!(shared_bins(&vec![vec![5, 5], vec![5]]), vec![5]);
}

#[test]
fn only_structural_problems_are_errors() {
    assert!(structural_error(0, true, true, 2).is_some());
    let err = DesignError::no_tones("a");
    assert!(err.to_string().contains("at least one tone"), "{}", err.to_string());
    assert!(structural_error(1, false, true, 2).is_some());
    assert!(structural_error(1, true, false, 2).is_some());
    assert!(structural_error(1, true, true, 2).is_none());
}

#[test]
fn structural_errors_come_in_order() {
    assert_eq!(structural_error(0, false, false, 0).unwrap().to_string(), "add at least one input");
    assert_eq!(
        structural_error(3, false, false, 0).unwrap().to_string(),
        "record length must be a positive number"
    );
    assert_eq!(
        structural_error(3, true, false, 0).unwrap().to_string(),
        "sample rate must be a positive number"
    );
    assert_eq!(structural_error(3, true, true, 0).unwrap().to_string(), "repeats must be at least one");
    assert_eq!(DesignError::no_usable_tones("ele").to_string(), "ele: no usable tones");
    assert_eq!(DesignError::no_tones("ail").to_string(), "ail: add at least one tone");
}

#[test]
fn widest_run_is_found_first() {
    let free: HashSet<usize> = (1..=20).collect();
    assert_eq!(arithmetic_run(&free, 1, 20, 4, false), Some(vec![1, 7, 13, 19]));
    // with the lowest start of that spacing taken, the next start is used
    let free: HashSet<usize> = (2..=20).collect();
    assert_eq!(arithmetic_run(&free, 1, 20, 4, false), Some(vec![2, 8, 14, 20]));
    // a single tone takes the lowest free bin, wherever it is
    let free: HashSet<usize> = [40, 12, 33].into_iter().collect();
    assert_eq!(arithmetic_run(&free, 1, 20, 1, false), Some(vec![12]));
    assert_eq!(arithmetic_run(&HashSet::new(), 1, 20, 1, false), None);
}

#[test]
fn runs_too_short_for_the_band_are_refused() {
    // only every third bin is free: spacing 3 spans 9 of a 19-bin band (< 85%)
    let free: HashSet<usize> = [1, 2, 3, 4, 10].into_iter().collect();
    assert_eq!(arithmetic_run(&free, 1, 20, 4, false), None);
    assert_eq!(arithmetic_run(&free, 5, 5, 2, false), None);
    // odd-only runs step by an even spacing
    let free = free_bins(1, 21, &HashSet::new(), true);
    assert_eq!(arithmetic_run(&free, 1, 21, 3, true), Some(vec![1, 11, 21]));
}

#[test]
fn free_bins_step_around_taken_bins() {
    let taken: HashSet<usize> = [3, 5].into_iter().collect();
    let free = free_bins(2, 7, &taken, false);
    let mut got: Vec<usize> = free.into_iter().collect();
    got.sort_unstable();
    assert_eq!(got, vec![2, 4, 6, 7]);
    let odd = free_bins(2, 9, &taken, true);
    let mut got: Vec<usize> = odd.into_iter().collect();
    got.sort_unstable();
    assert_eq!(got, vec![7, 9]);
    assert!(free_bins(5, 4, &taken, false).is_empty());
}

#[test]
fn snapping_picks_the_nearest_free_bin_in_turn() {
    let free: HashSet<usize> = [1, 4, 5, 9].into_iter().collect();
    // 4.5 is equidistant from 4 and 5: the lower wins; then 4.5 again takes 5
    let t = Target { num: 9, den: 2 };
    assert_eq!(snap_spread(&free, &[t, t]), vec![4, 5]);
    // targets are served in order, and picks come back ascending
    let got = snap_spread(&free, &[Target { num: 9, den: 1 }, Target { num: 1, den: 1 }, Target { num: 9, den: 1 }]);
    assert_eq!(got, vec![1, 5, 9]);
    // more targets than free bins: stops when the bins run out
    assert_eq!(snap_spread(&free, &[t; 6]).len(), 4);
    assert!(snap_spread(&HashSet::new(), &[t]).is_empty());
}

#[test]
fn labels_are_the_names_shown() {
    assert_eq!(Shape::Flat.label(), "flat");
    assert_eq!(Shape::InvSqrtF.label(), "1/sqrt(f)");
    assert_eq!(Shape::InvF.label(), "1/f");
    assert_eq!(Shape::InvF15.label(), "1/f^1.5");
    assert_eq!(Spacing::Linear.label(), "linear");
    assert_eq!(Spacing::Logarithmic.label(), "logarithmic");
    assert_eq!(Shape::ALL.len(), 4);
    assert_eq!(Spacing::ALL.len(), 2);
}

#[test]
fn used_bins_counts_every_input() {
    assert_eq!(used_bins(&vec![vec![3, 6, 9], vec![4, 8], vec![]]), 5);
    // a shared bin is used by both inputs
    assert_eq!(used_bins(&vec![vec![5], vec![5]]), 2);
    assert_eq!(used_bins(&Vec::new()), 0);
}

#[test]
fn records_repeat_one_period_back_to_back() {
    assert_eq!(repeat_periods(&[1.5, -2.0, 0.25], 2), vec![1.5, -2.0, 0.25, 1.5, -2.0, 0.25]);
    assert_eq!(repeat_periods(&[7u8], 3), vec![7, 7, 7]);
    assert!(repeat_periods(&[1u8, 2], 0).is_empty());
    assert!(repeat_periods::<u8>(&[], 5).is_empty());
}

#[test]
fn generators_take_a_run_when_linear_and_snap_otherwise() {
    let taken: HashSet<usize> = [5, 6].into_iter().collect();
    let free = free_bins(1, 20, &taken, false);
    let targets = vec![exact(1.0), exact(4.4), exact(20.0)];
    assert_eq!(generator_bins(&free, 1, 20, 3, false, true, &targets), vec![1, 10, 19]);
    assert_eq!(generator_bins(&free, 1, 20, 3, false, false, &targets), vec![1, 4, 20]);
    // a single linear tone takes the lowest free bin
    assert_eq!(generator_bins(&free, 1, 20, 1, false, true, &targets[..1]), vec![1]);
    // no run reaches across the band when nearly every bin is taken
    let crowded: HashSet<usize> = (2..20).filter(|k| *k != 7).collect();
    let free = free_bins(1, 20, &crowded, false);
    let picked = generator_bins(&free, 1, 20, 3, false, true, &targets);
    assert_eq!(picked, vec![1, 7, 20]);
    assert!(picked.iter().all(|k| !crowded.contains(k)));
}
