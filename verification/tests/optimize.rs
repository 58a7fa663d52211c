use persistex_core::fft::{bit_reverse_permute, next_power_of_two};
use persistex_core::optimize::{anneal_schedule, optimize_targets, Effort, Rng};
use std::f64::consts::PI;

/// The RNG must match the reference stream, or designs stop reproducing.
#[test]
fn rng_matches_reference() {
    let mut rng = Rng::new(0);
    let expected = [6.389921564551887e-1, 3.8033586068119956, 2.5209157560606856];
    for want in expected {
        let bits = rng.next_bits();
        let got = 0.0 + (2.0 * PI - 0.0) * (bits as f64 / (1u64 << 53) as f64);
        assert!((got - want).abs() < 1e-12, "{got} vs {want}");
    }
}

#[test]
fn rng_draws_stay_below_two_to_the_53() {
    let mut rng = Rng::new(42);
    let mut again = Rng::new(42);
    for _ in 0..1000 {
        let a = rng.next_bits();
        assert!(a < 1u64 << 53);
        assert_eq!(a, again.next_bits());
    }
}

#[test]
fn effort_budgets() {
    assert_eq!(Effort::Fast.budget(), (1, 80, 256));
    assert_eq!(Effort::Standard.budget(), (3, 120, 256));
    assert_eq!(Effort::Thorough.budget(), (8, 200, 512));
    assert_eq!(Effort::Fast.label(), "fast");
    assert_eq!(Effort::Standard.label(), "standard");
    assert_eq!(Effort::Thorough.label(), "thorough");
    assert_eq!(Effort::ALL.len(), 3);
}

#[test]
fn anneal_schedule_ends_at_the_ceiling() {
    assert_eq!(anneal_schedule(256), vec![4, 16, 64, 256]);
    assert_eq!(anneal_schedule(512), vec![4, 16, 64, 256, 512]);
    assert_eq!(anneal_schedule(100), vec![4, 16, 64, 100]);
    assert_eq!(anneal_schedule(4), vec![4]);
    assert_eq!(anneal_schedule(2), vec![4]);
}

#[test]
fn powers_of_two() {
    assert_eq!(next_power_of_two(0), 1);
    assert_eq!(next_power_of_two(1), 1);
    assert_eq!(next_power_of_two(2), 2);
    assert_eq!(next_power_of_two(3), 4);
    assert_eq!(next_power_of_two(1000), 1024);
    assert_eq!(next_power_of_two(1024), 1024);
}

#[test]
fn bit_reversal_permutes_indices() {
    let mut a: Vec<usize> = (0..8).collect();
    bit_reverse_permute(&mut a);
    assert_eq!(a, vec![0, 4, 2, 6, 1, 5, 3, 7]);
    bit_reverse_permute(&mut a);
    assert_eq!(a, (0..8).collect::<Vec<_>>());
    let mut one = vec![5u8];
    bit_reverse_permute(&mut one);
    assert_eq!(one, vec![5]);
    let mut big: Vec<u32> = (0..1024).collect();
    bit_reverse_permute(&mut big);
    assert_eq!(big[1], 512);
    assert_eq!(big[3], 768);
    assert_eq!(big[1023], 1023);
}

#[test]
fn optimisation_targets_every_channel_or_the_selection() {
    assert_eq!(optimize_targets(None, 4), vec![0, 1, 2, 3]);
    assert_eq!(optimize_targets(None, 0), Vec::<usize>::new());
    assert_eq!(optimize_targets(Some(&[2, 0][..]), 4), vec![2, 0]);
    assert_eq!(optimize_targets(Some(&[][..]), 4), Vec::<usize>::new());
}
