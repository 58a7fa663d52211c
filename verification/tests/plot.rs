use persistex_core::plot::{band_columns, envelope_needed, line_samples, log_axis_preferred};

#[test]
fn short_traces_keep_every_sample() {
    assert_eq!(line_samples(0, 100), Vec::<usize>::new());
    assert_eq!(line_samples(5, 100), vec![0, 1, 2, 3, 4]);
    // the budget is four points per column, and never fewer than two points
    assert_eq!(line_samples(400, 100), (0..400).collect::<Vec<usize>>());
    assert_eq!(line_samples(2, 0), vec![0, 1]);
}

#[test]
fn long_traces_are_strided_and_keep_the_last_sample() {
    // 1001 samples over 100 columns: stride 2, and the last sample is on the stride
    let idx = line_samples(1001, 100);
    assert_eq!(idx.len(), 501);
    assert_eq!(idx[1], 2);
    assert_eq!(*idx.last().unwrap(), 1000);
    // 1000 samples: stride 2 ends at 998, so 999 is added to span the full width
    let idx = line_samples(1000, 100);
    assert_eq!(idx.len(), 501);
    assert_eq!(idx[499], 998);
    assert_eq!(idx[500], 999);
    // 4000 samples over 100 columns: stride 10
    let idx = line_samples(4000, 100);
    assert_eq!(idx[1], 10);
    assert_eq!(*idx.last().unwrap(), 3999);
    assert!(idx.windows(2).all(|w| w[0] < w[1]));
}

#[test]
fn envelope_chunks_cover_the_trace_in_order() {
    let chunks = band_columns(10, 4);
    assert_eq!(chunks, vec![(0, 2), (2, 5), (5, 7), (7, 10)]);
    // more columns than samples: every chunk still holds one sample
    let chunks = band_columns(3, 5);
    assert_eq!(chunks, vec![(0, 1), (0, 1), (1, 2), (1, 2), (2, 3)]);
    assert!(band_columns(7, 0).is_empty());
}

#[test]
fn envelope_follows_cycles_not_samples() {
    // 40 cycles on 100 columns is readable; 41 are not (2.5 columns a cycle)
    assert!(!envelope_needed(20, 2, 100));
    assert!(envelope_needed(41, 1, 100));
    // the decision never sees the sample count: the same tones at any sample rate
    for periods in [1usize, 2, 3] {
        assert_eq!(envelope_needed(90, periods, 900), 90 * periods * 5 > 1800);
    }
    assert!(envelope_needed(usize::MAX, usize::MAX, usize::MAX));
}

#[test]
fn crowded_low_tones_switch_the_spectrum_to_a_log_axis() {
    // a 1/f-style set: the closest pair is 900/199 of a pixel apart on a linear axis
    assert!(log_axis_preferred(&[1, 2, 200], 900));
    // an even set keeps its linear axis, however many decades it spans
    let even: Vec<usize> = (1..=10).map(|k| k * 10).collect();
    assert!(!log_axis_preferred(&even, 900));
    // the threshold: 1 bin over 150 on 900 pixels is exactly six pixels, not crowded
    assert!(!log_axis_preferred(&[0, 1, 150], 900));
    assert!(log_axis_preferred(&[0, 1, 151], 900));
    // repeated bins are not a pair, and a lone tone never crowds
    assert!(!log_axis_preferred(&[5, 5], 900));
    assert!(!log_axis_preferred(&[7], 900));
    assert!(!log_axis_preferred(&[], 900));
}
