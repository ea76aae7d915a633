use rand::SeedableRng;
use tpe::density_estimation::histogram::{build_histogram, HistogramEstimator};

fn estimator(samples: &[f64], cardinality: usize) -> HistogramEstimator {
    let range = tpe::categorical_range(cardinality).unwrap();
    let bits: Vec<u64> = samples.iter().map(|x| x.to_bits()).collect();
    build_histogram(&bits, &range)
}

#[test]
fn histogram_counts_are_smoothed_hits() {
    // samples [0, 1, 1, 2] over three bins: one pseudo-count per bin plus
    // the per-bin hits
    let h = estimator(&[0.0, 1.0, 1.0, 2.0], 3);
    assert_eq!(h.cardinality(), 3);
    assert_eq!(h.total(), 7);
    assert_eq!(h.count_at(0.0f64.to_bits()), 2);
    assert_eq!(h.count_at(1.0f64.to_bits()), 3);
    assert_eq!(h.count_at(2.0f64.to_bits()), 2);
    // the density lookup floors its argument to a bin
    assert_eq!(h.count_at(1.5f64.to_bits()), 3);
}

#[test]
fn histogram_probabilities_sum_to_one() {
    // exactly, as rationals: the counts sum to the total
    let h = estimator(&[0.0, 1.0, 1.0, 2.0, 2.0, 2.0], 4);
    let sum: usize = h.counts.iter().sum();
    assert_eq!(sum, h.total());
    // and within floating tolerance once divided out
    let total = h.total() as f64;
    let p_sum: f64 = h.counts.iter().map(|&c| c as f64 / total).sum();
    assert!((p_sum - 1.0).abs() < 1e-12);

    // the empty history keeps the uniform smoothed distribution
    let h = estimator(&[], 5);
    assert_eq!(h.cardinality(), 5);
    assert_eq!(h.total(), 5);
    let sum: usize = h.counts.iter().sum();
    assert_eq!(sum, h.total());
}

#[test]
fn pick_bin_selects_by_cumulative_windows() {
    // counts [2, 3, 2]: draws 0-1 pick bin 0, 2-4 pick bin 1, 5-6 pick bin 2
    let counts: Vec<usize> = vec![2, 3, 2];
    let expected: [usize; 7] = [0, 0, 1, 1, 1, 2, 2];
    for (u, &want) in expected.iter().enumerate() {
        assert_eq!(tpe::density_estimation::histogram::pick_bin(&counts, u), want);
    }
}

#[test]
fn histogram_sample_stays_in_range() {
    let h = estimator(&[2.0, 2.0, 2.0, 0.0], 3);
    let mut rng = rand::rngs::StdRng::from_seed([5u8; 32]);
    for _ in 0..200u32 {
        let x = f64::from_bits(h.sample(&mut rng));
        assert_eq!(x, x.floor());
        assert!(0.0 <= x && x < 3.0);
    }
}
