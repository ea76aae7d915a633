use rand::SeedableRng;
use tpe::{BuildError, TellError, TpeOptimizer, TpeOptimizerBuilder};

fn unit_range() -> tpe::range::Range {
    tpe::range(0.0f64.to_bits(), 1.0f64.to_bits()).unwrap()
}

#[test]
fn builder_validates_gamma_and_candidates() {
    let r = unit_range();
    assert!(matches!(
        TpeOptimizerBuilder::new().build(tpe::parzen_estimator(), r),
        Ok(_)
    ));

    let mut b = TpeOptimizerBuilder::new();
    b.gamma((-0.1f64).to_bits());
    assert!(matches!(
        b.build(tpe::parzen_estimator(), r),
        Err(BuildError::GammaOutOfRange)
    ));

    let mut b = TpeOptimizerBuilder::new();
    b.gamma(1.1f64.to_bits());
    assert!(matches!(
        b.build(tpe::parzen_estimator(), r),
        Err(BuildError::GammaOutOfRange)
    ));

    let mut b = TpeOptimizerBuilder::new();
    b.gamma(f64::NAN.to_bits());
    assert!(matches!(
        b.build(tpe::parzen_estimator(), r),
        Err(BuildError::GammaOutOfRange)
    ));

    let mut b = TpeOptimizerBuilder::new();
    b.gamma(0.0f64.to_bits());
    assert!(matches!(b.build(tpe::parzen_estimator(), r), Ok(_)));

    let mut b = TpeOptimizerBuilder::new();
    b.gamma(1.0f64.to_bits());
    assert!(matches!(b.build(tpe::parzen_estimator(), r), Ok(_)));

    let mut b = TpeOptimizerBuilder::new();
    b.candidates(0);
    assert!(matches!(
        b.build(tpe::parzen_estimator(), r),
        Err(BuildError::ZeroCandidates)
    ));
}

#[test]
fn builder_defaults_match_the_documented_settings() {
    let b = TpeOptimizerBuilder::new();
    assert_eq!(b.gamma, 0.1f64.to_bits());
    assert_eq!(b.candidates, 24);
    // the default settings always build
    let opt = TpeOptimizer::new(tpe::parzen_estimator(), unit_range());
    assert_eq!(opt.gamma, 0.1f64.to_bits());
    assert_eq!(opt.candidates, 24);
    assert_eq!(opt.trials.len(), 0);
}

#[test]
fn tell_validates_and_appends() {
    let mut opt = TpeOptimizer::new(tpe::histogram_estimator(), tpe::categorical_range(3).unwrap());

    // a NaN objective value is rejected whatever the parameter is
    assert!(matches!(
        opt.tell(0.0f64.to_bits(), f64::NAN.to_bits()),
        Err(TellError::NanValue)
    ));
    assert!(matches!(
        opt.tell(f64::NAN.to_bits(), f64::NAN.to_bits()),
        Err(TellError::NanValue)
    ));
    assert_eq!(opt.trials.len(), 0);

    // a non-sentinel parameter outside the range is rejected, and the error
    // carries the offending inputs
    match opt.tell(3.0f64.to_bits(), 1.0f64.to_bits()) {
        Err(TellError::ParamOutOfRange { param, range }) => {
            assert_eq!(param, 3.0f64.to_bits());
            assert_eq!(range.start(), 0.0f64.to_bits());
            assert_eq!(range.end(), 3.0f64.to_bits());
        }
        other => panic!("expected a range error, got {:?}", other),
    }
    assert_eq!(opt.trials.len(), 0);

    // the NaN "absent" parameter is accepted unconditionally
    assert!(opt.tell(f64::NAN.to_bits(), 1.0f64.to_bits()).is_ok());
    assert_eq!(opt.trials.len(), 1);

    // a contained parameter is accepted, appending exactly one trial
    assert!(opt.tell(2.0f64.to_bits(), 0.5f64.to_bits()).is_ok());
    assert_eq!(opt.trials.len(), 2);

    // an infinite objective value is fine: only NaN is rejected
    assert!(opt.tell(1.0f64.to_bits(), f64::INFINITY.to_bits()).is_ok());
    assert_eq!(opt.trials.len(), 3);
}

#[test]
fn split_groups_have_exact_sizes() {
    // five trials at gamma = 0.5: the superior group takes ceil(2.5) = 3
    let mut b = TpeOptimizerBuilder::new();
    b.gamma(0.5f64.to_bits());
    let mut opt = b
        .build(tpe::histogram_estimator(), tpe::categorical_range(10).unwrap())
        .unwrap();
    let telling: [(f64, f64); 5] = [(4.0, 40.0), (0.0, 0.0), (3.0, 30.0), (1.0, 10.0), (2.0, 20.0)];
    for (p, v) in telling {
        opt.tell(p.to_bits(), v.to_bits()).unwrap();
    }
    let (sup, inf) = opt.split_observations();
    assert_eq!(sup.len(), 3);
    assert_eq!(inf.len(), 2);
    // the superior group holds the parameters of the three lowest values
    assert_eq!(
        sup,
        vec![0.0f64.to_bits(), 1.0f64.to_bits(), 2.0f64.to_bits()]
    );
    assert_eq!(inf, vec![3.0f64.to_bits(), 4.0f64.to_bits()]);
}

#[test]
fn split_keeps_ties_in_told_order() {
    let mut b = TpeOptimizerBuilder::new();
    b.gamma(1.0f64.to_bits());
    let mut opt = b
        .build(tpe::histogram_estimator(), tpe::categorical_range(10).unwrap())
        .unwrap();
    let telling: [(f64, f64); 4] = [(5.0, 1.0), (6.0, 0.0), (7.0, 1.0), (8.0, 0.0)];
    for (p, v) in telling {
        opt.tell(p.to_bits(), v.to_bits()).unwrap();
    }
    // gamma = 1: everything is superior, in stable sorted order
    let (sup, inf) = opt.split_observations();
    assert_eq!(inf.len(), 0);
    assert_eq!(
        sup,
        vec![
            6.0f64.to_bits(),
            8.0f64.to_bits(),
            5.0f64.to_bits(),
            7.0f64.to_bits()
        ]
    );
}

#[test]
fn absent_params_count_for_the_split_but_not_the_fit() {
    // four trials, one with an absent parameter, at gamma = 0.5:
    // split point is ceil(2) = 2, and the absent parameter is filtered out
    let mut b = TpeOptimizerBuilder::new();
    b.gamma(0.5f64.to_bits());
    let mut opt = b
        .build(tpe::histogram_estimator(), tpe::categorical_range(10).unwrap())
        .unwrap();
    opt.tell(f64::NAN.to_bits(), 0.0f64.to_bits()).unwrap();
    opt.tell(1.0f64.to_bits(), 1.0f64.to_bits()).unwrap();
    opt.tell(2.0f64.to_bits(), 2.0f64.to_bits()).unwrap();
    opt.tell(3.0f64.to_bits(), 3.0f64.to_bits()).unwrap();
    let (sup, inf) = opt.split_observations();
    // the absent trial occupies a superior slot but contributes no parameter
    assert_eq!(sup, vec![1.0f64.to_bits()]);
    assert_eq!(inf, vec![2.0f64.to_bits(), 3.0f64.to_bits()]);
    // the number of fitted parameters equals the told trials with a present
    // parameter
    assert_eq!(sup.len() + inf.len(), 3);
}

#[test]
fn ask_returns_bins_inside_the_range() {
    // across all history sizes, including zero trials, the histogram
    // strategy returns an integer-valued double in [0, cardinality)
    let range = tpe::categorical_range(3).unwrap();
    let mut opt = TpeOptimizer::new(tpe::histogram_estimator(), range);
    let mut rng = rand::rngs::StdRng::from_seed([7u8; 32]);
    for round in 0..50u32 {
        let x_bits = opt.ask(&mut rng);
        let x = f64::from_bits(x_bits);
        assert!(range.contains(x_bits));
        assert_eq!(x, x.floor());
        assert!(0.0 <= x && x < 3.0);
        let value = f64::from(round % 5);
        opt.tell(x_bits, value.to_bits()).unwrap();
    }
}

#[test]
fn ask_is_deterministic_for_a_fixed_seed() {
    let range = tpe::categorical_range(4).unwrap();
    let mut a = TpeOptimizer::new(tpe::histogram_estimator(), range);
    let mut b = TpeOptimizer::new(tpe::histogram_estimator(), range);
    let mut rng_a = rand::rngs::StdRng::from_seed([42u8; 32]);
    let mut rng_b = rand::rngs::StdRng::from_seed([42u8; 32]);
    let mut asked_a: Vec<u64> = Vec::new();
    let mut asked_b: Vec<u64> = Vec::new();
    for round in 0..30u32 {
        let xa = a.ask(&mut rng_a);
        let xb = b.ask(&mut rng_b);
        asked_a.push(xa);
        asked_b.push(xb);
        let value = f64::from((round * 31) % 7);
        a.tell(xa, value.to_bits()).unwrap();
        b.tell(xb, value.to_bits()).unwrap();
    }
    // identical seeds and identical told sequences give bit-identical asks
    assert_eq!(asked_a, asked_b);
}

#[test]
fn select_max_by_score_prefers_the_last_maximum() {
    let scored: Vec<(u64, u64)> = vec![
        (1.0f64.to_bits(), 10),
        (3.0f64.to_bits(), 20),
        (3.0f64.to_bits(), 30),
        (2.0f64.to_bits(), 40),
    ];
    assert_eq!(tpe::select_max_by_score(&scored), 30);

    // a NaN score sorts above every other score
    let scored: Vec<(u64, u64)> = vec![
        (f64::NAN.to_bits(), 1),
        (f64::INFINITY.to_bits(), 2),
        (5.0f64.to_bits(), 3),
    ];
    assert_eq!(tpe::select_max_by_score(&scored), 1);

    let scored: Vec<(u64, u64)> = vec![((-1.0f64).to_bits(), 9)];
    assert_eq!(tpe::select_max_by_score(&scored), 9);
}
