use tpe::range::{Range, RangeError};

#[test]
fn range_accepts_valid_interval() {
    let r = tpe::range((-5.0f64).to_bits(), 5.0f64.to_bits()).unwrap();
    assert_eq!(r.start(), (-5.0f64).to_bits());
    assert_eq!(r.end(), 5.0f64.to_bits());
    assert!(r.contains((-5.0f64).to_bits()));
    assert!(r.contains(0.0f64.to_bits()));
    assert!(r.contains(4.999f64.to_bits()));
    assert!(!r.contains(5.0f64.to_bits()));
    assert!(!r.contains((-5.1f64).to_bits()));
    assert!(!r.contains(f64::NAN.to_bits()));
}

#[test]
fn range_rejects_empty_or_inverted() {
    assert_eq!(
        Range::new(5.0f64.to_bits(), 5.0f64.to_bits()),
        Err(RangeError::EmptyRange)
    );
    assert_eq!(
        Range::new(5.0f64.to_bits(), (-5.0f64).to_bits()),
        Err(RangeError::EmptyRange)
    );
    // both zeros compare equal, so the interval is empty
    assert_eq!(
        Range::new(0.0f64.to_bits(), (-0.0f64).to_bits()),
        Err(RangeError::EmptyRange)
    );
}

#[test]
fn range_rejects_non_finite_span() {
    assert_eq!(
        Range::new(f64::NAN.to_bits(), 5.0f64.to_bits()),
        Err(RangeError::NonFiniteRange)
    );
    assert_eq!(
        Range::new(0.0f64.to_bits(), f64::INFINITY.to_bits()),
        Err(RangeError::NonFiniteRange)
    );
    assert_eq!(
        Range::new(f64::NEG_INFINITY.to_bits(), 0.0f64.to_bits()),
        Err(RangeError::NonFiniteRange)
    );
    // both ends finite, but their difference overflows to infinity
    assert!(!(f64::MAX - f64::MIN).is_finite());
    assert_eq!(
        Range::new(f64::MIN.to_bits(), f64::MAX.to_bits()),
        Err(RangeError::NonFiniteRange)
    );
    // a huge same-sign span stays finite
    assert!(Range::new(1.0e308f64.to_bits(), 1.7e308f64.to_bits()).is_ok());
}

#[test]
fn range_matches_the_exact_overflow_boundary() {
    // the smallest magnitude sum that rounds to infinity is 2^1024 - 2^970,
    // the midpoint between f64::MAX and 2^1024: the tie rounds to the even
    // 2^1024, so reaching the midpoint exactly is rejected
    let at_midpoint = -(2.0f64.powi(970));
    assert!(!(f64::MAX - at_midpoint).is_finite());
    assert_eq!(
        Range::new(at_midpoint.to_bits(), f64::MAX.to_bits()),
        Err(RangeError::NonFiniteRange)
    );
    // one representable step below the midpoint rounds down to f64::MAX
    let below_midpoint = -(2.0f64.powi(970) - 2.0f64.powi(918));
    assert!((f64::MAX - below_midpoint).is_finite());
    assert!(Range::new(below_midpoint.to_bits(), f64::MAX.to_bits()).is_ok());
    // one representable step above the midpoint rounds up to infinity
    let above_midpoint = -(2.0f64.powi(970) + 2.0f64.powi(918));
    assert_eq!(above_midpoint.to_bits(), 0xfc90_0000_0000_0001);
    assert!(!(f64::MAX - above_midpoint).is_finite());
    assert_eq!(
        Range::new(above_midpoint.to_bits(), f64::MAX.to_bits()),
        Err(RangeError::NonFiniteRange)
    );
    // points clear of the midpoint on either side
    let well_over = -3.0f64 * 2.0f64.powi(969);
    let well_under = -1.0f64 * 2.0f64.powi(969);
    assert!(!(f64::MAX - well_over).is_finite());
    assert!((f64::MAX - well_under).is_finite());
    assert_eq!(
        Range::new(well_over.to_bits(), f64::MAX.to_bits()),
        Err(RangeError::NonFiniteRange)
    );
    assert!(Range::new(well_under.to_bits(), f64::MAX.to_bits()).is_ok());
}

#[test]
fn range_overflow_check_handles_distant_scales() {
    // a far smaller opposite-sign term can still push the span over
    let big_gap = -(2.0f64.powi(1000));
    assert!(!(f64::MAX - big_gap).is_finite());
    assert_eq!(
        Range::new(big_gap.to_bits(), f64::MAX.to_bits()),
        Err(RangeError::NonFiniteRange)
    );
    // and a yet smaller one does not
    let small_gap = -(2.0f64.powi(900));
    assert!((f64::MAX - small_gap).is_finite());
    assert!(Range::new(small_gap.to_bits(), f64::MAX.to_bits()).is_ok());
}

#[test]
fn range_handles_subnormal_endpoints() {
    let tiny = 5e-324f64;  // the smallest positive double
    let r = Range::new(tiny.to_bits(), 1e-323f64.to_bits()).unwrap();
    assert!(r.contains(tiny.to_bits()));
    assert!(!r.contains(0.0f64.to_bits()));
    assert!(!r.contains(1e-323f64.to_bits()));
    assert_eq!(
        Range::new(0.0f64.to_bits(), 0.0f64.to_bits()),
        Err(RangeError::EmptyRange)
    );
    assert!(Range::new((-0.0f64).to_bits(), tiny.to_bits()).is_ok());
}

#[test]
fn range_agrees_with_float_semantics_on_samples() {
    let r = Range::new((-2.5f64).to_bits(), 7.25f64.to_bits()).unwrap();
    let samples: [f64; 9] = [-3.0, -2.5, -0.0, 0.0, 1.5, 7.0, 7.25, 7.5, f64::NAN];
    for v in samples {
        let expected = -2.5f64 <= v && v < 7.25f64;
        assert_eq!(r.contains(v.to_bits()), expected);
    }
}

#[test]
fn categorical_range_is_zero_based() {
    assert_eq!(tpe::categorical_range(0), Err(RangeError::EmptyRange));
    let r = tpe::categorical_range(3).unwrap();
    assert_eq!(r.start(), 0.0f64.to_bits());
    assert_eq!(r.end(), 3.0f64.to_bits());
    assert!(r.contains(2.0f64.to_bits()));
    assert!(!r.contains(3.0f64.to_bits()));
}
