//! Ordering bit patterns agrees with ordering the numbers they stand for.
use svm::doubles::{
    less, max, max_of, min, min_of, not_a_number, HALF, INFINITY, LARGEST, ONE, SMALLEST,
    ZERO,
};

const SAMPLES: [f64; 15] = [
    f64::NEG_INFINITY,
    f64::MIN,
    -2.5,
    -1.0,
    -f64::MIN_POSITIVE,
    -5e-324,
    0.0,
    5e-324,
    f64::MIN_POSITIVE,
    0.5,
    1.0,
    2.5,
    1e300,
    f64::MAX,
    f64::INFINITY,
];

#[test]
fn constants_are_the_patterns_they_name() {
    assert_eq!(ZERO, 0.0f64.to_bits());
    assert_eq!(HALF, 0.5f64.to_bits());
    assert_eq!(ONE, 1.0f64.to_bits());
    assert_eq!(LARGEST, f64::MAX.to_bits());
    assert_eq!(SMALLEST, f64::MIN.to_bits());
    assert_eq!(INFINITY, f64::INFINITY.to_bits());
}

#[test]
fn order_agrees_with_the_numbers() {
    for x in SAMPLES {
        for y in SAMPLES {
            assert_eq!(less(x.to_bits(), y.to_bits()), x < y, "{x} {y}");
            assert_eq!(min(x.to_bits(), y.to_bits()), x.min(y).to_bits(), "{x} {y}");
            assert_eq!(max(x.to_bits(), y.to_bits()), x.max(y).to_bits(), "{x} {y}");
        }
    }
}

#[test]
fn zeros_are_equal() {
    let (plus, minus) = (0.0f64.to_bits(), (-0.0f64).to_bits());
    assert!(!less(plus, minus));
    assert!(!less(minus, plus));
    assert_eq!(min(plus, minus), plus);
    assert_eq!(min(minus, plus), minus);
    assert_eq!(max(plus, minus), plus);
    assert_eq!(max(minus, plus), minus);
}

#[test]
fn numbers_win_over_no_numbers() {
    let nan = f64::NAN.to_bits();
    let negative_nan = (-f64::NAN).to_bits();
    assert!(not_a_number(nan));
    assert!(not_a_number(negative_nan));
    for x in SAMPLES {
        let x = x.to_bits();
        assert!(!not_a_number(x));
        for n in [nan, negative_nan] {
            assert!(!less(x, n) && !less(n, x));
            assert_eq!(min(x, n), x);
            assert_eq!(min(n, x), x);
            assert_eq!(max(x, n), x);
            assert_eq!(max(n, x), x);
        }
    }
}

#[test]
fn extremes_of_values_are_folds() {
    let lists: [&[f64]; 6] = [
        &[],
        &[3.5],
        &[1.0, -7.25, 4.0, 4.5],
        &[f64::NAN, 2.0, f64::NAN, 1.0],
        &[f64::INFINITY],
        &[f64::NEG_INFINITY, f64::NAN],
    ];
    for list in lists {
        let bits: Vec<u64> = list.iter().map(|x| x.to_bits()).collect();
        let low = list.iter().fold(f64::MAX, |a, b| a.min(*b));
        let high = list.iter().fold(f64::MIN, |a, b| a.max(*b));
        assert_eq!(min_of(&bits), low.to_bits());
        assert_eq!(max_of(&bits), high.to_bits());
    }
    assert_eq!(min_of(&vec![f64::INFINITY.to_bits()]), LARGEST);
    assert_eq!(max_of(&vec![]), SMALLEST);
}
