use mcsim::fbits::f64_bits_gt_zero;
use mcsim::fbits::f64_bits_is_nan;
use mcsim::fbits::f64_bits_le;
use mcsim::fbits::f64_bits_lt;
use mcsim::fbits::negate_bits;

const SAMPLES: [f64; 12] = [
    0.0,
    -0.0,
    1.0,
    -1.0,
    0.5,
    -2.75,
    5e-324,
    -5e-324,
    1e308,
    -1e308,
    f64::INFINITY,
    f64::NEG_INFINITY,
];

#[test]
fn test_bit_comparisons_match_f64() {
    for &a in SAMPLES.iter() {
        for &b in SAMPLES.iter() {
            assert_eq!(
                f64_bits_le(a.to_bits(), b.to_bits()),
                a <= b,
                "le {} {}",
                a,
                b
            );
            assert_eq!(
                f64_bits_lt(a.to_bits(), b.to_bits()),
                a < b,
                "lt {} {}",
                a,
                b
            );
        }
    }
}

#[test]
fn test_gt_zero_matches_f64() {
    for &a in SAMPLES.iter() {
        assert_eq!(f64_bits_gt_zero(a.to_bits()), a > 0.0, "{}", a);
    }
    assert!(!f64_bits_gt_zero(f64::NAN.to_bits()));
}

#[test]
fn test_is_nan_matches_f64() {
    for &a in SAMPLES.iter() {
        assert!(!f64_bits_is_nan(a.to_bits()), "{}", a);
    }
    assert!(f64_bits_is_nan(f64::NAN.to_bits()));
    assert!(f64_bits_is_nan((f64::NAN * -1.0).to_bits()));
}

#[test]
fn test_negate_bits_matches_f64_negation() {
    // The antithetic draw is the exact binary64 negation: flipping the
    // sign bit of the pattern.
    for &a in SAMPLES.iter() {
        assert_eq!(negate_bits(a.to_bits()), (-a).to_bits(), "{}", a);
    }
    let z = 1.7856931845439157f64;
    assert_eq!(f64::from_bits(negate_bits(z.to_bits())), -z);
    assert_eq!(negate_bits(negate_bits(z.to_bits())), z.to_bits());
}
