use mcsim::stats::calculate_percentile;
use mcsim::stats::calculate_summary_stats;
use mcsim::stats::find_max;
use mcsim::stats::find_min;
use mcsim::stats::percentile_index;
use mcsim::stats::sort_floats;
use mcsim::stats::StatsError;
use mcsim::stats::HALF_BITS;
use mcsim::stats::ONE_BITS;
use mcsim::stats::P05_BITS;
use mcsim::stats::P25_BITS;
use mcsim::stats::P75_BITS;
use mcsim::stats::P95_BITS;

fn bits_of(xs: &[f64]) -> Vec<u64> {
    xs.iter().map(|x| x.to_bits()).collect()
}

#[test]
fn test_probability_constants_match_f64() {
    assert_eq!(P05_BITS, 0.05f64.to_bits());
    assert_eq!(P25_BITS, 0.25f64.to_bits());
    assert_eq!(HALF_BITS, 0.5f64.to_bits());
    assert_eq!(P75_BITS, 0.75f64.to_bits());
    assert_eq!(P95_BITS, 0.95f64.to_bits());
    assert_eq!(ONE_BITS, 1.0f64.to_bits());
}

#[test]
fn test_percentile_index_matches_f64_cast() {
    // The verified integer index must equal what binary64 multiplication
    // and truncation produce, including where rounding crosses an
    // integer: 0.95 * 20.0 is exactly 19.0 in binary64 though the exact
    // rational product is below 19.
    let ps = [
        0.0, 1.0, 0.05, 0.25, 0.5, 0.75, 0.95, 0.333333333333333, 0.1, 0.2, 0.7, 0.9999999999,
        1e-300, 5e-324, 0.04999999999999999, 0.05000000000000001, 0.9499999999999999,
    ];
    let ns = [1usize, 2, 3, 4, 5, 6, 20, 21, 100, 101, 999, 12345, 1_000_001];
    for &p in ps.iter() {
        for &n in ns.iter() {
            let expect = (p * (n - 1) as f64) as usize;
            let got = percentile_index(p.to_bits(), n);
            assert_eq!(got, expect, "p = {}, n = {}", p, n);
        }
    }
    assert_eq!(percentile_index(0.95f64.to_bits(), 21), 19);
}

#[test]
fn test_var_scenario() {
    // final prices 80..120, initial 100, confidence 0.95: the 5th
    // percentile of five samples has index floor(0.05 * 4) = 0, so the
    // percentile is 80 and the value at risk 100 - 80 = 20.
    let finals = bits_of(&[80.0, 90.0, 100.0, 110.0, 120.0]);
    let one_minus_conf = 1.0f64 - 0.95f64;
    let pct = calculate_percentile(&finals, one_minus_conf.to_bits()).unwrap();
    assert_eq!(pct, 80.0f64.to_bits());
    let var = 100.0f64 - f64::from_bits(pct);
    assert_eq!(var, 20.0);
}

#[test]
fn test_summary_scenario() {
    // xs = [1..5]: mean 3, sample stdev sqrt(2.5), median at index
    // floor(0.5 * 4) = 2, i.e. 3.
    let xs = [1.0f64, 2.0, 3.0, 4.0, 5.0];
    let sample = bits_of(&xs);
    let mean: f64 = xs.iter().sum::<f64>() / xs.len() as f64;
    assert_eq!(mean, 3.0);
    let sum_sq: f64 = xs.iter().map(|x| (x - mean).powf(2.0)).sum();
    let stdev = (sum_sq / (xs.len() as f64 - 1.0)).sqrt();
    assert!((stdev - 1.5811388300841898).abs() < 1e-12);
    let st = calculate_summary_stats(&sample, mean.to_bits(), stdev.to_bits()).unwrap();
    assert_eq!(st.mean, 3.0f64.to_bits());
    assert_eq!(st.std_dev, stdev.to_bits());
    assert_eq!(st.median, 3.0f64.to_bits());
    assert_eq!(st.p5, 1.0f64.to_bits());
    assert_eq!(st.p25, 2.0f64.to_bits());
    assert_eq!(st.p75, 4.0f64.to_bits());
    assert_eq!(st.p95, 4.0f64.to_bits());
    assert_eq!(st.min, 1.0f64.to_bits());
    assert_eq!(st.max, 5.0f64.to_bits());
}

#[test]
fn test_percentile_monotonic_scenario() {
    // On a sorted-unique sample, a lower probability never selects a
    // larger element.
    let sample = bits_of(&[-7.5, -1.0, 0.0, 2.25, 3.5, 10.0, 128.0]);
    let ps: [f64; 9] = [0.0, 0.05, 0.1, 0.25, 0.5, 0.75, 0.9, 0.95, 1.0];
    for w in ps.windows(2) {
        let lo = calculate_percentile(&sample, w[0].to_bits()).unwrap();
        let hi = calculate_percentile(&sample, w[1].to_bits()).unwrap();
        assert!(f64::from_bits(lo) <= f64::from_bits(hi), "{} {}", w[0], w[1]);
    }
}

#[test]
fn test_percentile_extremes() {
    let sample = bits_of(&[4.0, -3.0, 12.5, 0.25, -9.75]);
    let lo = calculate_percentile(&sample, 0.0f64.to_bits()).unwrap();
    let hi = calculate_percentile(&sample, 1.0f64.to_bits()).unwrap();
    assert_eq!(lo, (-9.75f64).to_bits());
    assert_eq!(hi, 12.5f64.to_bits());
}

#[test]
fn test_empty_sample_errors() {
    let empty: Vec<u64> = Vec::new();
    assert_eq!(
        calculate_percentile(&empty, HALF_BITS),
        Err(StatsError::EmptySample)
    );
    assert_eq!(find_min(&empty), Err(StatsError::EmptySample));
    assert_eq!(find_max(&empty), Err(StatsError::EmptySample));
    assert!(calculate_summary_stats(&empty, 0, 0).is_err());
}

#[test]
fn test_sort_floats_matches_partial_cmp_sort() {
    let xs = [3.5f64, -0.0, 2e-308, -7.25, 0.0, 1e300, -1e300, 0.1, 3.5, -7.25];
    let mut sample = bits_of(&xs);
    sort_floats(&mut sample);
    let mut expect: Vec<f64> = xs.to_vec();
    expect.sort_by(|a, b| a.partial_cmp(b).unwrap());
    let got: Vec<f64> = sample.iter().map(|b| f64::from_bits(*b)).collect();
    assert_eq!(got.len(), expect.len());
    for (g, e) in got.iter().zip(expect.iter()) {
        assert_eq!(g, e);
    }
}

#[test]
fn test_find_min_max_values() {
    let sample = bits_of(&[2.5, -11.0, 0.0, 9.75, -11.0, 3.25]);
    assert_eq!(find_min(&sample).unwrap(), (-11.0f64).to_bits());
    assert_eq!(find_max(&sample).unwrap(), 9.75f64.to_bits());
}
