use mcsim::path::interleave_pairs;
use mcsim::path::terminal_prices;
use mcsim::path::Path;
use mcsim::sim::bootstrap_index_paths;
use mcsim::sim::check_result_shape;
use mcsim::sim::bootstrap_indices;
use mcsim::sim::plan_simulation;
use mcsim::sim::resolve_seed;
use mcsim::sim::seed_schedule;
use mcsim::sim::validate_config;
use mcsim::sim::ConfigError;
use mcsim::sim::SimulationConfig;
use mcsim::sim::SimulationModel;
use mcsim::sim::SimulationPlan;
use mcsim::sim::DEFAULT_SEED;
use rand::rngs::StdRng;
use rand::Rng;
use rand::SeedableRng;

fn gbm_config() -> SimulationConfig {
    SimulationConfig {
        initial_price: 100.0f64.to_bits(),
        horizon_days: 5,
        num_paths: 10,
        dt: 1.0f64.to_bits(),
        model: SimulationModel::GBM {
            mu: 0.05f64.to_bits(),
            sigma: 0.2f64.to_bits(),
        },
        use_antithetic: false,
        seed: Some(42),
    }
}

#[test]
fn test_validate_config_accepts_gbm() {
    assert_eq!(validate_config(&gbm_config()), Ok(()));
}

#[test]
fn test_validate_config_rejects_non_positive_initial_price() {
    for bad in [0.0f64, -1.0, f64::NAN, f64::NEG_INFINITY] {
        let mut c = gbm_config();
        c.initial_price = bad.to_bits();
        assert_eq!(
            validate_config(&c),
            Err(ConfigError::NonPositiveInitialPrice),
            "{}",
            bad
        );
    }
}

#[test]
fn test_validate_config_rejects_non_positive_dt() {
    for bad in [0.0f64, -0.5, f64::NAN] {
        let mut c = gbm_config();
        c.dt = bad.to_bits();
        assert_eq!(validate_config(&c), Err(ConfigError::NonPositiveDt), "{}", bad);
    }
}

#[test]
fn test_validate_config_rejects_empty_historical_returns() {
    let mut c = gbm_config();
    c.model = SimulationModel::Bootstrap {
        historical_returns: Vec::new(),
    };
    assert_eq!(
        validate_config(&c),
        Err(ConfigError::EmptyHistoricalReturns)
    );
}

#[test]
fn test_resolve_seed() {
    assert_eq!(resolve_seed(&Some(7)), 7);
    assert_eq!(resolve_seed(&None), DEFAULT_SEED);
    assert_eq!(resolve_seed(&None), 42);
}

#[test]
fn test_seed_schedule_is_base_plus_index() {
    let seeds = seed_schedule(5, 42);
    assert_eq!(seeds, vec![42, 43, 44, 45, 46]);
    assert_eq!(seed_schedule(0, 9), Vec::<u64>::new());
}

#[test]
fn test_bootstrap_indices_match_direct_rng() {
    // The index draws must be exactly what a StdRng seeded the same way
    // hands out through gen_range, one draw per day.
    let mut rng = StdRng::seed_from_u64(9);
    let mut expect: Vec<usize> = Vec::new();
    for _ in 0..20 {
        expect.push(rng.gen_range(0..5usize));
    }
    assert_eq!(bootstrap_indices(5, 20, 9), expect);
}

#[test]
fn test_bootstrap_indices_deterministic_and_in_range() {
    let a = bootstrap_indices(3, 50, 1234);
    let b = bootstrap_indices(3, 50, 1234);
    assert_eq!(a, b);
    assert_eq!(a.len(), 50);
    assert!(a.iter().all(|i| *i < 3));
    let c = bootstrap_indices(3, 50, 1235);
    assert!(a != c);
}

#[test]
fn test_bootstrap_index_paths_seeded_per_path() {
    let paths = bootstrap_index_paths(4, 12, 6, 100);
    assert_eq!(paths.len(), 6);
    for (i, p) in paths.iter().enumerate() {
        assert_eq!(*p, bootstrap_indices(4, 12, 100 + i as u64), "path {}", i);
    }
}

#[test]
fn test_bootstrap_degenerate_single_return() {
    // With one historical return every draw selects it, so the simulated
    // path repeats exp(r) factors of that single return alone.
    let indices = bootstrap_indices(1, 30, 77);
    assert!(indices.iter().all(|i| *i == 0));
}

#[test]
fn test_plan_simulation_gbm() {
    let plan = plan_simulation(&gbm_config()).unwrap();
    match plan {
        SimulationPlan::Gbm { path_seeds } => {
            assert_eq!(path_seeds, vec![42, 43, 44, 45, 46, 47, 48, 49, 50, 51]);
        }
        _ => panic!("expected the plain GBM plan"),
    }
}

#[test]
fn test_plan_simulation_antithetic_drops_odd_path() {
    let mut c = gbm_config();
    c.use_antithetic = true;
    c.num_paths = 5;
    let plan = plan_simulation(&c).unwrap();
    match plan {
        SimulationPlan::AntitheticGbm { pair_seeds } => {
            assert_eq!(pair_seeds, vec![42, 43]);
        }
        _ => panic!("expected the antithetic plan"),
    }
}

#[test]
fn test_plan_simulation_bootstrap() {
    let mut c = gbm_config();
    c.model = SimulationModel::Bootstrap {
        historical_returns: vec![0.01f64.to_bits(), (-0.02f64).to_bits()],
    };
    c.seed = None;
    let plan = plan_simulation(&c).unwrap();
    match plan {
        SimulationPlan::Bootstrap { index_paths } => {
            assert_eq!(index_paths.len(), 10);
            for (i, p) in index_paths.iter().enumerate() {
                assert_eq!(p.len(), 5);
                assert_eq!(*p, bootstrap_indices(2, 5, DEFAULT_SEED + i as u64));
            }
        }
        _ => panic!("expected the bootstrap plan"),
    }
}

#[test]
fn test_plan_simulation_rejects_invalid() {
    let mut c = gbm_config();
    c.dt = (-1.0f64).to_bits();
    assert!(matches!(
        plan_simulation(&c),
        Err(ConfigError::NonPositiveDt)
    ));
}

#[test]
fn test_path_structure() {
    let mut p = Path::new(100.0f64.to_bits());
    assert_eq!(p.len(), 1);
    assert_eq!(p.price_at(0), 100.0f64.to_bits());
    p.push_price(101.5f64.to_bits());
    p.push_price(99.25f64.to_bits());
    assert_eq!(p.len(), 3);
    assert_eq!(p.price_at(0), 100.0f64.to_bits());
    assert_eq!(p.price_at(1), 101.5f64.to_bits());
    assert_eq!(p.terminal(), 99.25f64.to_bits());
    assert_eq!(p.prices().len(), 3);
}

#[test]
fn test_interleave_pairs_order() {
    let mut a0 = Path::new(1.0f64.to_bits());
    a0.push_price(2.0f64.to_bits());
    let b0 = Path::new(3.0f64.to_bits());
    let a1 = Path::new(5.0f64.to_bits());
    let b1 = Path::new(7.0f64.to_bits());
    let out = interleave_pairs(vec![(a0, b0), (a1, b1)]);
    assert_eq!(out.len(), 4);
    assert_eq!(out[0].price_at(0), 1.0f64.to_bits());
    assert_eq!(out[0].terminal(), 2.0f64.to_bits());
    assert_eq!(out[1].price_at(0), 3.0f64.to_bits());
    assert_eq!(out[2].price_at(0), 5.0f64.to_bits());
    assert_eq!(out[3].price_at(0), 7.0f64.to_bits());
}

#[test]
fn test_check_result_shape() {
    let initial = 100.0f64.to_bits();
    let mut a = Path::new(initial);
    a.push_price(101.0f64.to_bits());
    a.push_price(99.0f64.to_bits());
    let mut b = Path::new(initial);
    b.push_price(102.0f64.to_bits());
    b.push_price(98.0f64.to_bits());
    let paths = vec![a, b];
    assert!(check_result_shape(&paths, initial, 2, 2));
    assert!(!check_result_shape(&paths, initial, 3, 2));
    assert!(!check_result_shape(&paths, initial, 2, 3));
    assert!(!check_result_shape(&paths, 99.0f64.to_bits(), 2, 2));
}

#[test]
fn test_path_all_positive() {
    let mut p = Path::new(100.0f64.to_bits());
    p.push_price(0.5f64.to_bits());
    p.push_price(5e-324f64.to_bits());
    assert!(p.all_positive());
    p.push_price(0.0f64.to_bits());
    assert!(!p.all_positive());
    let mut q = Path::new(1.0f64.to_bits());
    q.push_price((-2.0f64).to_bits());
    assert!(!q.all_positive());
    let mut r = Path::new(1.0f64.to_bits());
    r.push_price(f64::NAN.to_bits());
    assert!(!r.all_positive());
}

#[test]
fn test_terminal_prices() {
    let mut a = Path::new(1.0f64.to_bits());
    a.push_price(4.5f64.to_bits());
    let b = Path::new(2.0f64.to_bits());
    let finals = terminal_prices(&vec![a, b]);
    assert_eq!(finals, vec![4.5f64.to_bits(), 2.0f64.to_bits()]);
}
