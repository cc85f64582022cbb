//! Configuration, validation, and the reproducible-parallelism plan.
//!
//! The dispatcher's decisions — which generator variant runs, which seed
//! each unit of work gets, which historical index each bootstrap step
//! samples — are all here, exact and verified.  What remains outside the
//! crate is only the binary64 arithmetic that turns a seed or an index
//! into prices.
//!
//! The load-bearing reproducibility invariant is the index-to-seed map:
//! in a batch with base seed `B`, path `i` (or antithetic pair `k`) is
//! seeded with `B + i` (`B + k`), so results never depend on scheduling
//! order.
use vstd::prelude::*;

use crate::fbits;
use crate::path::Path;
use crate::rng;

verus! {

/// The seed used when the configuration supplies none.
pub const DEFAULT_SEED: u64 = 42;

/// The stochastic model a simulation runs under.
pub enum SimulationModel {
    /// Geometric Brownian Motion with drift `mu` and volatility `sigma`,
    /// both binary64 bit patterns.
    GBM { mu: u64, sigma: u64 },
    /// Resampling of historical log-returns, as binary64 bit patterns,
    /// with replacement.
    Bootstrap { historical_returns: Vec<u64> },
}

/// A full simulation request.  Binary64 fields hold bit patterns.
pub struct SimulationConfig {
    pub initial_price: u64,
    pub horizon_days: usize,
    pub num_paths: usize,
    pub dt: u64,
    pub model: SimulationModel,
    pub use_antithetic: bool,
    pub seed: Option<u64>,
}

/// The simulated paths together with how long generation took.
pub struct SimulationResult {
    pub paths: Vec<Path>,
    pub execution_time_ms: u128,
}

/// Why a configuration was rejected before any generation ran.
#[derive(Clone, Copy, Debug, PartialEq, Eq, Structural)]
pub enum ConfigError {
    NonPositiveInitialPrice,
    NonPositiveDt,
    EmptyHistoricalReturns,
}

/// The configuration is acceptable: positive initial price and time step,
/// and a non-empty historical sample when the model resamples it.
pub open spec fn config_valid(c: SimulationConfig) -> bool {
    &&& fbits::is_gt_zero(c.initial_price)
    &&& fbits::is_gt_zero(c.dt)
    &&& match c.model {
        SimulationModel::Bootstrap { historical_returns } => historical_returns@.len() >= 1,
        SimulationModel::GBM { .. } => true,
    }
}

/// The error an invalid configuration is rejected with: the checks run in
/// the order initial price, time step, historical sample.
pub open spec fn first_config_error(c: SimulationConfig) -> ConfigError {
    if !fbits::is_gt_zero(c.initial_price) {
        ConfigError::NonPositiveInitialPrice
    } else if !fbits::is_gt_zero(c.dt) {
        ConfigError::NonPositiveDt
    } else {
        ConfigError::EmptyHistoricalReturns
    }
}

/// The seed a run resolves to: the configured one, or the default.
pub open spec fn spec_resolve_seed(seed: Option<u64>) -> u64 {
    match seed {
        Some(s) => s,
        None => DEFAULT_SEED,
    }
}

/// Every per-path seed `base + i` fits in a `u64`.
pub open spec fn seeds_fit(c: SimulationConfig) -> bool {
    c.num_paths == 0 || spec_resolve_seed(c.seed) + c.num_paths - 1 <= u64::MAX
}

/// Rejects a configuration exactly as the dispatcher does: `Ok` if and
/// only if the configuration is valid, and otherwise the first failing
/// check's error.
pub fn validate_config(c: &SimulationConfig) -> (r: Result<(), ConfigError>)
    ensures
        r == (if config_valid(*c) {
            Ok::<(), ConfigError>(())
        } else {
            Err::<(), ConfigError>(first_config_error(*c))
        }),
{
    if !fbits::f64_bits_gt_zero(c.initial_price) {
        Err(ConfigError::NonPositiveInitialPrice)
    } else if !fbits::f64_bits_gt_zero(c.dt) {
        Err(ConfigError::NonPositiveDt)
    } else {
        match &c.model {
            SimulationModel::Bootstrap { historical_returns } => {
                if historical_returns.len() == 0 {
                    Err(ConfigError::EmptyHistoricalReturns)
                } else {
                    Ok(())
                }
            },
            SimulationModel::GBM { .. } => Ok(()),
        }
    }
}

/// Resolves the seed of a run: the configured seed if present, else the
/// documented default.
pub fn resolve_seed(seed: &Option<u64>) -> (r: u64)
    ensures
        r == spec_resolve_seed(*seed),
{
    match seed {
        Some(s) => *s,
        None => DEFAULT_SEED,
    }
}

/// The seed schedule of an independent batch: unit `i` of `count` gets
/// seed `base_seed + i`, whatever order the units later run in.
pub fn seed_schedule(count: usize, base_seed: u64) -> (r: Vec<u64>)
    requires
        count == 0 || base_seed + count - 1 <= u64::MAX,
    ensures
        r@.len() == count,
        forall|i: int| 0 <= i < count ==> r@[i] == base_seed + i,
{
    let mut out: Vec<u64> = Vec::new();
    let mut i: usize = 0;
    while i < count
        invariant
            i <= count,
            count == 0 || base_seed + count - 1 <= u64::MAX,
            out@.len() == i,
            forall|j: int| 0 <= j < i ==> out@[j] == base_seed + j,
        decreases count - i,
    {
        out.push(base_seed + (i as u64));
        i = i + 1;
    }
    out
}

/// The per-step historical indices of one bootstrap path: `days` draws,
/// sampled with replacement from `[0, n_returns)` by a generator seeded
/// once with `seed`.  Each index is in range whatever the generator drew.
pub fn bootstrap_indices(n_returns: usize, days: usize, seed: u64) -> (r: Vec<usize>)
    requires
        n_returns >= 1,
    ensures
        r@.len() == days,
        forall|j: int| 0 <= j < days ==> r@[j] < n_returns,
{
    let mut generator = rng::rng_from_seed(seed);
    let mut out: Vec<usize> = Vec::new();
    let mut d: usize = 0;
    while d < days
        invariant
            n_returns >= 1,
            d <= days,
            out@.len() == d,
            forall|j: int| 0 <= j < d ==> out@[j] < n_returns,
        decreases days - d,
    {
        let idx = rng::gen_index(&mut generator, n_returns);
        out.push(idx);
        d = d + 1;
    }
    out
}

/// The index draws of a whole bootstrap batch: path `i` is drawn by a
/// generator seeded with `base_seed + i`.
pub fn bootstrap_index_paths(n_returns: usize, days: usize, num_paths: usize, base_seed: u64) -> (r:
    Vec<Vec<usize>>)
    requires
        n_returns >= 1,
        num_paths == 0 || base_seed + num_paths - 1 <= u64::MAX,
    ensures
        r@.len() == num_paths,
        forall|i: int|
            0 <= i < num_paths ==> (#[trigger] r@[i])@.len() == days && forall|j: int|
                0 <= j < days ==> r@[i]@[j] < n_returns,
{
    let mut out: Vec<Vec<usize>> = Vec::new();
    let mut i: usize = 0;
    while i < num_paths
        invariant
            n_returns >= 1,
            num_paths == 0 || base_seed + num_paths - 1 <= u64::MAX,
            i <= num_paths,
            out@.len() == i,
            forall|k: int|
                0 <= k < i ==> (#[trigger] out@[k])@.len() == days && forall|j: int|
                    0 <= j < days ==> out@[k]@[j] < n_returns,
        decreases num_paths - i,
    {
        let indices = bootstrap_indices(n_returns, days, base_seed + (i as u64));
        out.push(indices);
        i = i + 1;
    }
    out
}

/// The shape every batch of generated paths owes: the expected count,
/// and each path of length `horizon_days + 1` starting exactly at the
/// initial price.
pub open spec fn result_shape(
    paths: Seq<Path>,
    initial_price: u64,
    horizon_days: nat,
    expected_paths: nat,
) -> bool {
    &&& paths.len() == expected_paths
    &&& forall|i: int|
        0 <= i < paths.len() ==> (#[trigger] paths[i])@.len() == horizon_days + 1 && paths[i]@[0]
            == initial_price
}

/// Checks a batch of paths against the shape it owes.  The expected
/// count is the requested one, except under antithetic pairing, where it
/// is twice the pair count.
pub fn check_result_shape(
    paths: &Vec<Path>,
    initial_price: u64,
    horizon_days: usize,
    expected_paths: usize,
) -> (r: bool)
    requires
        horizon_days < usize::MAX,
    ensures
        r == result_shape(paths@, initial_price, horizon_days as nat, expected_paths as nat),
{
    if paths.len() != expected_paths {
        return false;
    }
    let mut i: usize = 0;
    while i < paths.len()
        invariant
            i <= paths@.len(),
            horizon_days + 1 <= usize::MAX,
            forall|j: int|
                0 <= j < i ==> (#[trigger] paths@[j])@.len() == horizon_days + 1 && paths@[j]@[0]
                    == initial_price,
        decreases paths@.len() - i,
    {
        let p = &paths[i];
        if p.len() != horizon_days + 1 {
            return false;
        }
        if p.price_at(0) != initial_price {
            return false;
        }
        i = i + 1;
    }
    true
}

/// How a validated configuration is executed: the generator variant and
/// the exact per-unit randomness schedule.
pub enum SimulationPlan {
    /// Plain GBM: path `i` runs with `path_seeds[i]`.
    Gbm { path_seeds: Vec<u64> },
    /// Antithetic GBM: pair `k` runs with `pair_seeds[k]` and yields the
    /// paths at positions `2k` and `2k + 1`; an odd requested count drops
    /// the final unpaired path.
    AntitheticGbm { pair_seeds: Vec<u64> },
    /// Bootstrap: path `i` multiplies in the historical returns selected
    /// by `index_paths[i]`, one per day.
    Bootstrap { index_paths: Vec<Vec<usize>> },
}

/// The plan a configuration resolves to, with `base` its resolved seed.
pub open spec fn plan_matches(c: SimulationConfig, p: SimulationPlan) -> bool {
    let base = spec_resolve_seed(c.seed);
    match c.model {
        SimulationModel::GBM { .. } => {
            if c.use_antithetic {
                match p {
                    SimulationPlan::AntitheticGbm { pair_seeds } => {
                        &&& pair_seeds@.len() == c.num_paths / 2
                        &&& forall|k: int|
                            0 <= k < pair_seeds@.len() ==> pair_seeds@[k] == base + k
                    },
                    _ => false,
                }
            } else {
                match p {
                    SimulationPlan::Gbm { path_seeds } => {
                        &&& path_seeds@.len() == c.num_paths
                        &&& forall|i: int|
                            0 <= i < path_seeds@.len() ==> path_seeds@[i] == base + i
                    },
                    _ => false,
                }
            }
        },
        SimulationModel::Bootstrap { historical_returns } => {
            match p {
                SimulationPlan::Bootstrap { index_paths } => {
                    &&& index_paths@.len() == c.num_paths
                    &&& forall|i: int|
                        0 <= i < index_paths@.len() ==> (#[trigger] index_paths@[i])@.len()
                            == c.horizon_days && forall|j: int|
                            0 <= j < c.horizon_days ==> index_paths@[i]@[j]
                                < historical_returns@.len()
                },
                _ => false,
            }
        },
    }
}

/// Validates a configuration and, when it is acceptable, lays out the
/// run: the variant to execute and the seed or index schedule of every
/// independent unit of work.  Rejection is exactly `validate_config`'s.
pub fn plan_simulation(config: &SimulationConfig) -> (r: Result<SimulationPlan, ConfigError>)
    requires
        seeds_fit(*config),
    ensures
        r is Ok <==> config_valid(*config),
        !config_valid(*config) ==> r == Err::<SimulationPlan, ConfigError>(
            first_config_error(*config),
        ),
        config_valid(*config) ==> plan_matches(*config, r->Ok_0),
{
    match validate_config(config) {
        Err(e) => Err(e),
        Ok(()) => {
            let base = resolve_seed(&config.seed);
            match &config.model {
                SimulationModel::GBM { .. } => {
                    if config.use_antithetic {
                        let half = config.num_paths / 2;
                        Ok(SimulationPlan::AntitheticGbm { pair_seeds: seed_schedule(half, base) })
                    } else {
                        Ok(SimulationPlan::Gbm {
                            path_seeds: seed_schedule(config.num_paths, base),
                        })
                    }
                },
                SimulationModel::Bootstrap { historical_returns } => {
                    Ok(SimulationPlan::Bootstrap {
                        index_paths: bootstrap_index_paths(
                            historical_returns.len(),
                            config.horizon_days,
                            config.num_paths,
                            base,
                        ),
                    })
                },
            }
        },
    }
}

} // verus!
