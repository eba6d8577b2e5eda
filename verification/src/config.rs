//! The parameters of a run, checked once before any sampling.

use vstd::prelude::*;
use vstd::arithmetic::div_mod::lemma_fundamental_div_mod;
use crate::error::ConfigError;
use crate::grid::{grid_for, PixelGrid, SamplingRegion};
use crate::palette::Palette;

verus! {

/// Everything a run depends on.
#[derive(Clone, Copy, Debug, PartialEq, Eq)]
pub struct Config {
    /// Where candidates are drawn, and what the image shows.
    pub region: SamplingRegion,
    /// Pixels per unit.
    pub resolution: u32,
    /// The pixel grid over `region` at `resolution`.
    pub grid: PixelGrid,
    /// Candidates of the whole run, split evenly between the workers.
    pub n_traces: u64,
    /// Number of workers.
    pub n_threads: u32,
    /// Steps the oracle takes before it accepts a candidate.
    pub escape_threshold: usize,
    /// Squared radius beyond which the sampler drops a trajectory.
    pub escape_radius_sq: u32,
    /// Most steps of a trajectory that are recorded.
    pub trace_length: usize,
    /// Which iterations count for which colour channel.
    pub palette: Palette,
    /// Whether each hit is also recorded in the vertically mirrored cell.
    pub mirror: bool,
}

/// Most increments that `n_traces` candidates can cause, each with at most
/// `trace_length` recorded points, mirrored or not.
pub open spec fn budget(trace_length: int, n_traces: int) -> int {
    2 * trace_length * n_traces
}

/// The configuration with these parameters, or the first thing wrong with
/// them.
pub open spec fn checked(
    region: SamplingRegion,
    resolution: u32,
    n_traces: u64,
    n_threads: u32,
    escape_threshold: usize,
    escape_radius_sq: u32,
    trace_length: usize,
    palette: Palette,
    mirror: bool,
) -> Result<Config, ConfigError> {
    if !region.valid() {
        Err(ConfigError::InvertedBounds)
    } else {
        match grid_for(region, resolution as int) {
            Err(e) => Err(e),
            Ok(grid) => if n_threads == 0 {
                Err(ConfigError::ZeroThreads)
            } else if escape_threshold == 0 {
                Err(ConfigError::ZeroEscapeThreshold)
            } else if escape_radius_sq == 0 {
                Err(ConfigError::ZeroEscapeRadius)
            } else if trace_length == 0 {
                Err(ConfigError::ZeroTraceLength)
            } else if budget(trace_length as int, n_traces as int) > u64::MAX {
                Err(ConfigError::BudgetTooLarge)
            } else {
                Ok(
                    Config {
                        region,
                        resolution,
                        grid,
                        n_traces,
                        n_threads,
                        escape_threshold,
                        escape_radius_sq,
                        trace_length,
                        palette,
                        mirror,
                    },
                )
            },
        }
    }
}

impl Config {
    /// What [`Config::new`] has checked.
    pub open spec fn valid(&self) -> bool {
        &&& self.region.valid()
        &&& self.grid.valid()
        &&& grid_for(self.region, self.resolution as int) == Ok::<PixelGrid, ConfigError>(
            self.grid,
        )
        &&& self.n_threads > 0
        &&& self.escape_threshold > 0
        &&& self.escape_radius_sq > 0
        &&& self.trace_length > 0
        &&& budget(self.trace_length as int, self.n_traces as int) <= u64::MAX
    }

    /// Most increments that one candidate can cause.
    pub open spec fn trace_budget(&self) -> int {
        2 * self.trace_length
    }

    /// The number of candidates of worker `worker` when the `n_traces`
    /// candidates are split evenly between the `n_threads` workers: every
    /// worker gets the whole part of the quotient, and the first workers one
    /// more each until the remainder is used up.
    pub open spec fn share(&self, worker: int) -> int {
        let whole = (self.n_traces as int) / (self.n_threads as int);
        let rest = (self.n_traces as int) % (self.n_threads as int);
        if worker < rest {
            whole + 1
        } else {
            whole
        }
    }

    /// The candidates of the workers before worker `k`, together.
    pub open spec fn shares_before(&self, k: nat) -> int
        decreases k,
    {
        if k == 0 {
            0
        } else {
            self.shares_before((k - 1) as nat) + self.share(k - 1)
        }
    }

    /// The shares of all workers are the candidates of the run, and none is
    /// more than that.
    pub proof fn lemma_shares_cover(&self)
        requires
            self.n_threads > 0,
        ensures
            self.shares_before(self.n_threads as nat) == self.n_traces,
            forall|k: int| 0 <= k < self.n_threads ==> 0 <= #[trigger] self.share(k) <= self.n_traces,
    {
        let n = self.n_traces as int;
        let d = self.n_threads as int;
        lemma_fundamental_div_mod(n, d);
        self.lemma_shares_upto(self.n_threads as nat);
        assert(d * (n / d) + n % d == n);
        assert((n / d) * d == d * (n / d)) by (nonlinear_arith);
        lemma_quotient_bounds(n, d);
    }

    /// The first `k` workers have `k` times the quotient, and one more for
    /// each of them that the remainder reaches.
    proof fn lemma_shares_upto(&self, k: nat)
        requires
            self.n_threads > 0,
        ensures
            self.shares_before(k) == k * ((self.n_traces as int) / (self.n_threads as int)) + if k
                < (self.n_traces as int) % (self.n_threads as int) {
                k as int
            } else {
                (self.n_traces as int) % (self.n_threads as int)
            },
        decreases k,
    {
        let q = (self.n_traces as int) / (self.n_threads as int);
        if k > 0 {
            self.lemma_shares_upto((k - 1) as nat);
            assert(k * q == (k - 1) * q + q) by (nonlinear_arith);
        } else {
            assert(0 * q == 0);
            lemma_fundamental_div_mod(self.n_traces as int, self.n_threads as int);
        }
    }

    /// The number of candidates of worker `worker`.
    pub fn share_of(&self, worker: u32) -> (n: u64)
        requires
            self.n_threads > 0,
        ensures
            n == self.share(worker as int),
            n <= self.n_traces,
    {
        let threads: u64 = self.n_threads as u64;
        let whole: u64 = self.n_traces / threads;
        let rest: u64 = self.n_traces % threads;
        proof {
            lemma_quotient_bounds(self.n_traces as int, self.n_threads as int);
        }
        if (worker as u64) < rest {
            whole + 1
        } else {
            whole
        }
    }

    /// Checks the parameters of a run and derives the pixel grid.
    pub fn new(
        region: SamplingRegion,
        resolution: u32,
        n_traces: u64,
        n_threads: u32,
        escape_threshold: usize,
        escape_radius_sq: u32,
        trace_length: usize,
        palette: Palette,
        mirror: bool,
    ) -> (out: Result<Config, ConfigError>)
        ensures
            out == checked(
                region,
                resolution,
                n_traces,
                n_threads,
                escape_threshold,
                escape_radius_sq,
                trace_length,
                palette,
                mirror,
            ),
            out matches Ok(cfg) ==> cfg.valid(),
    {
        if !(region.lowx < region.highx && region.lowy < region.highy) {
            return Err(ConfigError::InvertedBounds);
        }
        let grid = match PixelGrid::for_region(&region, resolution) {
            Ok(grid) => grid,
            Err(e) => {
                return Err(e);
            },
        };
        if n_threads == 0 {
            return Err(ConfigError::ZeroThreads);
        }
        if escape_threshold == 0 {
            return Err(ConfigError::ZeroEscapeThreshold);
        }
        if escape_radius_sq == 0 {
            return Err(ConfigError::ZeroEscapeRadius);
        }
        if trace_length == 0 {
            return Err(ConfigError::ZeroTraceLength);
        }
        if !fits_budget(trace_length, n_traces) {
            return Err(ConfigError::BudgetTooLarge);
        }
        Ok(
            Config {
                region,
                resolution,
                grid,
                n_traces,
                n_threads,
                escape_threshold,
                escape_radius_sq,
                trace_length,
                palette,
                mirror,
            },
        )
    }
}

/// The quotient of a count by a positive number of parts is not negative,
/// and with one more, where there is a remainder, still at most the count.
proof fn lemma_quotient_bounds(n: int, d: int)
    requires
        n >= 0,
        d >= 1,
    ensures
        0 <= n / d <= n,
        n % d > 0 ==> n / d + 1 <= n,
{
    lemma_fundamental_div_mod(n, d);
    assert(0 <= n / d <= n && (n % d > 0 ==> n / d + 1 <= n)) by (nonlinear_arith)
        requires
            n == d * (n / d) + n % d,
            0 <= n % d < d,
            d >= 1,
            n >= 0,
    {
        if n / d < 0 {
            assert(d * (n / d) <= -d);
        }
        if n / d >= 1 {
            assert(d * (n / d) >= n / d);
        }
    }
}

/// Whether the increments of a whole run fit a 64-bit counter.
fn fits_budget(trace_length: usize, n_traces: u64) -> (fits: bool)
    ensures
        fits == (budget(trace_length as int, n_traces as int) <= u64::MAX),
{
    let limit: u128 = u64::MAX as u128;
    if n_traces == 0 {
        assert(budget(trace_length as int, 0) == 0) by (nonlinear_arith);
        return true;
    }
    let per_trace: u128 = 2 * (trace_length as u128);
    if per_trace > limit {
        assert(budget(trace_length as int, n_traces as int) >= per_trace) by (nonlinear_arith)
            requires
                per_trace == 2 * trace_length,
                n_traces >= 1,
                trace_length >= 0,
        ;
        return false;
    }
    assert(per_trace * n_traces <= 0xffff_ffff_ffff_ffff * 0xffff_ffff_ffff_ffff)
        by (nonlinear_arith)
        requires
            0 <= per_trace <= 0xffff_ffff_ffff_ffff,
            0 <= n_traces <= 0xffff_ffff_ffff_ffff,
    ;
    let all: u128 = per_trace * (n_traces as u128);
    all <= limit
}

} // verus!
