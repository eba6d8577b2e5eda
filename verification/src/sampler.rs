//! The trajectory sampler: candidates are drawn at random, those that the
//! oracle takes to be in the set are dropped, and the trajectory of every
//! other one is walked and handed to the histogram.

use vstd::prelude::*;
use rand::distributions::Distribution;
use rand::rngs::SmallRng;
use crate::config::Config;
use crate::grid::{cell_of, SamplingRegion};
use crate::histogram::{
    deposit, lemma_deposit_shape, lemma_slot_in_range, mass, slots, zeros, Histogram,
};
use crate::palette::channel_of;
use crate::oracle::{in_mandel, is_in_mandel};
use crate::point::{
    escaped, exceeds, iterate, lemma_iterate_representable, lemma_orbit_start, mandelbrot_iter,
    orbit, origin, Point, SpecPoint,
};

verus! {

/// `rand::rngs::SmallRng`, the random source of a worker. Contracts see
/// nothing inside it: it is only handed on to the draw.
#[verifier::external_type_specification]
#[verifier::external_body]
pub struct ExSmallRng(SmallRng);

/// How many of the points `z_1, z_2, ...` of the trajectory of `c` come
/// before the first one farther than the escape radius, counting no more than
/// `limit` of them.
pub open spec fn run_length(c: SpecPoint, radius_sq: int, limit: nat) -> nat
    decreases limit,
{
    if limit == 0 {
        0
    } else {
        let before = run_length(c, radius_sq, (limit - 1) as nat);
        if before == limit - 1 && !exceeds(orbit(c, limit), radius_sq) {
            limit
        } else {
            before
        }
    }
}

/// The first `n` points after the origin of the trajectory of `c`.
pub open spec fn orbit_prefix(c: SpecPoint, n: nat) -> Seq<SpecPoint> {
    Seq::new(n, |k: int| orbit(c, (k + 1) as nat))
}

/// The visited points of the trajectory of `c`: `z_1, z_2, ...` up to the
/// last one before the trajectory leaves the disc of squared radius
/// `radius_sq`, and `limit` points at most.
pub open spec fn trajectory(c: SpecPoint, radius_sq: int, limit: nat) -> Seq<SpecPoint> {
    orbit_prefix(c, run_length(c, radius_sq, limit))
}

/// The counters after the points `pts` have been handed in, in order, the
/// first at iteration 0.
pub open spec fn deposit_all(counts: Seq<nat>, cfg: Config, pts: Seq<SpecPoint>) -> Seq<nat>
    decreases pts.len(),
{
    if pts.len() == 0 {
        counts
    } else {
        deposit(
            deposit_all(counts, cfg, pts.drop_last()),
            cfg,
            pts.last(),
            (pts.len() - 1) as nat,
        )
    }
}

/// The counters after the candidate `c` has been dealt with: unchanged if the
/// oracle takes `c` to be in the set, and with the visited points of its
/// trajectory handed in otherwise.
pub open spec fn trace(counts: Seq<nat>, cfg: Config, c: SpecPoint) -> Seq<nat> {
    if in_mandel(c, cfg.escape_threshold as nat) {
        counts
    } else {
        deposit_all(
            counts,
            cfg,
            trajectory(c, cfg.escape_radius_sq as int, cfg.trace_length as nat),
        )
    }
}

/// The counters after the candidates `cs` have been dealt with, in order.
pub open spec fn trace_all(counts: Seq<nat>, cfg: Config, cs: Seq<SpecPoint>) -> Seq<nat>
    decreases cs.len(),
{
    if cs.len() == 0 {
        counts
    } else {
        trace(trace_all(counts, cfg, cs.drop_last()), cfg, cs.last())
    }
}

/// Whether `cs` are `n` points of `region`.
pub open spec fn drawn_from(cs: Seq<SpecPoint>, region: SamplingRegion, n: nat) -> bool {
    &&& cs.len() == n
    &&& forall|k: int| 0 <= k < cs.len() ==> region.contains(#[trigger] cs[k])
}

/// Whether `counts` is what a worker leaves that has drawn the `n` candidates
/// `cs`.
pub open spec fn worker_outcome(counts: Seq<nat>, cfg: Config, n: nat, cs: Seq<SpecPoint>) -> bool {
    &&& drawn_from(cs, cfg.region, n)
    &&& counts == trace_all(zeros(slots(cfg.grid)), cfg, cs)
}

/// What [`run_length`] counts: it is at most `limit`, the points it counts
/// are within the radius, and unless it reaches `limit` the next point is not.
pub proof fn lemma_run_length(c: SpecPoint, radius_sq: int, limit: nat)
    ensures
        run_length(c, radius_sq, limit) <= limit,
        forall|k: nat|
            1 <= k <= run_length(c, radius_sq, limit) ==> !exceeds(
                #[trigger] orbit(c, k),
                radius_sq,
            ),
        run_length(c, radius_sq, limit) < limit ==> exceeds(
            orbit(c, run_length(c, radius_sq, limit) + 1),
            radius_sq,
        ),
    decreases limit,
{
    if limit > 0 {
        lemma_run_length(c, radius_sq, (limit - 1) as nat);
    }
}

/// Once a trajectory has left the disc, a greater limit counts no more points.
pub proof fn lemma_run_length_stops(c: SpecPoint, radius_sq: int, n: nat, limit: nat)
    requires
        run_length(c, radius_sq, n) == n,
        exceeds(orbit(c, n + 1), radius_sq),
        n < limit,
    ensures
        run_length(c, radius_sq, limit) == n,
    decreases limit,
{
    if limit > n + 1 {
        lemma_run_length_stops(c, radius_sq, n, (limit - 1) as nat);
    }
}

/// Handing in points adds at most two hits per point and leaves every counter
/// in place.
pub proof fn lemma_deposit_all_shape(counts: Seq<nat>, cfg: Config, pts: Seq<SpecPoint>)
    requires
        cfg.valid(),
        counts.len() == slots(cfg.grid),
    ensures
        deposit_all(counts, cfg, pts).len() == counts.len(),
        mass(counts) <= mass(deposit_all(counts, cfg, pts)) <= mass(counts) + 2 * pts.len(),
    decreases pts.len(),
{
    if pts.len() > 0 {
        lemma_deposit_all_shape(counts, cfg, pts.drop_last());
        lemma_deposit_shape(
            deposit_all(counts, cfg, pts.drop_last()),
            cfg,
            pts.last(),
            (pts.len() - 1) as nat,
        );
    }
}

/// A candidate adds at most two hits per step of its trajectory and leaves
/// every counter in place.
pub proof fn lemma_trace_shape(counts: Seq<nat>, cfg: Config, c: SpecPoint)
    requires
        cfg.valid(),
        counts.len() == slots(cfg.grid),
    ensures
        trace(counts, cfg, c).len() == counts.len(),
        mass(counts) <= mass(trace(counts, cfg, c)) <= mass(counts) + cfg.trace_budget(),
{
    let pts = trajectory(c, cfg.escape_radius_sq as int, cfg.trace_length as nat);
    lemma_run_length(c, cfg.escape_radius_sq as int, cfg.trace_length as nat);
    lemma_deposit_all_shape(counts, cfg, pts);
}

/// No counter ever goes down: not when a point is handed in, not when a
/// candidate is traced, not over a whole run of candidates.
pub proof fn lemma_counters_never_decrease(
    counts: Seq<nat>,
    cfg: Config,
    cs: Seq<SpecPoint>,
    i: int,
)
    requires
        cfg.valid(),
        counts.len() == slots(cfg.grid),
        0 <= i < counts.len(),
    ensures
        trace_all(counts, cfg, cs).len() == counts.len(),
        counts[i] <= trace_all(counts, cfg, cs)[i],
    decreases cs.len(),
{
    if cs.len() > 0 {
        lemma_counters_never_decrease(counts, cfg, cs.drop_last(), i);
        let before = trace_all(counts, cfg, cs.drop_last());
        lemma_trace_never_decreases(before, cfg, cs.last(), i);
    }
}

/// No counter goes down when a candidate is traced.
pub proof fn lemma_trace_never_decreases(counts: Seq<nat>, cfg: Config, c: SpecPoint, i: int)
    requires
        cfg.valid(),
        counts.len() == slots(cfg.grid),
        0 <= i < counts.len(),
    ensures
        trace(counts, cfg, c).len() == counts.len(),
        counts[i] <= trace(counts, cfg, c)[i],
{
    lemma_deposit_all_never_decreases(
        counts,
        cfg,
        trajectory(c, cfg.escape_radius_sq as int, cfg.trace_length as nat),
        i,
    );
}

/// No counter goes down when points are handed in.
pub proof fn lemma_deposit_all_never_decreases(
    counts: Seq<nat>,
    cfg: Config,
    pts: Seq<SpecPoint>,
    i: int,
)
    requires
        cfg.valid(),
        counts.len() == slots(cfg.grid),
        0 <= i < counts.len(),
    ensures
        deposit_all(counts, cfg, pts).len() == counts.len(),
        counts[i] <= deposit_all(counts, cfg, pts)[i],
    decreases pts.len(),
{
    if pts.len() > 0 {
        lemma_deposit_all_never_decreases(counts, cfg, pts.drop_last(), i);
        let before = deposit_all(counts, cfg, pts.drop_last());
        lemma_deposit_shape(before, cfg, pts.last(), (pts.len() - 1) as nat);
        match cell_of(cfg.region, cfg.grid, pts.last()) {
            None => {},
            Some((x, y)) => {
                let ch = channel_of((pts.len() - 1) as nat, cfg.palette) as int;
                lemma_slot_in_range(cfg.grid, x as int, y as int, ch);
                lemma_slot_in_range(cfg.grid, x as int, cfg.grid.height - 1 - y, ch);
            },
        }
    }
}

/// Deals with the candidate `c`: nothing is recorded if the oracle takes it
/// to be in the set; otherwise its trajectory is walked from the origin and
/// each point is handed to the histogram with the index of its step, until a
/// point lies beyond the escape radius or `trace_length` points are recorded.
///
/// The histogram must have room for the hits of a whole trajectory.
pub fn trace_candidate(hist: &mut Histogram, cfg: &Config, c: Point)
    requires
        old(hist).wf(),
        cfg.valid(),
        old(hist).spec_grid() == cfg.grid,
        old(hist).spec_total() + cfg.trace_budget() <= u64::MAX,
    ensures
        final(hist).wf(),
        final(hist).spec_grid() == old(hist).spec_grid(),
        final(hist)@ == trace(old(hist)@, *cfg, c@),
{
    if is_in_mandel(c, cfg.escape_threshold) {
        return;
    }
    let radius_sq: u32 = cfg.escape_radius_sq;
    let limit: usize = cfg.trace_length;
    let mut z = Point { re: 0, im: 0 };
    let mut i: usize = 0;
    let mut inside: bool = true;
    proof {
        lemma_orbit_start(c@);
        assert(orbit_prefix(c@, 0) =~= Seq::<SpecPoint>::empty());
    }
    while inside && i < limit
        invariant
            i <= limit,
            limit == cfg.trace_length,
            radius_sq == cfg.escape_radius_sq,
            cfg.valid(),
            orbit(c@, 0) == origin(),
            orbit(c@, 1) == c@,
            inside ==> z@ == orbit(c@, i as nat),
            inside ==> run_length(c@, radius_sq as int, i as nat) == i,
            !inside ==> run_length(c@, radius_sq as int, limit as nat) == i,
            hist.wf(),
            hist.spec_grid() == cfg.grid,
            hist.spec_grid() == old(hist).spec_grid(),
            hist@ == deposit_all(old(hist)@, *cfg, orbit_prefix(c@, i as nat)),
            hist.spec_total() <= old(hist).spec_total() + 2 * i,
            old(hist).spec_total() + 2 * limit <= u64::MAX,
        decreases limit - i + if inside { 1int } else { 0int },
    {
        proof {
            lemma_run_length(c@, radius_sq as int, i as nat);
            if i == 0 {
                assert(iterate(origin(), c@) == c@);
            } else {
                assert(!exceeds(orbit(c@, i as nat), radius_sq as int));
                assert(!exceeds(orbit(c@, 1), radius_sq as int));
                lemma_iterate_representable(z@, c@, radius_sq as int);
            }
        }
        let next = mandelbrot_iter(z, c);
        assert(next@ == orbit(c@, (i + 1) as nat));
        if escaped(next, radius_sq) {
            proof {
                lemma_run_length_stops(c@, radius_sq as int, i as nat, limit as nat);
            }
            inside = false;
        } else {
            proof {
                let before = orbit_prefix(c@, i as nat);
                let after = orbit_prefix(c@, (i + 1) as nat);
                assert(after.drop_last() =~= before);
                assert(after.last() == next@);
                lemma_deposit_shape(hist@, *cfg, next@, i as nat);
            }
            hist.deposit(cfg, next, i);
            z = next;
            i = i + 1;
        }
    }
}

/// One candidate, drawn uniformly from `region` by `rand`'s `Uniform`
/// distributions over the raw coordinates of each axis, paired by
/// `num_complex::ComplexDistribution`. `Uniform::new(low, high)` samples the
/// half-open range `[low, high)` and needs `low < high`.
#[verifier::external_body]
fn draw(rng: &mut SmallRng, region: &SamplingRegion) -> (c: Point)
    requires
        region.valid(),
    ensures
        region.contains(c@),
{
    let re = rand_distr::Uniform::new(region.lowx, region.highx);
    let im = rand_distr::Uniform::new(region.lowy, region.highy);
    let c: num_complex::Complex<i64> = num_complex::ComplexDistribution::new(re, im).sample(rng);
    Point { re: c.re, im: c.im }
}

/// The work of one worker: a histogram of its own, at zero, into which
/// `n` candidates drawn from the sampling rectangle are traced. `n` is the
/// worker's share of the candidates of the run.
///
/// Whatever the random source yields, the result is the histogram of some `n`
/// points of the rectangle, traced in order.
pub fn run_worker(rng: &mut SmallRng, cfg: &Config, n: u64) -> (hist: Histogram)
    requires
        cfg.valid(),
        n <= cfg.n_traces,
    ensures
        hist.wf(),
        hist.spec_grid() == cfg.grid,
        hist.spec_total() <= 2 * cfg.trace_length * n,
        exists|cs: Seq<SpecPoint>| #[trigger] worker_outcome(hist@, *cfg, n as nat, cs),
{
    let mut hist = Histogram::new(cfg.grid);
    let ghost mut drawn: Seq<SpecPoint> = Seq::empty();
    let mut done: u64 = 0;
    proof {
        assert(2 * cfg.trace_length * n <= 2 * cfg.trace_length * cfg.n_traces)
            by (nonlinear_arith)
            requires
                n <= cfg.n_traces,
                cfg.trace_length >= 0,
        ;
    }
    while done < n
        invariant
            done <= n,
            cfg.valid(),
            2 * cfg.trace_length * n <= u64::MAX,
            hist.wf(),
            hist.spec_grid() == cfg.grid,
            drawn_from(drawn, cfg.region, done as nat),
            hist@ == trace_all(zeros(slots(cfg.grid)), *cfg, drawn),
            hist.spec_total() <= 2 * cfg.trace_length * done,
        decreases n - done,
    {
        let c = draw(rng, &cfg.region);
        proof {
            assert(2 * cfg.trace_length * done + 2 * cfg.trace_length == 2 * cfg.trace_length
                * (done + 1) && 2 * cfg.trace_length * (done + 1) <= 2 * cfg.trace_length * n)
                by (nonlinear_arith)
                requires
                    done < n,
                    cfg.trace_length >= 0,
            ;
            lemma_trace_shape(hist@, *cfg, c@);
            assert(drawn.push(c@).drop_last() =~= drawn);
        }
        trace_candidate(&mut hist, cfg, c);
        proof {
            drawn = drawn.push(c@);
        }
        done = done + 1;
    }
    assert(worker_outcome(hist@, *cfg, n as nat, drawn));
    hist
}

} // verus!
