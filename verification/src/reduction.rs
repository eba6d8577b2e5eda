//! The reduction after the parallel phase: the histograms of all workers are
//! added up, counter by counter. The order does not matter, and the sum is the
//! histogram that a single worker would have left with all the candidates.

use vstd::prelude::*;
use crate::config::{budget, Config};
use crate::error::MergeError;
use crate::grid::{cell_of, PixelGrid};
use crate::histogram::{
    bump, deposit, lemma_mass_merged, lemma_mass_zeros, lemma_slot_in_range,
    lemma_slots_nonnegative, mass, merged, slot, slots, zeros, Histogram,
};
use crate::palette::channel_of;
use crate::point::SpecPoint;
use crate::sampler::{
    deposit_all, lemma_deposit_all_shape, lemma_trace_shape, trace_all, trajectory,
};

verus! {

/// The counters of each histogram.
pub open spec fn views(parts: Seq<Histogram>) -> Seq<Seq<nat>> {
    Seq::new(parts.len(), |k: int| parts[k]@)
}

/// Whether every histogram is over `grid`.
pub open spec fn all_over(parts: Seq<Histogram>, grid: PixelGrid) -> bool {
    forall|k: int| 0 <= k < parts.len() ==> (#[trigger] parts[k]).spec_grid() == grid
}

/// The sum of histograms of `n` counters each; `n` zeros if there is none.
pub open spec fn merged_all(n: int, parts: Seq<Seq<nat>>) -> Seq<nat>
    decreases parts.len(),
{
    if parts.len() == 0 {
        zeros(n)
    } else {
        merged(merged_all(n, parts.drop_last()), parts.last())
    }
}

/// The hits of all histograms together.
pub open spec fn total_hits(parts: Seq<Seq<nat>>) -> nat
    decreases parts.len(),
{
    if parts.len() == 0 {
        0
    } else {
        total_hits(parts.drop_last()) + mass(parts.last())
    }
}

/// The sum of the counters at position `j` of all histograms.
pub open spec fn column(parts: Seq<Seq<nat>>, j: int) -> nat
    decreases parts.len(),
{
    if parts.len() == 0 {
        0
    } else {
        column(parts.drop_last(), j) + parts.last()[j]
    }
}

/// The candidates of all shares, one share after the other.
pub open spec fn joined(shares: Seq<Seq<SpecPoint>>) -> Seq<SpecPoint>
    decreases shares.len(),
{
    if shares.len() == 0 {
        Seq::empty()
    } else {
        joined(shares.drop_last()) + shares.last()
    }
}

/// The histogram that each worker leaves, started at zero, for its share of
/// the candidates.
pub open spec fn partials(cfg: Config, shares: Seq<Seq<SpecPoint>>) -> Seq<Seq<nat>> {
    Seq::new(shares.len(), |k: int| trace_all(zeros(slots(cfg.grid)), cfg, shares[k]))
}

/// Merging is commutative.
pub proof fn lemma_merged_commutative(a: Seq<nat>, b: Seq<nat>)
    requires
        a.len() == b.len(),
    ensures
        merged(a, b) == merged(b, a),
{
    assert(merged(a, b) =~= merged(b, a));
}

/// Merging is associative.
pub proof fn lemma_merged_associative(a: Seq<nat>, b: Seq<nat>, c: Seq<nat>)
    requires
        a.len() == b.len(),
        b.len() == c.len(),
    ensures
        merged(merged(a, b), c) == merged(a, merged(b, c)),
{
    assert(merged(merged(a, b), c) =~= merged(a, merged(b, c)));
}

/// Merging with an empty histogram changes nothing.
pub proof fn lemma_merged_zeros(a: Seq<nat>)
    ensures
        merged(a, zeros(a.len() as int)) == a,
        merged(zeros(a.len() as int), a) == a,
{
    assert(merged(a, zeros(a.len() as int)) =~= a);
    assert(merged(zeros(a.len() as int), a) =~= a);
}

/// The sum of histograms has as many counters as each of them.
pub proof fn lemma_merged_all_len(n: int, parts: Seq<Seq<nat>>)
    requires
        n >= 0,
    ensures
        merged_all(n, parts).len() == n,
    decreases parts.len(),
{
    if parts.len() > 0 {
        lemma_merged_all_len(n, parts.drop_last());
    }
}

/// Each counter of the sum of histograms is the sum of their counters at
/// that position.
pub proof fn lemma_merged_all_cell(n: int, parts: Seq<Seq<nat>>, j: int)
    requires
        0 <= j < n,
        forall|k: int| 0 <= k < parts.len() ==> (#[trigger] parts[k]).len() == n,
    ensures
        merged_all(n, parts)[j] == column(parts, j),
    decreases parts.len(),
{
    if parts.len() > 0 {
        let rest = parts.drop_last();
        assert forall|k: int| 0 <= k < rest.len() implies (#[trigger] rest[k]).len() == n by {
            assert(rest[k] == parts[k]);
        }
        lemma_merged_all_cell(n, rest, j);
        lemma_merged_all_len(n, rest);
    }
}

/// The sum of histograms holds the hits of all of them.
pub proof fn lemma_merged_all_mass(n: int, parts: Seq<Seq<nat>>)
    requires
        n >= 0,
        forall|k: int| 0 <= k < parts.len() ==> (#[trigger] parts[k]).len() == n,
    ensures
        mass(merged_all(n, parts)) == total_hits(parts),
    decreases parts.len(),
{
    if parts.len() == 0 {
        lemma_mass_zeros(n);
    } else {
        let rest = parts.drop_last();
        assert forall|k: int| 0 <= k < rest.len() implies (#[trigger] rest[k]).len() == n by {
            assert(rest[k] == parts[k]);
        }
        lemma_merged_all_mass(n, rest);
        lemma_merged_all_len(n, rest);
        lemma_mass_merged(merged_all(n, rest), parts.last());
    }
}

/// The hits of the first histograms are among the hits of all.
proof fn lemma_total_hits_prefix(parts: Seq<Seq<nat>>, k: int)
    requires
        0 <= k <= parts.len(),
    ensures
        total_hits(parts.take(k)) <= total_hits(parts),
    decreases parts.len(),
{
    if k < parts.len() {
        assert(parts.drop_last().take(k) =~= parts.take(k));
        lemma_total_hits_prefix(parts.drop_last(), k);
    } else {
        assert(parts.take(k) =~= parts);
    }
}

/// A hit lands in the same counter whether another histogram is added before
/// or after.
pub proof fn lemma_bump_merged(a: Seq<nat>, b: Seq<nat>, i: int)
    requires
        a.len() == b.len(),
        0 <= i < a.len(),
    ensures
        bump(merged(a, b), i) == merged(bump(a, i), b),
{
    assert(bump(merged(a, b), i) =~= merged(bump(a, i), b));
}

/// A point handed in after a merge has the effect of the point handed in
/// before it.
pub proof fn lemma_deposit_merged(a: Seq<nat>, b: Seq<nat>, cfg: Config, z: SpecPoint, index: nat)
    requires
        cfg.valid(),
        a.len() == slots(cfg.grid),
        b.len() == slots(cfg.grid),
    ensures
        deposit(merged(a, b), cfg, z, index) == merged(deposit(a, cfg, z, index), b),
{
    match cell_of(cfg.region, cfg.grid, z) {
        None => {},
        Some((x, y)) => {
            let ch = channel_of(index, cfg.palette) as int;
            let first = slot(cfg.grid, x as int, y as int, ch);
            let second = slot(cfg.grid, x as int, cfg.grid.height - 1 - y, ch);
            lemma_slot_in_range(cfg.grid, x as int, y as int, ch);
            lemma_slot_in_range(cfg.grid, x as int, cfg.grid.height - 1 - y, ch);
            lemma_bump_merged(a, b, first);
            lemma_bump_merged(bump(a, first), b, second);
        },
    }
}

/// Points handed in after a merge have the effect of the points handed in
/// before it.
pub proof fn lemma_deposit_all_merged(a: Seq<nat>, b: Seq<nat>, cfg: Config, pts: Seq<SpecPoint>)
    requires
        cfg.valid(),
        a.len() == slots(cfg.grid),
        b.len() == slots(cfg.grid),
    ensures
        deposit_all(merged(a, b), cfg, pts) == merged(deposit_all(a, cfg, pts), b),
    decreases pts.len(),
{
    if pts.len() > 0 {
        lemma_deposit_all_merged(a, b, cfg, pts.drop_last());
        lemma_deposit_all_shape(a, cfg, pts.drop_last());
        lemma_deposit_merged(
            deposit_all(a, cfg, pts.drop_last()),
            b,
            cfg,
            pts.last(),
            (pts.len() - 1) as nat,
        );
    }
}

/// Candidates traced after a merge have the effect of the candidates traced
/// before it.
pub proof fn lemma_trace_all_merged(a: Seq<nat>, b: Seq<nat>, cfg: Config, cs: Seq<SpecPoint>)
    requires
        cfg.valid(),
        a.len() == slots(cfg.grid),
        b.len() == slots(cfg.grid),
    ensures
        trace_all(a, cfg, cs).len() == a.len(),
        trace_all(merged(a, b), cfg, cs) == merged(trace_all(a, cfg, cs), b),
    decreases cs.len(),
{
    if cs.len() > 0 {
        lemma_trace_all_merged(a, b, cfg, cs.drop_last());
        let before = trace_all(a, cfg, cs.drop_last());
        lemma_trace_shape(before, cfg, cs.last());
        lemma_deposit_all_merged(
            before,
            b,
            cfg,
            trajectory(cs.last(), cfg.escape_radius_sq as int, cfg.trace_length as nat),
        );
    }
}

/// Tracing one run of candidates after another is tracing them all in one
/// run.
pub proof fn lemma_trace_all_concat(
    counts: Seq<nat>,
    cfg: Config,
    first: Seq<SpecPoint>,
    second: Seq<SpecPoint>,
)
    ensures
        trace_all(counts, cfg, first + second) == trace_all(
            trace_all(counts, cfg, first),
            cfg,
            second,
        ),
    decreases second.len(),
{
    if second.len() == 0 {
        assert(first + second =~= first);
    } else {
        assert((first + second).drop_last() =~= first + second.drop_last());
        assert((first + second).last() == second.last());
        lemma_trace_all_concat(counts, cfg, first, second.drop_last());
    }
}

/// Two workers that split the candidates between them leave histograms whose
/// sum is the histogram of one worker with all the candidates.
pub proof fn lemma_split_and_merge(cfg: Config, first: Seq<SpecPoint>, second: Seq<SpecPoint>)
    requires
        cfg.valid(),
    ensures
        trace_all(zeros(slots(cfg.grid)), cfg, first + second) == merged(
            trace_all(zeros(slots(cfg.grid)), cfg, first),
            trace_all(zeros(slots(cfg.grid)), cfg, second),
        ),
{
    let n = slots(cfg.grid);
    let zero = zeros(n);
    lemma_slots_nonnegative(cfg.grid);
    let left = trace_all(zero, cfg, first);
    let right = trace_all(zero, cfg, second);
    lemma_trace_all_concat(zero, cfg, first, second);
    lemma_trace_all_merged(zero, zero, cfg, first);
    lemma_trace_all_merged(zero, left, cfg, second);
    lemma_merged_zeros(left);
    lemma_merged_commutative(right, left);
}

/// However the candidates are split into shares, one per worker, the sum of
/// the workers' histograms is the histogram of all the candidates: each
/// counter is the sum of the workers' counters for that cell and channel.
pub proof fn lemma_partition(cfg: Config, shares: Seq<Seq<SpecPoint>>)
    requires
        cfg.valid(),
    ensures
        merged_all(slots(cfg.grid), partials(cfg, shares)) == trace_all(
            zeros(slots(cfg.grid)),
            cfg,
            joined(shares),
        ),
        forall|j: int|
            0 <= j < slots(cfg.grid) ==> #[trigger] trace_all(
                zeros(slots(cfg.grid)),
                cfg,
                joined(shares),
            )[j] == column(partials(cfg, shares), j),
    decreases shares.len(),
{
    let n = slots(cfg.grid);
    lemma_slots_nonnegative(cfg.grid);
    if shares.len() > 0 {
        lemma_partition(cfg, shares.drop_last());
        assert(partials(cfg, shares).drop_last() =~= partials(cfg, shares.drop_last()));
        lemma_split_and_merge(cfg, joined(shares.drop_last()), shares.last());
    }
    assert forall|k: int| 0 <= k < partials(cfg, shares).len() implies (#[trigger] partials(
        cfg,
        shares,
    )[k]).len() == n by {
        lemma_trace_all_merged(zeros(n), zeros(n), cfg, shares[k]);
    }
    assert forall|j: int| 0 <= j < n implies #[trigger] merged_all(n, partials(cfg, shares))[j]
        == column(partials(cfg, shares), j) by {
        lemma_merged_all_cell(n, partials(cfg, shares), j);
    }
}

/// Traced candidates add at most two hits per step of their trajectories.
pub proof fn lemma_trace_all_mass(counts: Seq<nat>, cfg: Config, cs: Seq<SpecPoint>)
    requires
        cfg.valid(),
        counts.len() == slots(cfg.grid),
    ensures
        trace_all(counts, cfg, cs).len() == counts.len(),
        mass(counts) <= mass(trace_all(counts, cfg, cs)) <= mass(counts) + cfg.trace_budget()
            * cs.len(),
    decreases cs.len(),
{
    if cs.len() > 0 {
        lemma_trace_all_mass(counts, cfg, cs.drop_last());
        lemma_trace_shape(trace_all(counts, cfg, cs.drop_last()), cfg, cs.last());
        assert(cfg.trace_budget() * (cs.len() - 1) + cfg.trace_budget() == cfg.trace_budget()
            * cs.len()) by (nonlinear_arith);
    } else {
        assert(cfg.trace_budget() * 0 == 0);
    }
}

/// The candidates of all shares together are as many as the shares hold.
proof fn lemma_joined_len(cfg: Config, shares: Seq<Seq<SpecPoint>>)
    requires
        forall|k: int| 0 <= k < shares.len() ==> (#[trigger] shares[k]).len() == cfg.share(k),
    ensures
        joined(shares).len() == cfg.shares_before(shares.len()),
    decreases shares.len(),
{
    if shares.len() > 0 {
        let rest = shares.drop_last();
        assert forall|k: int| 0 <= k < rest.len() implies (#[trigger] rest[k]).len() == cfg.share(
            k,
        ) by {
            assert(rest[k] == shares[k]);
        }
        lemma_joined_len(cfg, rest);
    }
}

/// A whole run: when every worker traces its share of the candidates, the
/// histograms of the workers can be added up without overflow, and their sum
/// is the histogram of the `n_traces` candidates of the run.
pub proof fn lemma_run(cfg: Config, shares: Seq<Seq<SpecPoint>>)
    requires
        cfg.valid(),
        shares.len() == cfg.n_threads,
        forall|k: int| 0 <= k < shares.len() ==> (#[trigger] shares[k]).len() == cfg.share(k),
    ensures
        joined(shares).len() == cfg.n_traces,
        total_hits(partials(cfg, shares)) <= u64::MAX,
        merged_all(slots(cfg.grid), partials(cfg, shares)) == trace_all(
            zeros(slots(cfg.grid)),
            cfg,
            joined(shares),
        ),
{
    let n = slots(cfg.grid);
    lemma_slots_nonnegative(cfg.grid);
    cfg.lemma_shares_cover();
    lemma_joined_len(cfg, shares);
    lemma_partition(cfg, shares);
    assert forall|k: int| 0 <= k < partials(cfg, shares).len() implies (#[trigger] partials(
        cfg,
        shares,
    )[k]).len() == n by {
        lemma_trace_all_merged(zeros(n), zeros(n), cfg, shares[k]);
    }
    lemma_merged_all_mass(n, partials(cfg, shares));
    lemma_mass_zeros(n);
    lemma_trace_all_mass(zeros(n), cfg, joined(shares));
    assert(cfg.trace_budget() * joined(shares).len() == budget(
        cfg.trace_length as int,
        cfg.n_traces as int,
    )) by (nonlinear_arith)
        requires
            joined(shares).len() == cfg.n_traces,
            cfg.trace_budget() == 2 * cfg.trace_length,
            budget(cfg.trace_length as int, cfg.n_traces as int) == 2 * cfg.trace_length
                * cfg.n_traces,
    ;
}

/// Adds up the histograms of all workers, starting from an empty histogram
/// over `grid`.
///
/// A histogram over another grid is refused; otherwise the sum is refused
/// only if the hits of all histograms together do not fit a 64-bit counter.
pub fn merge_all(grid: PixelGrid, parts: &Vec<Histogram>) -> (out: Result<Histogram, MergeError>)
    requires
        grid.valid(),
        forall|k: int| 0 <= k < parts.len() ==> (#[trigger] parts[k]).wf(),
    ensures
        !all_over(parts@, grid) ==> out matches Err(MergeError::DimensionMismatch),
        all_over(parts@, grid) && total_hits(views(parts@)) > u64::MAX ==> out matches Err(
            MergeError::CounterOverflow,
        ),
        all_over(parts@, grid) && total_hits(views(parts@)) <= u64::MAX ==> (out matches Ok(h)
            && h.wf() && h.spec_grid() == grid && h@ == merged_all(
            slots(grid),
            views(parts@),
        ) && h.spec_total() == total_hits(views(parts@))),
{
    let mut k: usize = 0;
    while k < parts.len()
        invariant
            k <= parts.len(),
            forall|j: int| 0 <= j < k ==> (#[trigger] parts[j]).spec_grid() == grid,
        decreases parts.len() - k,
    {
        let g = parts[k].grid();
        if g.width != grid.width || g.height != grid.height {
            return Err(MergeError::DimensionMismatch);
        }
        k = k + 1;
    }
    let mut acc = Histogram::new(grid);
    let ghost all = views(parts@);
    proof {
        assert(all.take(0) =~= Seq::<Seq<nat>>::empty());
        lemma_mass_zeros(slots(grid));
    }
    k = 0;
    while k < parts.len()
        invariant
            k <= parts.len(),
            all == views(parts@),
            all_over(parts@, grid),
            forall|j: int| 0 <= j < parts.len() ==> (#[trigger] parts[j]).wf(),
            acc.wf(),
            acc.spec_grid() == grid,
            acc@ == merged_all(slots(grid), all.take(k as int)),
            acc.spec_total() == total_hits(all.take(k as int)),
        decreases parts.len() - k,
    {
        proof {
            assert(all.take(k + 1).drop_last() =~= all.take(k as int));
            assert(all.take(k + 1).last() == parts[k as int]@);
            lemma_total_hits_prefix(all, k + 1);
            assert(parts[k as int].spec_grid() == grid);
            lemma_mass_merged(acc@, parts[k as int]@);
        }
        match acc.merge(&parts[k]) {
            Ok(()) => {},
            Err(_) => {
                return Err(MergeError::CounterOverflow);
            },
        }
        k = k + 1;
    }
    proof {
        assert(all.take(k as int) =~= all);
        acc.lemma_total_fits();
    }
    Ok(acc)
}

} // verus!
