//! Per-cell, per-channel hit counters over a pixel grid.

use vstd::prelude::*;
use crate::config::Config;
use crate::error::MergeError;
use crate::grid::{cell_of, PixelGrid};
use crate::palette::{channel, channel_of, CHANNELS};
use crate::point::{Point, SpecPoint};

verus! {

/// Number of counters of a histogram over `grid`.
pub open spec fn slots(grid: PixelGrid) -> int {
    CHANNELS * grid.width * grid.height
}

/// Position of the counter of cell `(x, y)` and channel `ch`: cells are laid
/// out row by row, the channels of a cell side by side.
pub open spec fn slot(grid: PixelGrid, x: int, y: int, ch: int) -> int {
    (x + grid.width * y) * CHANNELS + ch
}

/// `n` counters at zero.
pub open spec fn zeros(n: int) -> Seq<nat> {
    Seq::new(n as nat, |i: int| 0nat)
}

/// The counters with the one at `i` raised by one.
pub open spec fn bump(counts: Seq<nat>, i: int) -> Seq<nat> {
    counts.update(i, counts[i] + 1)
}

/// Counter by counter sum.
pub open spec fn merged(a: Seq<nat>, b: Seq<nat>) -> Seq<nat> {
    Seq::new(a.len(), |i: int| a[i] + b[i])
}

/// Sum of all counters: the number of hits recorded.
pub open spec fn mass(counts: Seq<nat>) -> nat
    decreases counts.len(),
{
    if counts.len() == 0 {
        0
    } else {
        mass(counts.drop_last()) + counts.last()
    }
}

/// The counters after the point `z`, visited at iteration `index`, has been
/// handed in. A point that falls off the grid changes nothing. Otherwise the
/// counter of its cell goes up by one, in the channel that `index` selects;
/// with mirroring on, so does the counter of the cell at the same column and
/// the mirrored row, `height - 1 - y`.
pub open spec fn deposit(counts: Seq<nat>, cfg: Config, z: SpecPoint, index: nat) -> Seq<nat> {
    match cell_of(cfg.region, cfg.grid, z) {
        None => counts,
        Some((x, y)) => {
            let ch = channel_of(index, cfg.palette) as int;
            let once = bump(counts, slot(cfg.grid, x as int, y as int, ch));
            if cfg.mirror {
                bump(once, slot(cfg.grid, x as int, cfg.grid.height - 1 - y, ch))
            } else {
                once
            }
        },
    }
}

/// How many hits the point `z` adds when it is handed in: none if it falls
/// off the grid, two with mirroring, one without.
pub open spec fn hits_of(cfg: Config, z: SpecPoint) -> nat {
    if cell_of(cfg.region, cfg.grid, z) is None {
        0
    } else if cfg.mirror {
        2
    } else {
        1
    }
}

/// How many hits cell `(x, y)` gets in channel `ch` when the point `z`,
/// visited at iteration `index`, is handed in: one if `z` falls into the
/// cell, one more if mirroring is on and `z` falls into the mirrored cell, and
/// none in any channel but the one that `index` selects.
pub open spec fn hits_at(cfg: Config, z: SpecPoint, index: nat, x: int, y: int, ch: int) -> nat {
    match cell_of(cfg.region, cfg.grid, z) {
        None => 0,
        Some((cx, cy)) => {
            if ch != channel_of(index, cfg.palette) || x != cx {
                0
            } else {
                let direct: nat = if y == cy {
                    1
                } else {
                    0
                };
                let mirrored: nat = if cfg.mirror && y == cfg.grid.height - 1 - cy {
                    1
                } else {
                    0
                };
                direct + mirrored
            }
        },
    }
}

/// What [`Histogram::merge`] answers for histograms over these grids with
/// these numbers of hits.
pub open spec fn merge_outcome(
    grid: PixelGrid,
    total: nat,
    other_grid: PixelGrid,
    other_total: nat,
) -> Result<(), MergeError> {
    if grid != other_grid {
        Err(MergeError::DimensionMismatch)
    } else if total + other_total > u64::MAX {
        Err(MergeError::CounterOverflow)
    } else {
        Ok(())
    }
}

/// Greatest counter of channel `ch` among the first `n` cells; zero if there
/// is none.
pub open spec fn peak(counts: Seq<nat>, ch: int, n: nat) -> nat
    decreases n,
{
    if n == 0 {
        0
    } else {
        let rest = peak(counts, ch, (n - 1) as nat);
        let c = counts[(n - 1) * CHANNELS + ch];
        if c > rest {
            c
        } else {
            rest
        }
    }
}

/// Greatest counter of channel `ch` over the whole grid.
pub open spec fn max_lum_of(counts: Seq<nat>, grid: PixelGrid, ch: int) -> nat {
    peak(counts, ch, (grid.width * grid.height) as nat)
}

/// A grid has no negative number of counters.
pub proof fn lemma_slots_nonnegative(grid: PixelGrid)
    ensures
        slots(grid) >= 0,
{
    assert(CHANNELS * grid.width * grid.height >= 0) by (nonlinear_arith)
        requires
            CHANNELS == 3,
            grid.width >= 0,
            grid.height >= 0,
    ;
}

/// The counter of a cell of the grid lies among the counters.
pub proof fn lemma_slot_in_range(grid: PixelGrid, x: int, y: int, ch: int)
    requires
        grid.has(x, y),
        0 <= ch < CHANNELS,
    ensures
        0 <= slot(grid, x, y, ch) < slots(grid),
{
    let w = grid.width as int;
    let h = grid.height as int;
    assert(0 <= x + w * y < w * h) by (nonlinear_arith)
        requires
            0 <= x < w,
            0 <= y < h,
    {
        assert(w * y <= w * (h - 1));
    }
    assert(CHANNELS * w * h == (w * h) * CHANNELS) by (nonlinear_arith);
}

/// Two counters at the same position belong to the same cell and channel.
pub proof fn lemma_slot_injective(
    grid: PixelGrid,
    x1: int,
    y1: int,
    ch1: int,
    x2: int,
    y2: int,
    ch2: int,
)
    requires
        grid.has(x1, y1),
        grid.has(x2, y2),
        0 <= ch1 < CHANNELS,
        0 <= ch2 < CHANNELS,
        slot(grid, x1, y1, ch1) == slot(grid, x2, y2, ch2),
    ensures
        x1 == x2,
        y1 == y2,
        ch1 == ch2,
{
    let w = grid.width as int;
    assert(x1 + w * y1 == x2 + w * y2 && ch1 == ch2);
    assert(y1 == y2) by (nonlinear_arith)
        requires
            x1 + w * y1 == x2 + w * y2,
            0 <= x1 < w,
            0 <= x2 < w,
    {
        if y1 < y2 {
            assert(w * y2 >= w * (y1 + 1));
        }
        if y2 < y1 {
            assert(w * y1 >= w * (y2 + 1));
        }
    }
    assert(w * y1 == w * y2);
}

/// No hit is recorded in counters at zero.
pub proof fn lemma_mass_zeros(n: int)
    requires
        n >= 0,
    ensures
        mass(zeros(n)) == 0,
    decreases n,
{
    if n > 0 {
        assert(zeros(n).drop_last() =~= zeros(n - 1));
        lemma_mass_zeros(n - 1);
    }
}

/// No counter exceeds the number of hits.
pub proof fn lemma_mass_bounds(counts: Seq<nat>, i: int)
    requires
        0 <= i < counts.len(),
    ensures
        counts[i] <= mass(counts),
    decreases counts.len(),
{
    if i < counts.len() - 1 {
        lemma_mass_bounds(counts.drop_last(), i);
    }
}

/// Raising one counter records one more hit.
pub proof fn lemma_mass_bump(counts: Seq<nat>, i: int)
    requires
        0 <= i < counts.len(),
    ensures
        mass(bump(counts, i)) == mass(counts) + 1,
    decreases counts.len(),
{
    if i < counts.len() - 1 {
        assert(bump(counts, i).drop_last() =~= bump(counts.drop_last(), i));
        lemma_mass_bump(counts.drop_last(), i);
    } else {
        assert(bump(counts, i).drop_last() =~= counts.drop_last());
    }
}

/// The sum of two histograms holds the hits of both.
pub proof fn lemma_mass_merged(a: Seq<nat>, b: Seq<nat>)
    requires
        a.len() == b.len(),
    ensures
        mass(merged(a, b)) == mass(a) + mass(b),
    decreases a.len(),
{
    if a.len() > 0 {
        assert(merged(a, b).drop_last() =~= merged(a.drop_last(), b.drop_last()));
        lemma_mass_merged(a.drop_last(), b.drop_last());
    }
}

/// Cell by cell: a point handed in raises the counters of its cell, and of
/// the mirrored cell if mirroring is on, in the channel of its iteration, and
/// no other counter.
pub proof fn lemma_deposit_cell(
    counts: Seq<nat>,
    cfg: Config,
    z: SpecPoint,
    index: nat,
    x: int,
    y: int,
    ch: int,
)
    requires
        cfg.valid(),
        counts.len() == slots(cfg.grid),
        cfg.grid.has(x, y),
        0 <= ch < CHANNELS,
    ensures
        deposit(counts, cfg, z, index)[slot(cfg.grid, x, y, ch)] == counts[slot(
            cfg.grid,
            x,
            y,
            ch,
        )] + hits_at(cfg, z, index, x, y, ch),
{
    let grid = cfg.grid;
    let here = slot(grid, x, y, ch);
    lemma_slot_in_range(grid, x, y, ch);
    match cell_of(cfg.region, grid, z) {
        None => {},
        Some((cx, cy)) => {
            let hit = channel_of(index, cfg.palette) as int;
            let my = grid.height - 1 - cy;
            let first = slot(grid, cx as int, cy as int, hit);
            let second = slot(grid, cx as int, my, hit);
            lemma_slot_in_range(grid, cx as int, cy as int, hit);
            lemma_slot_in_range(grid, cx as int, my, hit);
            if here == first {
                lemma_slot_injective(grid, x, y, ch, cx as int, cy as int, hit);
            }
            if here == second {
                lemma_slot_injective(grid, x, y, ch, cx as int, my, hit);
            }
        },
    }
}

/// A point handed in adds its hits, two at most, and leaves every counter in
/// place.
pub proof fn lemma_deposit_shape(counts: Seq<nat>, cfg: Config, z: SpecPoint, index: nat)
    requires
        cfg.valid(),
        counts.len() == slots(cfg.grid),
    ensures
        deposit(counts, cfg, z, index).len() == counts.len(),
        mass(deposit(counts, cfg, z, index)) == mass(counts) + hits_of(cfg, z),
        hits_of(cfg, z) <= 2,
{
    match cell_of(cfg.region, cfg.grid, z) {
        None => {},
        Some((x, y)) => {
            let ch = channel_of(index, cfg.palette) as int;
            let first = slot(cfg.grid, x as int, y as int, ch);
            let second = slot(cfg.grid, x as int, cfg.grid.height - 1 - y, ch);
            lemma_slot_in_range(cfg.grid, x as int, y as int, ch);
            lemma_slot_in_range(cfg.grid, x as int, cfg.grid.height - 1 - y, ch);
            lemma_mass_bump(counts, first);
            lemma_mass_bump(bump(counts, first), second);
        },
    }
}

/// The peak of a channel is an upper bound of its counters, and one of them
/// unless it is zero.
pub proof fn lemma_peak(counts: Seq<nat>, ch: int, n: nat)
    ensures
        forall|k: int| 0 <= k < n ==> #[trigger] counts[k * CHANNELS + ch] <= peak(counts, ch, n),
        peak(counts, ch, n) == 0 || exists|k: int|
            0 <= k < n && #[trigger] counts[k * CHANNELS + ch] == peak(counts, ch, n),
    decreases n,
{
    if n > 0 {
        lemma_peak(counts, ch, (n - 1) as nat);
        let rest = peak(counts, ch, (n - 1) as nat);
        let c = counts[(n - 1) * CHANNELS + ch];
        if c > rest {
        } else if rest != 0 {
            let k = choose|k: int| 0 <= k < n - 1 && #[trigger] counts[k * CHANNELS + ch] == rest;
            assert(0 <= k < n && counts[k * CHANNELS + ch] == peak(counts, ch, n));
        }
    }
}

/// No counter of a channel exceeds the maximum of that channel.
pub proof fn lemma_max_lum_bounds(counts: Seq<nat>, grid: PixelGrid, x: int, y: int, ch: int)
    requires
        grid.has(x, y),
        0 <= ch < CHANNELS,
    ensures
        counts[slot(grid, x, y, ch)] <= max_lum_of(counts, grid, ch),
{
    let w = grid.width as int;
    let h = grid.height as int;
    let k = x + w * y;
    assert(0 <= k < w * h) by (nonlinear_arith)
        requires
            k == x + w * y,
            0 <= x < w,
            0 <= y < h,
    {
        assert(w * y <= w * (h - 1));
    }
    lemma_peak(counts, ch, (w * h) as nat);
    assert(counts[k * CHANNELS + ch] <= peak(counts, ch, (w * h) as nat));
}

/// A two-dimensional histogram with three counters per cell.
#[derive(Debug, PartialEq, Eq)]
pub struct Histogram {
    grid: PixelGrid,
    cells: Vec<u64>,
    total: u64,
}

impl View for Histogram {
    type V = Seq<nat>;

    /// All counters, in the order given by [`slot`].
    closed spec fn view(&self) -> Seq<nat> {
        Seq::new(self.cells.len() as nat, |i: int| self.cells[i] as nat)
    }
}

impl Histogram {
    /// The grid that the histogram is over.
    pub closed spec fn spec_grid(&self) -> PixelGrid {
        self.grid
    }

    /// The number of hits that the histogram accounts for.
    pub closed spec fn spec_total(&self) -> nat {
        self.total as nat
    }

    /// The histogram has one counter per cell and channel of a valid grid, and
    /// keeps count of its hits.
    pub open spec fn wf(&self) -> bool {
        &&& self.spec_grid().valid()
        &&& self@.len() == slots(self.spec_grid())
        &&& self.spec_total() == mass(self@)
    }

    /// The hits of a histogram fit a 64-bit counter.
    pub proof fn lemma_total_fits(&self)
        ensures
            self.spec_total() <= u64::MAX,
    {
    }

    /// The counter of cell `(x, y)` in channel `ch`.
    pub open spec fn count_at(&self, x: int, y: int, ch: int) -> nat {
        self@[slot(self.spec_grid(), x, y, ch)]
    }

    /// A histogram over `grid` with every counter at zero.
    pub fn new(grid: PixelGrid) -> (h: Histogram)
        requires
            grid.valid(),
        ensures
            h.wf(),
            h.spec_grid() == grid,
            h@ == zeros(slots(grid)),
            h.spec_total() == 0,
    {
        assert(CHANNELS * grid.width * grid.height == (grid.width * grid.height) * CHANNELS)
            by (nonlinear_arith);
        assert(0 <= grid.width * grid.height <= CHANNELS * grid.width * grid.height)
            by (nonlinear_arith)
            requires
                CHANNELS == 3,
                grid.width >= 0,
                grid.height >= 0,
        ;
        let n: usize = (grid.width as usize) * (grid.height as usize) * CHANNELS;
        let cells: Vec<u64> = vec![0u64; n];
        let h = Histogram { grid, cells, total: 0 };
        proof {
            assert(h@ =~= zeros(slots(grid)));
            lemma_mass_zeros(slots(grid));
        }
        h
    }

    /// The grid that the histogram is over.
    pub fn grid(&self) -> (g: PixelGrid)
        ensures
            g == self.spec_grid(),
    {
        self.grid
    }

    /// The number of hits recorded: the sum of all counters.
    pub fn total(&self) -> (t: u64)
        ensures
            t == self.spec_total(),
    {
        self.total
    }

    /// Position of a counter among the cells.
    fn index_of(&self, x: u32, y: u32, ch: usize) -> (i: usize)
        requires
            self.wf(),
            self.spec_grid().has(x as int, y as int),
            ch < CHANNELS,
        ensures
            i == slot(self.spec_grid(), x as int, y as int, ch as int),
            i < self.cells.len(),
    {
        proof {
            lemma_slot_in_range(self.grid, x as int, y as int, ch as int);
            assert(0 <= self.grid.width * y <= slot(self.grid, x as int, y as int, ch as int))
                by (nonlinear_arith)
                requires
                    self.grid.width >= 0,
                    y >= 0,
                    x >= 0,
                    ch >= 0,
                    CHANNELS == 3,
            ;
            assert(0 <= x + self.grid.width * y <= slot(
                self.grid,
                x as int,
                y as int,
                ch as int,
            ));
        }
        ((x as usize) + (self.grid.width as usize) * (y as usize)) * CHANNELS + ch
    }

    /// The counter of cell `(x, y)` in channel `ch`, if there is such a cell
    /// and channel.
    pub fn count(&self, x: u32, y: u32, ch: usize) -> (c: Option<u64>)
        requires
            self.wf(),
        ensures
            self.spec_grid().has(x as int, y as int) && ch < CHANNELS ==> (c matches Some(v)
                && v == self.count_at(x as int, y as int, ch as int)),
            !(self.spec_grid().has(x as int, y as int) && ch < CHANNELS) ==> c is None,
    {
        if x < self.grid.width && y < self.grid.height && ch < CHANNELS {
            let i = self.index_of(x, y, ch);
            Some(self.cells[i])
        } else {
            None
        }
    }

    /// The counter of a cell of the grid.
    pub(crate) fn cell(&self, x: u32, y: u32, ch: usize) -> (c: u64)
        requires
            self.wf(),
            self.spec_grid().has(x as int, y as int),
            ch < CHANNELS,
        ensures
            c == self.count_at(x as int, y as int, ch as int),
    {
        let i = self.index_of(x, y, ch);
        self.cells[i]
    }

    /// The greatest counter of channel `ch`.
    pub fn max_lum(&self, ch: usize) -> (m: u64)
        requires
            self.wf(),
            ch < CHANNELS,
        ensures
            m == max_lum_of(self@, self.spec_grid(), ch as int),
    {
        let n: usize = self.cells.len() / CHANNELS;
        proof {
            assert(CHANNELS * self.grid.width * self.grid.height == (self.grid.width
                * self.grid.height) * CHANNELS) by (nonlinear_arith);
        }
        let mut m: u64 = 0;
        let mut k: usize = 0;
        while k < n
            invariant
                k <= n,
                ch < CHANNELS,
                n * CHANNELS == self.cells.len(),
                m == peak(self@, ch as int, k as nat),
            decreases n - k,
        {
            let c: u64 = self.cells[k * CHANNELS + ch];
            if c > m {
                m = c;
            }
            k = k + 1;
        }
        m
    }

    /// Raises the counter of cell `(x, y)` in channel `ch` by one.
    fn increment(&mut self, x: u32, y: u32, ch: usize)
        requires
            old(self).wf(),
            old(self).spec_grid().has(x as int, y as int),
            ch < CHANNELS,
            old(self).spec_total() < u64::MAX,
        ensures
            final(self).wf(),
            final(self).spec_grid() == old(self).spec_grid(),
            final(self)@ == bump(old(self)@, slot(old(self).spec_grid(), x as int, y as int, ch as int)),
            final(self).spec_total() == old(self).spec_total() + 1,
    {
        let i = self.index_of(x, y, ch);
        proof {
            lemma_mass_bounds(self@, i as int);
            lemma_mass_bump(self@, i as int);
        }
        let c: u64 = self.cells[i];
        self.cells.set(i, c + 1);
        self.total = self.total + 1;
        proof {
            assert(self@ =~= bump(old(self)@, i as int));
        }
    }

    /// Hands in the point `z` that a trajectory visited at iteration `index`.
    ///
    /// The histogram must have room for two more hits.
    pub fn deposit(&mut self, cfg: &Config, z: Point, index: usize)
        requires
            old(self).wf(),
            cfg.valid(),
            old(self).spec_grid() == cfg.grid,
            old(self).spec_total() + 2 <= u64::MAX,
        ensures
            final(self).wf(),
            final(self).spec_grid() == old(self).spec_grid(),
            final(self)@ == deposit(old(self)@, *cfg, z@, index as nat),
            final(self).spec_total() == old(self).spec_total() + hits_of(*cfg, z@),
    {
        match cfg.grid.locate(&cfg.region, z) {
            None => {},
            Some((x, y)) => {
                let ch = channel(index, &cfg.palette);
                self.increment(x, y, ch);
                if cfg.mirror {
                    self.increment(x, cfg.grid.height - 1 - y, ch);
                }
            },
        }
    }

    /// Adds the counters of `other`, which must be over the same grid, to
    /// those of `self`. On an error `self` is left as it was.
    pub fn merge(&mut self, other: &Histogram) -> (out: Result<(), MergeError>)
        requires
            old(self).wf(),
            other.wf(),
        ensures
            out == merge_outcome(
                old(self).spec_grid(),
                old(self).spec_total(),
                other.spec_grid(),
                other.spec_total(),
            ),
            out is Ok ==> final(self).wf() && final(self).spec_grid() == old(self).spec_grid()
                && final(self)@ == merged(old(self)@, other@),
            out is Err ==> *final(self) == *old(self),
    {
        if self.grid.width != other.grid.width || self.grid.height != other.grid.height {
            return Err(MergeError::DimensionMismatch);
        }
        if self.total > u64::MAX - other.total {
            return Err(MergeError::CounterOverflow);
        }
        let n: usize = self.cells.len();
        let mut i: usize = 0;
        while i < n
            invariant
                i <= n,
                n == self.cells.len(),
                n == other.cells.len(),
                n == old(self).cells.len(),
                self.grid == old(self).grid,
                self.total == old(self).total,
                old(self).total + other.total <= u64::MAX,
                old(self).total == mass(old(self)@),
                other.total == mass(other@),
                forall|j: int| 0 <= j < i ==> self.cells[j] == old(self).cells[j] + other.cells[j],
                forall|j: int| i <= j < n ==> self.cells[j] == old(self).cells[j],
            decreases n - i,
        {
            proof {
                lemma_mass_bounds(old(self)@, i as int);
                lemma_mass_bounds(other@, i as int);
            }
            let c: u64 = self.cells[i] + other.cells[i];
            self.cells.set(i, c);
            i = i + 1;
        }
        self.total = self.total + other.total;
        proof {
            assert(self@ =~= merged(old(self)@, other@));
            lemma_mass_merged(old(self)@, other@);
        }
        Ok(())
    }
}

} // verus!
