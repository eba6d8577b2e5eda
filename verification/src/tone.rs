//! Tone mapping: counters become 8-bit intensities, relative to the greatest
//! counter of their channel and along a square-root curve.

use vstd::prelude::*;
use vstd::arithmetic::div_mod::lemma_fundamental_div_mod_converse;
use crate::grid::PixelGrid;
use crate::histogram::{max_lum_of, slot, slots, Histogram};
use crate::palette::CHANNELS;
use crate::raster::{raster_height, raster_samples, raster_width, sample_index, Raster};

verus! {

/// The brightest intensity.
pub const FULL_SCALE: u8 = 255;

/// `(2 * FULL_SCALE)^2`.
pub const SCALE_SQ: u32 = 260100;

/// Whether `255 * sqrt(count / max)` is at least `k - 1/2`, for `k >= 1`:
/// squared and cleared of fractions, `(2k - 1)^2 * max <= (2 * 255)^2 * count`.
pub open spec fn reaches(count: nat, max: nat, k: nat) -> bool {
    (2 * k - 1) * (2 * k - 1) * max <= SCALE_SQ * count
}

/// The greatest level up to `k` that the ratio reaches; zero if it reaches
/// none.
pub open spec fn level(count: nat, max: nat, k: nat) -> nat
    decreases k,
{
    if k == 0 {
        0
    } else if reaches(count, max, k) {
        k
    } else {
        level(count, max, (k - 1) as nat)
    }
}

/// `round(sqrt(count / max) * 255)`, at most 255, and zero when `max` is zero.
/// Halves are rounded up.
pub open spec fn intensity_of(count: nat, max: nat) -> nat {
    if max == 0 {
        0
    } else {
        level(count, max, FULL_SCALE as nat)
    }
}

/// A ratio that reaches a level reaches every lower one.
pub proof fn lemma_reaches_monotonic(count: nat, max: nat, i: nat, j: nat)
    requires
        1 <= i <= j,
        reaches(count, max, j),
    ensures
        reaches(count, max, i),
{
    assert((2 * i - 1) * (2 * i - 1) * max <= (2 * j - 1) * (2 * j - 1) * max)
        by (nonlinear_arith)
        requires
            1 <= i <= j,
            max >= 0,
    {
        assert((2 * i - 1) * (2 * i - 1) <= (2 * j - 1) * (2 * j - 1));
    }
}

/// The level is the one that is reached while none above it is.
pub proof fn lemma_level_pins(count: nat, max: nat, k: nat, j: nat)
    requires
        j <= k,
        j == 0 || reaches(count, max, j),
        forall|i: nat| j < i <= k ==> !reaches(count, max, i),
    ensures
        level(count, max, k) == j,
    decreases k,
{
    if k > j {
        lemma_level_pins(count, max, (k - 1) as nat, j);
    }
}

/// The intensity is the whole number nearest to `255 * sqrt(count / max)`:
/// the ratio reaches it, and does not reach the next one unless the intensity
/// is already the brightest.
pub proof fn lemma_intensity_rounds(count: nat, max: nat)
    requires
        max > 0,
    ensures
        intensity_of(count, max) <= FULL_SCALE,
        intensity_of(count, max) == 0 || reaches(count, max, intensity_of(count, max)),
        intensity_of(count, max) == FULL_SCALE || !reaches(
            count,
            max,
            intensity_of(count, max) + 1,
        ),
{
    lemma_level_steps(count, max, FULL_SCALE as nat);
}

/// What [`level`] returns, for any bound `k`.
proof fn lemma_level_steps(count: nat, max: nat, k: nat)
    ensures
        level(count, max, k) <= k,
        level(count, max, k) == 0 || reaches(count, max, level(count, max, k)),
        level(count, max, k) == k || !reaches(count, max, level(count, max, k) + 1),
    decreases k,
{
    if k > 0 && !reaches(count, max, k) {
        lemma_level_steps(count, max, (k - 1) as nat);
        let j = level(count, max, (k - 1) as nat);
        if j == k - 1 {
        } else {
            assert(!reaches(count, max, j + 1));
        }
    }
}

/// More hits never make a cell darker.
pub proof fn lemma_intensity_monotonic(fewer: nat, more: nat, max: nat)
    requires
        fewer <= more,
    ensures
        intensity_of(fewer, max) <= intensity_of(more, max),
{
    if max > 0 {
        lemma_level_monotonic(fewer, more, max, FULL_SCALE as nat);
    }
}

/// More hits never reach a lower level.
proof fn lemma_level_monotonic(fewer: nat, more: nat, max: nat, k: nat)
    requires
        fewer <= more,
    ensures
        level(fewer, max, k) <= level(more, max, k),
    decreases k,
{
    if k > 0 {
        lemma_level_monotonic(fewer, more, max, (k - 1) as nat);
        lemma_level_steps(more, max, (k - 1) as nat);
        if reaches(fewer, max, k) {
            assert(SCALE_SQ * fewer <= SCALE_SQ * more) by (nonlinear_arith)
                requires
                    fewer <= more,
                    SCALE_SQ >= 0,
            ;
        }
    }
}

/// A cell with as many hits as the brightest of its channel is at full scale,
/// and a cell without hits is black.
pub proof fn lemma_intensity_ends(count: nat, max: nat)
    requires
        max > 0,
    ensures
        count >= max ==> intensity_of(count, max) == FULL_SCALE,
        count == 0 ==> intensity_of(count, max) == 0,
{
    if count >= max {
        assert(reaches(count, max, 255)) by (nonlinear_arith)
            requires
                count >= max,
                max > 0,
        {
            assert(509 * 509 * max <= 260100 * max);
            assert(260100 * max <= 260100 * count);
        }
    }
    if count == 0 {
        assert forall|i: nat| 0 < i <= 255 implies !reaches(count, max, i) by {
            assert((2 * i - 1) * (2 * i - 1) * max > 0) by (nonlinear_arith)
                requires
                    i >= 1,
                    max > 0,
            {
                assert((2 * i - 1) * (2 * i - 1) >= 1);
            }
        }
        lemma_level_pins(count, max, 255, 0);
    }
}

/// The intensity of a cell with `count` hits in a channel whose brightest
/// cell has `max_lum` hits: `round(sqrt(count / max_lum) * 255)`, at most 255.
/// In a channel without any hit every cell is black.
pub fn intensity(count: u64, max_lum: u64) -> (i: u8)
    ensures
        i == intensity_of(count as nat, max_lum as nat),
        max_lum == 0 ==> i == 0,
{
    if max_lum == 0 {
        return 0;
    }
    assert(SCALE_SQ * count <= 260100 * 0xffff_ffff_ffff_ffff) by (nonlinear_arith)
        requires
            SCALE_SQ == 260100,
            0 <= count <= 0xffff_ffff_ffff_ffff,
    ;
    let target: u128 = (SCALE_SQ as u128) * (count as u128);
    let max: u128 = max_lum as u128;
    let mut lo: u128 = 0;
    let mut hi: u128 = FULL_SCALE as u128;
    while lo < hi
        invariant
            lo <= hi <= FULL_SCALE,
            max == max_lum,
            target == SCALE_SQ * count,
            lo == 0 || reaches(count as nat, max_lum as nat, lo as nat),
            forall|j: nat| hi < j <= FULL_SCALE ==> !reaches(count as nat, max_lum as nat, j),
        decreases hi - lo,
    {
        let mid: u128 = (lo + hi + 1) / 2;
        let side: u128 = 2 * mid - 1;
        assert(side * side <= 509 * 509) by (nonlinear_arith)
            requires
                0 <= side <= 509,
        ;
        assert(side * side * max <= 509 * 509 * 0xffff_ffff_ffff_ffff) by (nonlinear_arith)
            requires
                0 <= side * side <= 509 * 509,
                0 <= max <= 0xffff_ffff_ffff_ffff,
        ;
        if side * side * max <= target {
            lo = mid;
        } else {
            proof {
                assert forall|j: nat| mid <= j <= FULL_SCALE implies !reaches(
                    count as nat,
                    max_lum as nat,
                    j,
                ) by {
                    if reaches(count as nat, max_lum as nat, j) {
                        lemma_reaches_monotonic(count as nat, max_lum as nat, mid as nat, j);
                    }
                }
            }
            hi = mid - 1;
        }
    }
    proof {
        lemma_level_pins(count as nat, max_lum as nat, FULL_SCALE as nat, lo as nat);
    }
    lo as u8
}

/// The samples of the image of a histogram. The image is the transpose of
/// the grid: cell `(x, y)` becomes the pixel at column `y` and row `x`, so the
/// image is `grid.height` wide and `grid.width` high. Each sample is the
/// intensity of one counter relative to the greatest counter of its channel.
pub open spec fn rendered(counts: Seq<nat>, grid: PixelGrid) -> Seq<u8> {
    Seq::new(
        slots(grid) as nat,
        |i: int|
            {
                let ch = i % (CHANNELS as int);
                let x = (i / (CHANNELS as int)) / (grid.height as int);
                let y = (i / (CHANNELS as int)) % (grid.height as int);
                intensity_of(counts[slot(grid, x, y, ch)], max_lum_of(counts, grid, ch)) as u8
            },
    )
}

/// Where the image of a histogram holds the intensity of cell `(x, y)` in
/// channel `ch`.
pub proof fn lemma_rendered_pixel(counts: Seq<nat>, grid: PixelGrid, x: int, y: int, ch: int)
    requires
        grid.valid(),
        grid.has(x, y),
        0 <= ch < CHANNELS,
    ensures
        0 <= sample_index(grid.height as int, y, x) + ch < slots(grid),
        rendered(counts, grid)[sample_index(grid.height as int, y, x) + ch] == intensity_of(
            counts[slot(grid, x, y, ch)],
            max_lum_of(counts, grid, ch),
        ) as u8,
{
    let w = grid.width as int;
    let h = grid.height as int;
    let p = x * h + y;
    let i = sample_index(h, y, x) + ch;
    assert(i == p * 3 + ch);
    assert(0 <= p < w * h) by (nonlinear_arith)
        requires
            p == x * h + y,
            0 <= x < w,
            0 <= y < h,
    {
        assert(x * h <= (w - 1) * h);
    }
    assert(CHANNELS * w * h == (w * h) * 3) by (nonlinear_arith)
        requires
            CHANNELS == 3,
    ;
    lemma_fundamental_div_mod_converse(p, h, x, y);
}

/// In a channel without any hit the whole image is black.
pub proof fn lemma_dark_channel(counts: Seq<nat>, grid: PixelGrid, ch: int)
    requires
        0 <= ch < CHANNELS,
        max_lum_of(counts, grid, ch) == 0,
    ensures
        forall|i: int|
            0 <= i < slots(grid) && i % (CHANNELS as int) == ch ==> #[trigger] rendered(
                counts,
                grid,
            )[i] == 0,
{
}

/// Tone-maps a histogram into an image, transposed: the counters of cell
/// `(x, y)` give the red, green and blue sample of the pixel at column `y` and
/// row `x`.
pub fn render(hist: &Histogram) -> (img: Raster)
    requires
        hist.wf(),
    ensures
        img.wf(),
        raster_width(img) == hist.spec_grid().height,
        raster_height(img) == hist.spec_grid().width,
        raster_samples(img) == rendered(hist@, hist.spec_grid()),
{
    let grid = hist.grid();
    let red: u64 = hist.max_lum(0);
    let green: u64 = hist.max_lum(1);
    let blue: u64 = hist.max_lum(2);
    proof {
        assert(CHANNELS * grid.height * grid.width == CHANNELS * grid.width * grid.height)
            by (nonlinear_arith);
    }
    let mut img = Raster::blank(grid.height, grid.width);
    let mut x: u32 = 0;
    while x < grid.width
        invariant
            x <= grid.width,
            hist.wf(),
            grid == hist.spec_grid(),
            red == max_lum_of(hist@, grid, 0),
            green == max_lum_of(hist@, grid, 1),
            blue == max_lum_of(hist@, grid, 2),
            raster_width(img) == grid.height,
            raster_height(img) == grid.width,
            raster_samples(img).len() == slots(grid),
            forall|i: int|
                0 <= i < (x * grid.height) * CHANNELS ==> #[trigger] raster_samples(img)[i]
                    == rendered(hist@, grid)[i],
        decreases grid.width - x,
    {
        let mut y: u32 = 0;
        while y < grid.height
            invariant
                x < grid.width,
                y <= grid.height,
                hist.wf(),
                grid == hist.spec_grid(),
                red == max_lum_of(hist@, grid, 0),
                green == max_lum_of(hist@, grid, 1),
                blue == max_lum_of(hist@, grid, 2),
                raster_width(img) == grid.height,
                raster_height(img) == grid.width,
                raster_samples(img).len() == slots(grid),
                forall|i: int|
                    0 <= i < (x * grid.height + y) * CHANNELS ==> #[trigger] raster_samples(
                        img,
                    )[i] == rendered(hist@, grid)[i],
            decreases grid.height - y,
        {
            let r: u8 = intensity(hist.cell(x, y, 0), red);
            let g: u8 = intensity(hist.cell(x, y, 1), green);
            let b: u8 = intensity(hist.cell(x, y, 2), blue);
            proof {
                lemma_rendered_pixel(hist@, grid, x as int, y as int, 0);
                lemma_rendered_pixel(hist@, grid, x as int, y as int, 1);
                lemma_rendered_pixel(hist@, grid, x as int, y as int, 2);
            }
            img.put(y, x, (r, g, b));
            y = y + 1;
        }
        proof {
            assert((x * grid.height + grid.height) * CHANNELS == ((x + 1) * grid.height)
                * CHANNELS) by (nonlinear_arith);
        }
        x = x + 1;
    }
    proof {
        assert((grid.width * grid.height) * CHANNELS == slots(grid)) by (nonlinear_arith)
            requires
                slots(grid) == CHANNELS * grid.width * grid.height,
        ;
        assert(raster_samples(img) =~= rendered(hist@, grid));
    }
    img
}

} // verus!
