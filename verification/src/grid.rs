//! The sampling rectangle, the pixel grid laid over it, and the binning of
//! coordinates into pixels.

use vstd::prelude::*;
use vstd::arithmetic::div_mod::{
    lemma_div_is_ordered, lemma_fundamental_div_mod, lemma_fundamental_div_mod_converse,
};
use crate::error::ConfigError;
use crate::fixed::{Fixed, ONE};
use crate::palette::CHANNELS;
use crate::point::{Point, SpecPoint};

verus! {

/// The rectangle `[lowx, highx) x [lowy, highy)` from which candidates are
/// drawn and which the image shows.
#[derive(Clone, Copy, Debug, PartialEq, Eq)]
pub struct SamplingRegion {
    /// Least real part.
    pub lowx: Fixed,
    /// Bound of the real parts, itself outside.
    pub highx: Fixed,
    /// Least imaginary part.
    pub lowy: Fixed,
    /// Bound of the imaginary parts, itself outside.
    pub highy: Fixed,
}

impl SamplingRegion {
    /// Both spans are positive.
    pub open spec fn valid(&self) -> bool {
        self.lowx < self.highx && self.lowy < self.highy
    }

    /// Width of the rectangle, in raw units.
    pub open spec fn span_x(&self) -> int {
        self.highx - self.lowx
    }

    /// Height of the rectangle, in raw units.
    pub open spec fn span_y(&self) -> int {
        self.highy - self.lowy
    }

    /// Whether `z` lies in the rectangle.
    pub open spec fn contains(&self, z: SpecPoint) -> bool {
        self.lowx <= z.re < self.highx && self.lowy <= z.im < self.highy
    }

    /// The rectangle with the given bounds, unless a span would not be
    /// positive.
    pub fn new(lowx: Fixed, highx: Fixed, lowy: Fixed, highy: Fixed) -> (out: Result<
        SamplingRegion,
        ConfigError,
    >)
        ensures
            lowx < highx && lowy < highy ==> out == Ok::<SamplingRegion, ConfigError>(
                SamplingRegion { lowx, highx, lowy, highy },
            ),
            !(lowx < highx && lowy < highy) ==> out == Err::<SamplingRegion, ConfigError>(
                ConfigError::InvertedBounds,
            ),
    {
        if lowx < highx && lowy < highy {
            Ok(SamplingRegion { lowx, highx, lowy, highy })
        } else {
            Err(ConfigError::InvertedBounds)
        }
    }

    /// Width of the rectangle, in raw units.
    pub fn spanx(&self) -> (span: u64)
        requires
            self.valid(),
        ensures
            span == self.span_x(),
            span > 0,
    {
        ((self.highx as i128) - (self.lowx as i128)) as u64
    }

    /// Height of the rectangle, in raw units.
    pub fn spany(&self) -> (span: u64)
        requires
            self.valid(),
        ensures
            span == self.span_y(),
            span > 0,
    {
        ((self.highy as i128) - (self.lowy as i128)) as u64
    }
}

/// `floor((value - low) / span * bin_count)`: the index of the bin that holds
/// `value` when `[low, low + span)` is cut into `bin_count` equal bins. It is
/// negative below `low`, and `bin_count` or more from `low + span` on.
pub open spec fn bin_of(value: int, low: int, span: int, bin_count: int) -> int {
    ((value - low) * bin_count) / span
}

/// Floor of a quotient with a positive divisor.
fn floor_div(n: i128, d: i128) -> (q: i128)
    requires
        d > 0,
    ensures
        q == (n as int) / (d as int),
{
    let q: i128 = n / d;
    let r: i128 = n % d;
    proof {
        if n < 0 {
            lemma_fundamental_div_mod(-n, d as int);
            assert(n == d * q + r) by (nonlinear_arith)
                requires
                    -n == d * ((-n) / (d as int)) + (-n) % (d as int),
                    q == -((-n) / (d as int)),
                    r == -((-n) % (d as int)),
            ;
        } else {
            lemma_fundamental_div_mod(n as int, d as int);
        }
        assert(n == q * d + r) by (nonlinear_arith)
            requires
                n == d * q + r,
        ;
        if r < 0 {
            assert(n == (q - 1) * d + (r + d) && q > i128::MIN) by (nonlinear_arith)
                requires
                    n == d * q + r,
                    r < 0,
                    d > 0,
                    n >= i128::MIN,
                    q >= i128::MIN,
            ;
            lemma_fundamental_div_mod_converse(n as int, d as int, q - 1, r + d);
        } else {
            lemma_fundamental_div_mod_converse(n as int, d as int, q as int, r as int);
        }
    }
    if r < 0 {
        q - 1
    } else {
        q
    }
}

/// The bin of `value` among `bin_count` equal bins over `[low, low + span)`.
pub fn bin(value: Fixed, low: Fixed, span: u64, bin_count: u32) -> (b: i128)
    requires
        span > 0,
    ensures
        b == bin_of(value as int, low as int, span as int, bin_count as int),
{
    let d: i128 = (value as i128) - (low as i128);
    assert(-0x1_0000_0000_0000_0000 * 0x1_0000_0000 <= d * bin_count
        <= 0x1_0000_0000_0000_0000 * 0x1_0000_0000) by (nonlinear_arith)
        requires
            -0x1_0000_0000_0000_0000 <= d <= 0x1_0000_0000_0000_0000,
            0 <= bin_count <= 0x1_0000_0000,
    ;
    let n: i128 = d * (bin_count as i128);
    floor_div(n, span as i128)
}

/// Binning is monotonic: a greater coordinate never falls into a lower bin.
pub proof fn lemma_bin_monotonic(x1: int, x2: int, low: int, span: int, bin_count: int)
    requires
        span > 0,
        bin_count >= 0,
        x1 <= x2,
    ensures
        bin_of(x1, low, span, bin_count) <= bin_of(x2, low, span, bin_count),
{
    assert((x1 - low) * bin_count <= (x2 - low) * bin_count) by (nonlinear_arith)
        requires
            x1 <= x2,
            bin_count >= 0,
    ;
    lemma_div_is_ordered((x1 - low) * bin_count, (x2 - low) * bin_count, span);
}

/// The bins `0 .. bin_count` hold exactly the coordinates of
/// `[low, low + span)`.
pub proof fn lemma_bin_in_range(value: int, low: int, span: int, bin_count: int)
    requires
        span > 0,
        bin_count > 0,
    ensures
        0 <= bin_of(value, low, span, bin_count) < bin_count <==> low <= value < low + span,
{
    let n = (value - low) * bin_count;
    let q = n / span;
    lemma_fundamental_div_mod(n, span);
    assert(n == span * q + n % span);
    if low <= value < low + span {
        assert(0 <= n < span * bin_count) by (nonlinear_arith)
            requires
                n == (value - low) * bin_count,
                0 <= value - low < span,
                bin_count > 0,
        ;
        assert(0 <= q < bin_count) by (nonlinear_arith)
            requires
                n == span * q + n % span,
                0 <= n % span < span,
                0 <= n < span * bin_count,
                span > 0,
        ;
    } else if value < low {
        assert(n < 0) by (nonlinear_arith)
            requires
                n == (value - low) * bin_count,
                value - low < 0,
                bin_count > 0,
        ;
        assert(q < 0) by (nonlinear_arith)
            requires
                n == span * q + n % span,
                0 <= n % span < span,
                n < 0,
                span > 0,
        ;
    } else {
        assert(n >= span * bin_count) by (nonlinear_arith)
            requires
                n == (value - low) * bin_count,
                value - low >= span,
                bin_count > 0,
        ;
        assert(q >= bin_count) by (nonlinear_arith)
            requires
                n == span * q + n % span,
                0 <= n % span < span,
                n >= span * bin_count,
                span > 0,
        ;
    }
}

/// A grid of `width` by `height` pixels, row-major, whose pixel `(0, 0)` has
/// the corner `(lowx, lowy)` of the rectangle.
#[derive(Clone, Copy, Debug, PartialEq, Eq, Structural)]
pub struct PixelGrid {
    /// Cells along the real axis.
    pub width: u32,
    /// Cells along the imaginary axis.
    pub height: u32,
}

/// Number of pixels along an axis of length `span` at `resolution` pixels per
/// unit: `floor(span * resolution)`.
pub open spec fn extent(span: int, resolution: int) -> int {
    (span * resolution) / (ONE as int)
}

/// Bytes of one counter.
pub const COUNTER_BYTES: usize = 8;

/// Bytes that the counters of a grid of this size take: three counters per
/// cell.
pub open spec fn footprint(width: int, height: int) -> int {
    CHANNELS * width * height * COUNTER_BYTES
}

/// The grid of the given size, or why there is none.
pub open spec fn grid_of(width: int, height: int) -> Result<PixelGrid, ConfigError> {
    if width <= 0 || height <= 0 {
        Err(ConfigError::EmptyGrid)
    } else if width > u32::MAX || height > u32::MAX || footprint(width, height) > isize::MAX {
        Err(ConfigError::GridTooLarge)
    } else {
        Ok(PixelGrid { width: width as u32, height: height as u32 })
    }
}

/// The grid over `region` at `resolution` pixels per unit, or why there is
/// none.
pub open spec fn grid_for(region: SamplingRegion, resolution: int) -> Result<
    PixelGrid,
    ConfigError,
> {
    if resolution <= 0 {
        Err(ConfigError::NonPositiveResolution)
    } else {
        grid_of(extent(region.span_x(), resolution), extent(region.span_y(), resolution))
    }
}

impl PixelGrid {
    /// Both dimensions are positive, and the counters of all cells fit a
    /// vector, which holds `isize::MAX` bytes at most.
    pub open spec fn valid(&self) -> bool {
        &&& self.width > 0
        &&& self.height > 0
        &&& footprint(self.width as int, self.height as int) <= isize::MAX
    }

    /// Whether `(x, y)` is a cell.
    pub open spec fn has(&self, x: int, y: int) -> bool {
        0 <= x < self.width && 0 <= y < self.height
    }

    /// The grid of the given size, unless it is empty or its counters would
    /// not fit a vector.
    pub fn new(width: u32, height: u32) -> (out: Result<PixelGrid, ConfigError>)
        ensures
            out == grid_of(width as int, height as int),
            out matches Ok(g) ==> g.valid(),
    {
        if width == 0 || height == 0 {
            return Err(ConfigError::EmptyGrid);
        }
        assert(CHANNELS * width * height <= 3 * 0xffff_ffff * 0xffff_ffff) by (nonlinear_arith)
            requires
                CHANNELS == 3,
                0 <= width <= 0xffff_ffff,
                0 <= height <= 0xffff_ffff,
        ;
        let counters: u128 = (CHANNELS as u128) * (width as u128) * (height as u128);
        assert(counters * COUNTER_BYTES <= 8 * (3 * 0xffff_ffff * 0xffff_ffff)) by (nonlinear_arith)
            requires
                COUNTER_BYTES == 8,
                0 <= counters <= 3 * 0xffff_ffff * 0xffff_ffff,
        ;
        let bytes: u128 = counters * (COUNTER_BYTES as u128);
        if bytes > isize::MAX as u128 {
            return Err(ConfigError::GridTooLarge);
        }
        Ok(PixelGrid { width, height })
    }

    /// The grid over `region` at `resolution` pixels per unit:
    /// `floor(span * resolution)` pixels along each axis.
    pub fn for_region(region: &SamplingRegion, resolution: u32) -> (out: Result<
        PixelGrid,
        ConfigError,
    >)
        requires
            region.valid(),
        ensures
            out == grid_for(*region, resolution as int),
            out matches Ok(g) ==> g.valid(),
    {
        if resolution == 0 {
            return Err(ConfigError::NonPositiveResolution);
        }
        let wide_x: u128 = axis_pixels(region.spanx(), resolution);
        let wide_y: u128 = axis_pixels(region.spany(), resolution);
        if wide_x == 0 || wide_y == 0 {
            return Err(ConfigError::EmptyGrid);
        }
        if wide_x > u32::MAX as u128 || wide_y > u32::MAX as u128 {
            return Err(ConfigError::GridTooLarge);
        }
        PixelGrid::new(wide_x as u32, wide_y as u32)
    }

    /// The cell that holds `z`, if `z` falls on the grid.
    pub fn locate(&self, region: &SamplingRegion, z: Point) -> (cell: Option<(u32, u32)>)
        requires
            self.valid(),
            region.valid(),
        ensures
            cell == cell_of(*region, *self, z@),
    {
        let xbin: i128 = bin(z.re, region.lowx, region.spanx(), self.width);
        if xbin < 0 || xbin >= self.width as i128 {
            return None;
        }
        let ybin: i128 = bin(z.im, region.lowy, region.spany(), self.height);
        if ybin < 0 || ybin >= self.height as i128 {
            return None;
        }
        Some((xbin as u32, ybin as u32))
    }
}

/// `floor(span * resolution)` for a span in raw units.
fn axis_pixels(span: u64, resolution: u32) -> (n: u128)
    ensures
        n == extent(span as int, resolution as int),
{
    assert(span * resolution <= 0xffff_ffff_ffff_ffff * 0xffff_ffff) by (nonlinear_arith)
        requires
            0 <= span <= 0xffff_ffff_ffff_ffff,
            0 <= resolution <= 0xffff_ffff,
    ;
    let product: u128 = (span as u128) * (resolution as u128);
    product / (ONE as u128)
}

/// The cell of the grid into which `z` is binned, or `None` when a bin of `z`
/// is outside `0 .. width` or `0 .. height`: such a point is left out.
pub open spec fn cell_of(region: SamplingRegion, grid: PixelGrid, z: SpecPoint) -> Option<
    (u32, u32),
> {
    let xbin = bin_of(z.re, region.lowx as int, region.span_x(), grid.width as int);
    let ybin = bin_of(z.im, region.lowy as int, region.span_y(), grid.height as int);
    if 0 <= xbin < grid.width && 0 <= ybin < grid.height {
        Some((xbin as u32, ybin as u32))
    } else {
        None
    }
}

/// A point falls on the grid exactly when it lies in the rectangle.
pub proof fn lemma_cell_iff_contained(region: SamplingRegion, grid: PixelGrid, z: SpecPoint)
    requires
        region.valid(),
        grid.valid(),
    ensures
        cell_of(region, grid, z) is Some <==> region.contains(z),
{
    lemma_bin_in_range(z.re, region.lowx as int, region.span_x(), grid.width as int);
    lemma_bin_in_range(z.im, region.lowy as int, region.span_y(), grid.height as int);
}

} // verus!
