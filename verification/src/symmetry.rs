//! Why mirroring is sound: the quadratic map commutes with complex
//! conjugation, so the trajectory of the conjugate of a candidate is the
//! conjugate of its trajectory, and over a window that is symmetric about the
//! real axis the conjugate of a point falls into the mirrored cell.

use vstd::prelude::*;
use vstd::arithmetic::div_mod::{lemma_fundamental_div_mod, lemma_fundamental_div_mod_converse};
use crate::config::Config;
use crate::fixed::{trunc_div, ONE};
use crate::grid::{bin_of, cell_of, PixelGrid, SamplingRegion};
use crate::histogram::deposit;
use crate::oracle::{in_mandel, in_sub_mandelbrot, stays_bounded, BAILOUT_SQ};
use crate::point::{exceeds, iterate, norm_sqr, orbit, SpecPoint};
use crate::sampler::{orbit_prefix, run_length, trajectory};

verus! {

/// The complex conjugate.
pub open spec fn conj(z: SpecPoint) -> SpecPoint {
    SpecPoint { re: z.re, im: -z.im }
}

/// The configuration without mirroring.
pub open spec fn unmirrored(cfg: Config) -> Config {
    Config { mirror: false, ..cfg }
}

/// Rounding toward zero commutes with negation.
pub proof fn lemma_trunc_div_neg(a: int, b: int)
    requires
        b > 0,
    ensures
        trunc_div(-a, b) == -trunc_div(a, b),
{
    if a == 0 {
        assert(0int / b == 0) by (nonlinear_arith)
            requires
                b > 0,
        ;
    }
}

/// A point and its conjugate are equally far from the origin.
pub proof fn lemma_norm_conjugate(z: SpecPoint)
    ensures
        norm_sqr(conj(z)) == norm_sqr(z),
{
    assert((-z.im) * (-z.im) == z.im * z.im) by (nonlinear_arith);
}

/// The quadratic map commutes with conjugation.
pub proof fn lemma_iterate_conjugate(z: SpecPoint, c: SpecPoint)
    ensures
        iterate(conj(z), conj(c)) == conj(iterate(z, c)),
{
    let a = z.re * z.im + z.im * z.re;
    assert((-z.im) * (-z.im) == z.im * z.im) by (nonlinear_arith);
    assert(z.re * (-z.im) + (-z.im) * z.re == -a) by (nonlinear_arith)
        requires
            a == z.re * z.im + z.im * z.re,
    ;
    lemma_trunc_div_neg(a, ONE as int);
}

/// The trajectory of the conjugate is the conjugate of the trajectory.
pub proof fn lemma_orbit_conjugate(c: SpecPoint, k: nat)
    ensures
        orbit(conj(c), k) == conj(orbit(c, k)),
    decreases k,
{
    if k > 0 {
        lemma_orbit_conjugate(c, (k - 1) as nat);
        lemma_iterate_conjugate(orbit(c, (k - 1) as nat), c);
    }
}

/// The oracle gives a candidate and its conjugate the same answer.
pub proof fn lemma_in_mandel_conjugate(c: SpecPoint, threshold: nat)
    ensures
        in_sub_mandelbrot(conj(c)) == in_sub_mandelbrot(c),
        in_mandel(conj(c), threshold) == in_mandel(c, threshold),
{
    assert((-c.im) * (-c.im) == c.im * c.im) by (nonlinear_arith);
    assert forall|k: nat|
        exceeds(#[trigger] orbit(conj(c), k), BAILOUT_SQ as int) == exceeds(
            orbit(c, k),
            BAILOUT_SQ as int,
        ) by {
        lemma_orbit_conjugate(c, k);
        lemma_norm_conjugate(orbit(c, k));
    }
    if stays_bounded(c, threshold) {
        assert forall|k: nat| k <= threshold implies !exceeds(
            #[trigger] orbit(conj(c), k),
            BAILOUT_SQ as int,
        ) by {
            assert(!exceeds(orbit(c, k), BAILOUT_SQ as int));
        }
    }
    if stays_bounded(conj(c), threshold) {
        assert forall|k: nat| k <= threshold implies !exceeds(
            #[trigger] orbit(c, k),
            BAILOUT_SQ as int,
        ) by {
            assert(!exceeds(orbit(conj(c), k), BAILOUT_SQ as int));
        }
    }
}

/// The visited points of the conjugate are the conjugates of the visited
/// points.
pub proof fn lemma_trajectory_conjugate(c: SpecPoint, radius_sq: int, limit: nat)
    ensures
        run_length(conj(c), radius_sq, limit) == run_length(c, radius_sq, limit),
        trajectory(conj(c), radius_sq, limit) == Seq::new(
            trajectory(c, radius_sq, limit).len(),
            |k: int| conj(trajectory(c, radius_sq, limit)[k]),
        ),
    decreases limit,
{
    if limit > 0 {
        lemma_trajectory_conjugate(c, radius_sq, (limit - 1) as nat);
        lemma_orbit_conjugate(c, limit);
        lemma_norm_conjugate(orbit(c, limit));
    }
    let n = run_length(c, radius_sq, limit);
    assert forall|k: int| 0 <= k < n implies #[trigger] orbit_prefix(conj(c), n)[k] == conj(
        orbit_prefix(c, n)[k],
    ) by {
        lemma_orbit_conjugate(c, (k + 1) as nat);
    }
    assert(trajectory(conj(c), radius_sq, limit) =~= Seq::new(
        trajectory(c, radius_sq, limit).len(),
        |k: int| conj(trajectory(c, radius_sq, limit)[k]),
    ));
}

/// Over an interval that is symmetric about zero, a coordinate and its
/// negative fall into mirrored bins, unless the coordinate lies exactly on
/// the border between two bins.
pub proof fn lemma_mirrored_bin(value: int, low: int, span: int, bin_count: int)
    requires
        span > 0,
        span == -2 * low,
        ((value - low) * bin_count) % span != 0,
    ensures
        bin_of(-value, low, span, bin_count) == bin_count - 1 - bin_of(
            value,
            low,
            span,
            bin_count,
        ),
{
    let n = (value - low) * bin_count;
    let m = (-value - low) * bin_count;
    let q = n / span;
    let r = n % span;
    lemma_fundamental_div_mod(n, span);
    assert(m == span * bin_count - n) by (nonlinear_arith)
        requires
            n == (value - low) * bin_count,
            m == (-value - low) * bin_count,
            span == -2 * low,
    ;
    assert(m == (bin_count - 1 - q) * span + (span - r)) by (nonlinear_arith)
        requires
            m == span * bin_count - n,
            n == span * q + r,
    ;
    lemma_fundamental_div_mod_converse(m, span, bin_count - 1 - q, span - r);
}

/// Over a window that is symmetric about the real axis, the conjugate of a
/// point falls into the mirrored cell, unless the point lies exactly on the
/// border between two rows.
pub proof fn lemma_mirrored_cell(region: SamplingRegion, grid: PixelGrid, z: SpecPoint)
    requires
        region.valid(),
        grid.valid(),
        region.lowy == -region.highy,
        ((z.im - region.lowy) * grid.height) % region.span_y() != 0,
    ensures
        cell_of(region, grid, conj(z)) == match cell_of(region, grid, z) {
            Some((x, y)) => Some((x, (grid.height - 1 - y) as u32)),
            None => None,
        },
{
    lemma_mirrored_bin(z.im, region.lowy as int, region.span_y(), grid.height as int);
}

/// Over such a window and for such a point, recording the point with
/// mirroring is recording the point and its conjugate without.
pub proof fn lemma_mirror_is_conjugate_hit(counts: Seq<nat>, cfg: Config, z: SpecPoint, index: nat)
    requires
        cfg.valid(),
        cfg.mirror,
        cfg.region.lowy == -cfg.region.highy,
        ((z.im - cfg.region.lowy) * cfg.grid.height) % cfg.region.span_y() != 0,
    ensures
        deposit(counts, cfg, z, index) == deposit(
            deposit(counts, unmirrored(cfg), z, index),
            unmirrored(cfg),
            conj(z),
            index,
        ),
{
    lemma_mirrored_cell(cfg.region, cfg.grid, z);
}

} // verus!
