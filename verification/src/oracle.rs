//! Membership in the Mandelbrot set: two closed-form tests for its largest
//! components, then a bounded run of the quadratic map.

use vstd::prelude::*;
use crate::fixed::ONE;
use crate::point::{
    escaped, exceeds, iterate, lemma_iterate_representable, lemma_orbit_start, mandelbrot_iter,
    norm_sqr, orbit, origin, Point, SpecPoint,
};

verus! {

/// The raw value of one quarter.
pub const QUARTER: i64 = 268435456;

/// Squared radius beyond which a trajectory is known to diverge.
pub const BAILOUT_SQ: u32 = 4;

/// `p = (x - 1/4)^2 + y^2`, in units of `1 / ONE^2`.
pub open spec fn cardioid_p(c: SpecPoint) -> int {
    (c.re - QUARTER) * (c.re - QUARTER) + c.im * c.im
}

/// `t = x - 1/4 + 2p`, in units of `1 / ONE^2`.
pub open spec fn cardioid_t(c: SpecPoint) -> int {
    (c.re - QUARTER) * ONE + 2 * cardioid_p(c)
}

/// Main cardioid: `x < sqrt(p) - 2p + 1/4`. With `t = x - 1/4 + 2p` this is
/// `t < sqrt(p)`, which holds exactly when `t` is negative or `t^2 < p`.
pub open spec fn in_main_cardioid(c: SpecPoint) -> bool {
    let t = cardioid_t(c);
    t < 0 || t * t < cardioid_p(c) * ONE * ONE
}

/// Period-2 bulb: `(x + 1)^2 + y^2 < 1/16`.
pub open spec fn in_period2_bulb(c: SpecPoint) -> bool {
    16 * ((c.re + ONE) * (c.re + ONE) + c.im * c.im) < ONE * ONE
}

/// Whether `c` lies in one of the two components that have a closed form.
pub open spec fn in_sub_mandelbrot(c: SpecPoint) -> bool {
    in_main_cardioid(c) || in_period2_bulb(c)
}

/// Whether none of `z_0, ..., z_n` of the trajectory of `c` has left the disc
/// of radius 2.
pub open spec fn stays_bounded(c: SpecPoint, n: nat) -> bool {
    forall|k: nat| k <= n ==> !exceeds(#[trigger] orbit(c, k), BAILOUT_SQ as int)
}

/// Membership as far as `threshold` steps can tell: in a closed-form
/// component, or not seen to escape.
pub open spec fn in_mandel(c: SpecPoint, threshold: nat) -> bool {
    in_sub_mandelbrot(c) || stays_bounded(c, threshold)
}

/// What the oracle found, and how many steps of the quadratic map it took.
#[derive(Clone, Copy, Debug, PartialEq, Eq, Structural)]
pub struct Membership {
    /// Whether the candidate is taken to be in the set.
    pub in_set: bool,
    /// Steps of the quadratic map that were taken: none for a point of a
    /// closed-form component, else the index of the first point beyond
    /// radius 2, or the threshold if there is none.
    pub iterations: usize,
}

proof fn lemma_square_bound(a: int, b: int)
    by (nonlinear_arith)
    requires
        -b <= a <= b,
    ensures
        0 <= a * a <= b * b,
{
}

/// A point with `p >= 1` is outside the main cardioid.
pub proof fn lemma_cardioid_has_small_p(c: SpecPoint)
    requires
        cardioid_p(c) >= ONE * ONE,
    ensures
        !in_main_cardioid(c),
{
    let u = c.re - QUARTER;
    let y = c.im;
    let s = ONE as int;
    let p = cardioid_p(c);
    let t = cardioid_t(c);
    assert(u * u <= p) by (nonlinear_arith)
        requires
            p == u * u + y * y,
    ;
    assert(u * s + p >= 0) by (nonlinear_arith)
        requires
            u * u <= p,
            s * s <= p,
            s > 0,
    {
        if u < 0 {
            if -u * s > p {
                assert((-u * s) * (-u * s) > p * p);
                assert((-u * s) * (-u * s) == (u * u) * (s * s));
                assert((u * u) * (s * s) <= p * (s * s));
                assert(p * (s * s) <= p * p);
            }
        }
    }
    assert(t * t >= p * s * s) by (nonlinear_arith)
        requires
            t >= p,
            p >= s * s,
            s > 0,
    {
        assert(t * t >= p * p);
        assert(p * p >= p * (s * s));
    }
}

/// A point farther than 2 from the origin is in neither closed-form component.
pub proof fn lemma_far_points_outside_closed_forms(c: SpecPoint)
    requires
        exceeds(c, BAILOUT_SQ as int),
    ensures
        !in_sub_mandelbrot(c),
{
    let x = c.re;
    let y = c.im;
    let q = QUARTER as int;
    let s = ONE as int;
    let n = norm_sqr(c);
    assert(n > 4 * s * s);
    assert(x * x <= n) by (nonlinear_arith)
        requires
            n == x * x + y * y,
    ;
    let p = cardioid_p(c);
    assert(4 * p >= 4 * s * s) by (nonlinear_arith)
        requires
            p == (x - q) * (x - q) + y * y,
            n == x * x + y * y,
            x * x <= n,
            n > 4 * s * s,
            s == 4 * q,
            q > 0,
    {
        assert((x - 4 * q) * (x - 4 * q) >= 0);
        assert(4 * p == 4 * n - 8 * x * q + 4 * q * q);
        assert(8 * x * q <= x * x + 16 * q * q);
    }
    lemma_cardioid_has_small_p(c);
    let b = (x + s) * (x + s) + y * y;
    assert(2 * b > 2 * s * s) by (nonlinear_arith)
        requires
            b == (x + s) * (x + s) + y * y,
            n == x * x + y * y,
            x * x <= n,
            n > 4 * s * s,
            s > 0,
    {
        assert((x + 2 * s) * (x + 2 * s) >= 0);
        assert(2 * b == 2 * n + 4 * x * s + 2 * s * s);
        assert(4 * x * s >= -(x * x) - 4 * s * s);
    }
}

/// A point with a coordinate beyond 2 in modulus is farther than 2 from the
/// origin.
proof fn lemma_outside_box_is_far(c: SpecPoint)
    requires
        c.re > 2 * ONE || c.re < -2 * ONE || c.im > 2 * ONE || c.im < -2 * ONE,
    ensures
        exceeds(c, BAILOUT_SQ as int),
{
    let x = c.re;
    let y = c.im;
    let s = ONE as int;
    assert(x * x + y * y > 4 * s * s) by (nonlinear_arith)
        requires
            x > 2 * s || x < -2 * s || y > 2 * s || y < -2 * s,
            s > 0,
    {
        assert(x * x >= 0);
        assert(y * y >= 0);
        if x > 2 * s {
            assert(x * x > (2 * s) * (2 * s));
        } else if x < -2 * s {
            assert((-x) * (-x) > (2 * s) * (2 * s));
        } else if y > 2 * s {
            assert(y * y > (2 * s) * (2 * s));
        } else {
            assert((-y) * (-y) > (2 * s) * (2 * s));
        }
    }
}

/// Whether `c` lies in the main cardioid or in the period-2 bulb, the two
/// largest components of the set. No step of the quadratic map is taken.
pub fn is_in_sub_mandelbrot(c: Point) -> (out: bool)
    ensures
        out == in_sub_mandelbrot(c@),
{
    let two: i64 = 2 * ONE;
    if c.re > two || c.re < -two || c.im > two || c.im < -two {
        proof {
            lemma_outside_box_is_far(c@);
            lemma_far_points_outside_closed_forms(c@);
        }
        return false;
    }
    let x: i128 = c.re as i128;
    let y: i128 = c.im as i128;
    let one: i128 = ONE as i128;
    let u: i128 = x - (QUARTER as i128);
    let v: i128 = x + one;
    proof {
        lemma_square_bound(u as int, 3 * ONE);
        lemma_square_bound(v as int, 3 * ONE);
        lemma_square_bound(y as int, 2 * ONE);
    }
    let p: i128 = u * u + y * y;
    let unit: i128 = one * one;
    let maincard: bool = if p >= unit {
        proof {
            lemma_cardioid_has_small_p(c@);
        }
        false
    } else {
        assert(-3 * unit <= u * one <= 3 * unit) by (nonlinear_arith)
            requires
                -3 * one <= u <= 3 * one,
                unit == one * one,
                one > 0,
        ;
        let t: i128 = u * one + 2 * p;
        proof {
            lemma_square_bound(t as int, 5 * unit);
            assert(p * one * one == p * unit) by (nonlinear_arith)
                requires
                    unit == one * one,
            ;
        }
        t < 0 || t * t < p * unit
    };
    if maincard {
        return true;
    }
    16 * (v * v + y * y) < unit
}

/// Runs the oracle on `c` and reports the number of steps taken.
///
/// A point of a closed-form component is accepted at once. Otherwise the
/// points `z_0, z_1, ...` are examined in turn, up to `z_threshold`; the first
/// one farther than 2 from the origin rejects `c`, and `iterations` is its
/// index. If there is none, `c` is accepted after `threshold` steps.
pub fn classify(c: Point, threshold: usize) -> (m: Membership)
    ensures
        m.in_set == in_mandel(c@, threshold as nat),
        in_sub_mandelbrot(c@) ==> m.iterations == 0,
        !in_sub_mandelbrot(c@) && m.in_set ==> m.iterations == threshold,
        !m.in_set ==> m.iterations <= threshold
            && exceeds(orbit(c@, m.iterations as nat), BAILOUT_SQ as int)
            && stays_bounded(c@, (m.iterations - 1) as nat),
        exceeds(c@, BAILOUT_SQ as int) && threshold >= 1 ==> !m.in_set && m.iterations == 1,
{
    proof {
        lemma_orbit_start(c@);
        if exceeds(c@, BAILOUT_SQ as int) {
            lemma_far_points_outside_closed_forms(c@);
        }
    }
    if is_in_sub_mandelbrot(c) {
        return Membership { in_set: true, iterations: 0 };
    }
    let mut z = Point { re: 0, im: 0 };
    let mut k: usize = 0;
    loop
        invariant
            k <= threshold,
            z@ == orbit(c@, k as nat),
            !in_sub_mandelbrot(c@),
            orbit(c@, 0) == origin(),
            orbit(c@, 1) == c@,
            forall|j: nat| j < k ==> !exceeds(#[trigger] orbit(c@, j), BAILOUT_SQ as int),
        decreases threshold - k,
    {
        if escaped(z, BAILOUT_SQ) {
            assert(k >= 1);
            return Membership { in_set: false, iterations: k };
        }
        if k == threshold {
            return Membership { in_set: true, iterations: k };
        }
        proof {
            if k == 0 {
                assert(iterate(origin(), c@) == c@);
            } else {
                assert(!exceeds(orbit(c@, 1), BAILOUT_SQ as int));
                lemma_iterate_representable(z@, c@, BAILOUT_SQ as int);
            }
        }
        z = mandelbrot_iter(z, c);
        k = k + 1;
    }
}

/// Whether `c` is taken to be in the Mandelbrot set: it is when it lies in the
/// main cardioid or the period-2 bulb, or when none of `z_0, ..., z_threshold`
/// is farther than 2 from the origin.
pub fn is_in_mandel(c: Point, escape_threshold: usize) -> (out: bool)
    ensures
        out == in_mandel(c@, escape_threshold as nat),
        in_sub_mandelbrot(c@) ==> out,
        exceeds(c@, BAILOUT_SQ as int) && escape_threshold >= 1 ==> !out,
{
    classify(c, escape_threshold).in_set
}

} // verus!
