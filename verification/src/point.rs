//! Points of the complex plane and the quadratic map `z -> z^2 + c`.

use vstd::prelude::*;
use crate::fixed::{trunc_div, Fixed, ONE};

verus! {

/// A point of the plane with unbounded raw coordinates: what a [`Point`]
/// stands for in contracts, and what the iterates of the quadratic map are
/// before anyone asks whether they still fit a machine word.
pub struct SpecPoint {
    /// Real part, in units of `1 / ONE`.
    pub re: int,
    /// Imaginary part, in units of `1 / ONE`.
    pub im: int,
}

/// A point of the complex plane, by its fixed-point coordinates.
#[derive(Clone, Copy, Debug, PartialEq, Eq, Structural)]
pub struct Point {
    /// Real part.
    pub re: Fixed,
    /// Imaginary part.
    pub im: Fixed,
}

impl View for Point {
    type V = SpecPoint;

    open spec fn view(&self) -> SpecPoint {
        SpecPoint { re: self.re as int, im: self.im as int }
    }
}

/// The origin, where every trajectory starts.
pub open spec fn origin() -> SpecPoint {
    SpecPoint { re: 0, im: 0 }
}

/// Whether both coordinates fit a [`Fixed`].
pub open spec fn representable(z: SpecPoint) -> bool {
    &&& i64::MIN <= z.re <= i64::MAX
    &&& i64::MIN <= z.im <= i64::MAX
}

/// Squared modulus, in units of `1 / ONE^2`.
pub open spec fn norm_sqr(z: SpecPoint) -> int {
    z.re * z.re + z.im * z.im
}

/// Whether `|z|^2` is strictly greater than the whole number `radius_sq`.
pub open spec fn exceeds(z: SpecPoint, radius_sq: int) -> bool {
    norm_sqr(z) > radius_sq * ONE * ONE
}

/// One step of the quadratic map: `z^2 + c`, each coordinate of the square
/// rounded toward zero.
pub open spec fn iterate(z: SpecPoint, c: SpecPoint) -> SpecPoint {
    SpecPoint {
        re: trunc_div(z.re * z.re - z.im * z.im, ONE as int) + c.re,
        im: trunc_div(z.re * z.im + z.im * z.re, ONE as int) + c.im,
    }
}

/// The `k`-th point of the trajectory of `c`: `z_0 = 0`, `z_{k+1} = z_k^2 + c`.
pub open spec fn orbit(c: SpecPoint, k: nat) -> SpecPoint
    decreases k,
{
    if k == 0 {
        origin()
    } else {
        iterate(orbit(c, (k - 1) as nat), c)
    }
}

/// Product of two complex numbers with integer coordinates, by
/// `num_complex::Complex<i128>`'s `Mul`: the real part is
/// `a.re * b.re - a.im * b.im`, the imaginary part `a.re * b.im + a.im * b.re`.
/// The four products of 64-bit coordinates always fit 128 bits; their
/// difference and their sum are asked to.
#[verifier::external_body]
fn complex_mul(a: Point, b: Point) -> (p: (i128, i128))
    requires
        i128::MIN <= a.re * b.re - a.im * b.im <= i128::MAX,
        i128::MIN <= a.re * b.im + a.im * b.re <= i128::MAX,
    ensures
        p.0 == a.re * b.re - a.im * b.im,
        p.1 == a.re * b.im + a.im * b.re,
{
    let x = num_complex::Complex::new(a.re as i128, a.im as i128);
    let y = num_complex::Complex::new(b.re as i128, b.im as i128);
    let p = x * y;
    (p.re, p.im)
}

/// Squared modulus of a complex number with integer coordinates, by
/// `num_complex::Complex<i128>::norm_sqr`: `re * re + im * im`, which is asked
/// to fit 128 bits.
#[verifier::external_body]
fn complex_norm_sqr(z: Point) -> (n: i128)
    requires
        z.re * z.re + z.im * z.im <= i128::MAX,
    ensures
        n == z.re * z.re + z.im * z.im,
{
    num_complex::Complex::new(z.re as i128, z.im as i128).norm_sqr()
}

/// Bounds on the products of two 64-bit integers.
proof fn lemma_product_bounds(a: int, b: int)
    by (nonlinear_arith)
    requires
        i64::MIN <= a <= i64::MAX,
        i64::MIN <= b <= i64::MAX,
    ensures
        -0x4000_0000_0000_0000_0000_0000_0000_0000 <= a * b
            <= 0x4000_0000_0000_0000_0000_0000_0000_0000,
        a * b == 0x4000_0000_0000_0000_0000_0000_0000_0000 ==> a == i64::MIN && b == i64::MIN,
        0 <= a * a,
{
}

/// Bounds under which the next point of a trajectory fits a [`Point`]: `z`
/// and `c` in a disc whose squared radius is a 32-bit whole number.
pub proof fn lemma_iterate_representable(z: SpecPoint, c: SpecPoint, radius_sq: int)
    requires
        0 <= radius_sq <= u32::MAX,
        !exceeds(z, radius_sq),
        !exceeds(c, radius_sq),
    ensures
        representable(iterate(z, c)),
{
    let s = ONE as int;
    let bound = 0xffff_ffff * s * s;
    assert(radius_sq * s * s <= bound) by (nonlinear_arith)
        requires
            0 <= radius_sq <= 0xffff_ffff,
            bound == 0xffff_ffff * s * s,
            s > 0,
    {
        assert(radius_sq * s <= 0xffff_ffff * s);
    }
    let a = z.re * z.re - z.im * z.im;
    let b = z.re * z.im + z.im * z.re;
    assert(-bound <= a <= bound && -bound <= b <= bound) by (nonlinear_arith)
        requires
            z.re * z.re + z.im * z.im <= bound,
            a == z.re * z.re - z.im * z.im,
            b == z.re * z.im + z.im * z.re,
    {
        assert(z.re * z.re >= 0);
        assert(z.im * z.im >= 0);
        assert((z.re - z.im) * (z.re - z.im) >= 0);
        assert((z.re + z.im) * (z.re + z.im) >= 0);
    }
    let limit = 0x1_0000_0000_0000int;
    assert(-limit < c.re < limit && -limit < c.im < limit) by (nonlinear_arith)
        requires
            c.re * c.re + c.im * c.im <= bound,
            bound < limit * limit,
            limit > 0,
    {
        assert(c.re * c.re >= 0);
        assert(c.im * c.im >= 0);
        if c.re >= limit {
            assert(c.re * c.re >= limit * limit);
        }
        if -c.re >= limit {
            assert((-c.re) * (-c.re) >= limit * limit);
        }
        if c.im >= limit {
            assert(c.im * c.im >= limit * limit);
        }
        if -c.im >= limit {
            assert((-c.im) * (-c.im) >= limit * limit);
        }
    }
}

/// The trajectory of `c` starts `0, c`.
pub proof fn lemma_orbit_start(c: SpecPoint)
    ensures
        orbit(c, 0) == origin(),
        orbit(c, 1) == c,
{
    reveal_with_fuel(orbit, 2);
    let z = iterate(origin(), c);
    assert(z.re == c.re);
    assert(z.im == c.im);
}

/// Whether `|z|^2` is strictly greater than `radius_sq`.
pub fn escaped(z: Point, radius_sq: u32) -> (out: bool)
    ensures
        out == exceeds(z@, radius_sq as int),
{
    proof {
        lemma_product_bounds(z.re as int, z.re as int);
        lemma_product_bounds(z.im as int, z.im as int);
        assert(radius_sq * ONE * ONE <= 0xffff_ffff * ONE * ONE) by (nonlinear_arith)
            requires
                radius_sq <= 0xffff_ffff,
        ;
    }
    if z.re == i64::MIN && z.im == i64::MIN {
        return true;
    }
    let limit: i128 = (radius_sq as i128) * (ONE as i128) * (ONE as i128);
    complex_norm_sqr(z) > limit
}

/// The next point of a trajectory: `z^2 + c`.
///
/// The result has to fit the coordinates of a [`Point`]; it does whenever `z`
/// and `c` lie in a disc of squared radius at most `u32::MAX`
/// ([`lemma_iterate_representable`]).
pub fn mandelbrot_iter(z: Point, c: Point) -> (next: Point)
    requires
        representable(iterate(z@, c@)),
    ensures
        next@ == iterate(z@, c@),
{
    proof {
        lemma_product_bounds(z.re as int, z.im as int);
        lemma_product_bounds(z.re as int, z.re as int);
        lemma_product_bounds(z.im as int, z.im as int);
        assert(z.im * z.re == z.re * z.im) by (nonlinear_arith);
    }
    let sq = complex_mul(z, z);
    let re: i128 = sq.0 / (ONE as i128) + (c.re as i128);
    let im: i128 = sq.1 / (ONE as i128) + (c.im as i128);
    Point { re: re as i64, im: im as i64 }
}

} // verus!
