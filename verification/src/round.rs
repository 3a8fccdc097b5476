//! Rounding of fractional cube coordinates to the lattice.
//!
//! Fractional coordinates are exact: a point of the cube plane is given by
//! integer numerators over one positive denominator, which is what
//! interpolating between lattice points produces.
use vstd::prelude::*;
use vstd::arithmetic::div_mod::{lemma_fundamental_div_mod, lemma_mod_pos_bound};
use crate::hex::{abs, Axial, Hex};

verus! {

/// The integer nearest to `n / d`, for `d > 0`; a tie goes away from zero.
pub open spec fn round_half_away(n: int, d: int) -> int {
    if n >= 0 {
        (2 * n + d) / (2 * d)
    } else {
        -((2 * (-n) + d) / (2 * d))
    }
}

/// A point of the cube plane with rational coordinates `x / den` and
/// `y / den`, and `z = -x - y` over the same denominator: the mathematical
/// model of [`FractionalCube`].
pub struct Fraction {
    pub x: int,
    pub y: int,
    pub den: int,
}

impl Fraction {
    /// Numerator of the implied third cube coordinate.
    pub open spec fn z(self) -> int {
        -self.x - self.y
    }

    /// The lattice point `h` as a fraction over the denominator 1.
    pub open spec fn of(h: Axial) -> Fraction {
        Fraction { x: h.x, y: h.y, den: 1 }
    }

    /// The point `i / n` of the way from `a` to `b`.
    pub open spec fn lerp(a: Axial, b: Axial, i: int, n: int) -> Fraction {
        Fraction { x: a.x * (n - i) + b.x * i, y: a.y * (n - i) + b.y * i, den: n }
    }

    /// The lattice point nearest to `self`, for `den > 0`: each cube
    /// coordinate is rounded by itself, then the one that moved furthest is
    /// set anew so that the three sum to zero again.
    pub open spec fn round(self) -> Axial {
        let rx = round_half_away(self.x, self.den);
        let ry = round_half_away(self.y, self.den);
        let rz = round_half_away(self.z(), self.den);
        let dx = abs(rx * self.den - self.x);
        let dy = abs(ry * self.den - self.y);
        let dz = abs(rz * self.den - self.z());
        if dx > dy && dx > dz {
            Axial { x: -ry - rz, y: ry }
        } else if dy > dz {
            Axial { x: rx, y: -rx - rz }
        } else {
            Axial { x: rx, y: ry }
        }
    }
}

/// The quotient of `m >= 0` by `2 d`, times `2 d`, lies at most `2 d - 1`
/// below `m`.
proof fn lemma_half_step_quotient(m: int, d: int)
    requires
        d > 0,
        m >= 0,
    ensures
        m - 2 * d < 2 * ((m / (2 * d)) * d) <= m,
{
    let q = m / (2 * d);
    lemma_fundamental_div_mod(m, 2 * d);
    lemma_mod_pos_bound(m, 2 * d);
    assert((2 * d) * q == 2 * (q * d)) by (nonlinear_arith);
}

/// Rounding to nearest moves a value by at most one half.
pub proof fn lemma_round_half_away_error(n: int, d: int)
    requires
        d > 0,
    ensures
        -d <= 2 * (round_half_away(n, d) * d - n) <= d,
{
    if n >= 0 {
        lemma_half_step_quotient(2 * n + d, d);
    } else {
        let q = (2 * (-n) + d) / (2 * d);
        lemma_half_step_quotient(2 * (-n) + d, d);
        assert((-q) * d == -(q * d)) by (nonlinear_arith);
    }
}

/// Rounding an integer multiple of the denominator gives it back.
pub proof fn lemma_round_half_away_exact(q: int, d: int)
    requires
        d > 0,
    ensures
        round_half_away(q * d, d) == q,
{
    let n = q * d;
    let r = round_half_away(n, d);
    lemma_round_half_away_error(n, d);
    let k = r - q;
    assert(r * d - n == k * d) by (nonlinear_arith)
        requires
            n == q * d,
            k == r - q,
    ;
    assert(k == 0) by (nonlinear_arith)
        requires
            d > 0,
            -d <= 2 * (k * d) <= d,
    ;
}

/// Rounding moves each of the three cube coordinates by less than one.
pub proof fn lemma_round_error(f: Fraction)
    requires
        f.den > 0,
    ensures
        abs(f.round().x * f.den - f.x) < f.den,
        abs(f.round().y * f.den - f.y) < f.den,
        abs(f.round().z() * f.den - f.z()) < f.den,
{
    let d = f.den;
    let rx = round_half_away(f.x, d);
    let ry = round_half_away(f.y, d);
    let rz = round_half_away(f.z(), d);
    lemma_round_half_away_error(f.x, d);
    lemma_round_half_away_error(f.y, d);
    lemma_round_half_away_error(f.z(), d);
    let ex = rx * d - f.x;
    let ey = ry * d - f.y;
    let ez = rz * d - f.z();
    let s = rx + ry + rz;
    assert(s * d == rx * d + ry * d + rz * d) by (nonlinear_arith)
        requires
            s == rx + ry + rz,
    ;
    assert(ex + ey + ez == s * d);
    assert(-1 <= s <= 1) by (nonlinear_arith)
        requires
            d > 0,
            -3 * d <= 2 * (s * d) <= 3 * d,
    ;
    assert(s == -1 ==> s * d == -d) by (nonlinear_arith);
    assert(s == 0 ==> s * d == 0) by (nonlinear_arith);
    assert(s == 1 ==> s * d == d) by (nonlinear_arith);
    let r = f.round();
    assert((-ry - rz) * d == -(ry * d) - rz * d) by (nonlinear_arith);
    assert((-rx - rz) * d == -(rx * d) - rz * d) by (nonlinear_arith);
    assert((-rx - ry) * d == -(rx * d) - ry * d) by (nonlinear_arith);
    assert(r.z() * d == -(r.x * d) - r.y * d) by (nonlinear_arith)
        requires
            r.z() == -r.x - r.y,
    ;
}

/// Rounding a lattice point, written over any denominator, gives the point
/// back.
pub proof fn lemma_round_lattice(h: Axial, d: int)
    requires
        d > 0,
    ensures
        (Fraction { x: h.x * d, y: h.y * d, den: d }).round() == h,
{
    lemma_round_half_away_exact(h.x, d);
    lemma_round_half_away_exact(h.y, d);
    lemma_round_half_away_exact(-h.x - h.y, d);
    assert((-h.x - h.y) * d == -(h.x * d) - h.y * d) by (nonlinear_arith);
}

/// A lattice point turned into a fraction and rounded is the point itself.
pub proof fn lemma_round_of(h: Axial)
    ensures
        Fraction::of(h).round() == h,
{
    lemma_round_lattice(h, 1);
}

/// Whether the cube vector `(x, y, -x - y) / d` lies in the closed cell
/// around the origin: no two of its coordinates differ by more than one.
pub open spec fn in_cell(x: int, y: int, d: int) -> bool {
    &&& abs(x - y) <= d
    &&& abs(x + 2 * y) <= d
    &&& abs(2 * x + y) <= d
}

/// Whether the cube vector `(x, y, -x - y) / d` lies inside the cell around
/// the origin: any two of its coordinates differ by less than one.
pub open spec fn inside_cell(x: int, y: int, d: int) -> bool {
    &&& abs(x - y) < d
    &&& abs(x + 2 * y) < d
    &&& abs(2 * x + y) < d
}

/// A value less than one away from the integer `q` rounds to `q` or to one
/// of the two integers next to it, and to those only from half way on.
proof fn lemma_round_half_away_near(q: int, e: int, d: int)
    requires
        d > 0,
        -d < e < d,
    ensures
        ({
            let r = round_half_away(q * d + e, d);
            &&& q - 1 <= r <= q + 1
            &&& r == q + 1 ==> 2 * e >= d && r * d - (q * d + e) == d - e
            &&& r == q - 1 ==> 2 * e <= -d && r * d - (q * d + e) == -d - e
            &&& r == q ==> -d <= 2 * e <= d && r * d - (q * d + e) == -e
        }),
{
    let n = q * d + e;
    let r = round_half_away(n, d);
    lemma_round_half_away_error(n, d);
    let k = r - q;
    assert(r * d - n == k * d - e) by (nonlinear_arith)
        requires
            n == q * d + e,
            k == r - q,
    ;
    assert(-1 <= k <= 1) by (nonlinear_arith)
        requires
            d > 0,
            -d < e < d,
            -d <= 2 * (k * d - e) <= d,
    ;
    assert(k == 1 ==> k * d == d) by (nonlinear_arith);
    assert(k == 0 ==> k * d == 0) by (nonlinear_arith);
    assert(k == -1 ==> k * d == -d) by (nonlinear_arith);
}

/// A point inside the cell of the lattice point `h` rounds to `h`.
pub proof fn lemma_round_inside_cell(h: Axial, ex: int, ey: int, d: int)
    requires
        d > 0,
        inside_cell(ex, ey, d),
    ensures
        (Fraction { x: h.x * d + ex, y: h.y * d + ey, den: d }).round() == h,
{
    let ez = -ex - ey;
    let f = Fraction { x: h.x * d + ex, y: h.y * d + ey, den: d };
    assert(f.z() == (-h.x - h.y) * d + ez) by (nonlinear_arith)
        requires
            f.z() == -(h.x * d + ex) - (h.y * d + ey),
            ez == -ex - ey,
    ;
    lemma_round_half_away_near(h.x, ex, d);
    lemma_round_half_away_near(h.y, ey, d);
    lemma_round_half_away_near(-h.x - h.y, ez, d);
}

/// Rounding moves a point no further than to the border of the cell of the
/// lattice point it gives.
pub proof fn lemma_round_stays_in_cell(f: Fraction)
    requires
        f.den > 0,
    ensures
        in_cell(f.round().x * f.den - f.x, f.round().y * f.den - f.y, f.den),
{
    let d = f.den;
    let rx = round_half_away(f.x, d);
    let ry = round_half_away(f.y, d);
    let rz = round_half_away(f.z(), d);
    lemma_round_half_away_error(f.x, d);
    lemma_round_half_away_error(f.y, d);
    lemma_round_half_away_error(f.z(), d);
    let ex = rx * d - f.x;
    let ey = ry * d - f.y;
    let ez = rz * d - f.z();
    let s = rx + ry + rz;
    assert(s * d == rx * d + ry * d + rz * d) by (nonlinear_arith)
        requires
            s == rx + ry + rz,
    ;
    assert(-1 <= s <= 1) by (nonlinear_arith)
        requires
            d > 0,
            -3 * d <= 2 * (s * d) <= 3 * d,
    ;
    assert(s == -1 ==> s * d == -d) by (nonlinear_arith);
    assert(s == 0 ==> s * d == 0) by (nonlinear_arith);
    assert(s == 1 ==> s * d == d) by (nonlinear_arith);
    assert((-ry - rz) * d == -(ry * d) - rz * d) by (nonlinear_arith);
    assert((-rx - rz) * d == -(rx * d) - rz * d) by (nonlinear_arith);
}

/// Two values that add up to a whole number lie equally far from the whole
/// numbers nearest to them.
proof fn lemma_round_errors_of_complements(u: int, w: int, k: int, d: int)
    requires
        d > 0,
        u + w == k * d,
    ensures
        abs(round_half_away(u, d) * d - u) == abs(round_half_away(w, d) * d - w),
{
    let ru = round_half_away(u, d);
    let rw = round_half_away(w, d);
    lemma_round_half_away_error(u, d);
    lemma_round_half_away_error(w, d);
    let s = ru + rw - k;
    assert(s * d == ru * d + rw * d - k * d) by (nonlinear_arith)
        requires
            s == ru + rw - k,
    ;
    assert(-1 <= s <= 1) by (nonlinear_arith)
        requires
            d > 0,
            -2 * d <= 2 * (s * d) <= 2 * d,
    ;
    assert(s == -1 ==> s * d == -d) by (nonlinear_arith);
    assert(s == 0 ==> s * d == 0) by (nonlinear_arith);
    assert(s == 1 ==> s * d == d) by (nonlinear_arith);
}

/// Of two values less than one apart, the lower rounds to the same whole
/// number as the higher or to the one below it.
pub(crate) proof fn lemma_round_half_away_steps(u: int, v: int, d: int)
    requires
        d > 0,
        0 <= u - v < d,
    ensures
        round_half_away(u, d) - 1 <= round_half_away(v, d) <= round_half_away(u, d),
{
    let r = round_half_away(u, d);
    let s = round_half_away(v, d);
    lemma_round_half_away_error(u, d);
    lemma_round_half_away_error(v, d);
    let k = r - s;
    assert(k * d == r * d - s * d) by (nonlinear_arith)
        requires
            k == r - s,
    ;
    if u != v {
        assert(-1 < k < 2) by (nonlinear_arith)
            requires
                d > 0,
                -d < k * d < 2 * d,
        ;
    }
}

/// A point whose `x` coordinate is the whole number `x` rounds to `x` and
/// its own `y` coordinate rounded.
pub(crate) proof fn lemma_round_exact_x(f: Fraction, x: int)
    requires
        f.den > 0,
        f.x == x * f.den,
    ensures
        f.round() == (Axial { x, y: round_half_away(f.y, f.den) }),
{
    lemma_round_half_away_exact(x, f.den);
    assert(f.y + f.z() == (-x) * f.den) by (nonlinear_arith)
        requires
            f.x == x * f.den,
            f.z() == -f.x - f.y,
    ;
    lemma_round_errors_of_complements(f.y, f.z(), -x, f.den);
}

/// A point whose `y` coordinate is the whole number `y` rounds to its own
/// `x` coordinate rounded and `y`.
pub(crate) proof fn lemma_round_exact_y(f: Fraction, y: int)
    requires
        f.den > 0,
        f.y == y * f.den,
    ensures
        f.round() == (Axial { x: round_half_away(f.x, f.den), y }),
{
    lemma_round_half_away_exact(y, f.den);
    assert(f.x + f.z() == (-y) * f.den) by (nonlinear_arith)
        requires
            f.y == y * f.den,
            f.z() == -f.x - f.y,
    ;
    lemma_round_errors_of_complements(f.x, f.z(), -y, f.den);
}

/// A point whose `z` coordinate is the whole number `z` rounds to its own
/// `x` coordinate rounded and the `y` coordinate that goes with the two.
pub(crate) proof fn lemma_round_exact_z(f: Fraction, z: int)
    requires
        f.den > 0,
        f.z() == z * f.den,
    ensures
        f.round() == (Axial {
            x: round_half_away(f.x, f.den),
            y: -round_half_away(f.x, f.den) - z,
        }),
{
    let d = f.den;
    let rx = round_half_away(f.x, d);
    let ry = round_half_away(f.y, d);
    lemma_round_half_away_exact(z, d);
    assert(f.x + f.y == (-z) * d) by (nonlinear_arith)
        requires
            f.z() == z * d,
            f.z() == -f.x - f.y,
    ;
    lemma_round_errors_of_complements(f.x, f.y, -z, d);
    if rx * d - f.x == 0 && ry * d - f.y == 0 {
        let t = rx + ry + z;
        assert(t * d == 0) by (nonlinear_arith)
            requires
                t == rx + ry + z,
                rx * d == f.x,
                ry * d == f.y,
                f.x + f.y == (-z) * d,
        ;
        assert(t == 0) by (nonlinear_arith)
            requires
                d > 0,
                t * d == 0,
        ;
    }
}

/// A point of the cube plane with rational coordinates: `x / den`,
/// `y / den` and, implied, `z = -x - y` over the same denominator.
#[derive(Debug, Copy, Clone, PartialEq, Eq, Structural)]
pub struct FractionalCube {
    /// Numerator of the `x` coordinate
    pub x: i64,
    /// Numerator of the `y` coordinate
    pub y: i64,
    /// The common denominator, which must be positive
    pub den: i64,
}

impl View for FractionalCube {
    type V = Fraction;

    open spec fn view(&self) -> Fraction {
        Fraction { x: self.x as int, y: self.y as int, den: self.den as int }
    }
}

impl FractionalCube {
    /// Whether the denominator is positive.
    pub open spec fn wf(self) -> bool {
        self.den > 0
    }

    /// The point `x / den`, `y / den`.
    pub fn new(x: i64, y: i64, den: i64) -> (r: FractionalCube)
        requires
            den > 0,
        ensures
            r.wf(),
            r@ == (Fraction { x: x as int, y: y as int, den: den as int }),
    {
        FractionalCube { x, y, den }
    }
}

/// Largest magnitude that the wide rounding takes: two to the power 120.
pub(crate) const WIDE_LIMIT: i128 = 0x0100_0000_0000_0000_0000_0000_0000_0000i128;

/// The integer nearest to `n / d`, a tie going away from zero.
fn round_ratio(n: i128, d: i128) -> (r: i128)
    requires
        0 < d <= WIDE_LIMIT,
        -WIDE_LIMIT <= n <= WIDE_LIMIT,
    ensures
        r == round_half_away(n as int, d as int),
        -d <= 2 * (r * d - n) <= d,
{
    proof {
        lemma_round_half_away_error(n as int, d as int);
    }
    if n >= 0 {
        (2 * n + d) / (2 * d)
    } else {
        -((2 * (-n) + d) / (2 * d))
    }
}

/// Absolute value of the difference between `q * d` and `n`, where `q` is
/// `n / d` rounded.
fn scaled_error(q: i128, n: i128, d: i128) -> (r: i128)
    requires
        0 < d <= WIDE_LIMIT,
        -WIDE_LIMIT <= n <= WIDE_LIMIT,
        -d <= 2 * (q * d - n) <= d,
    ensures
        r == abs(q * d - n),
{
    assert(-WIDE_LIMIT - WIDE_LIMIT <= q * d <= WIDE_LIMIT + WIDE_LIMIT);
    let e: i128 = q * d - n;
    if e < 0 {
        -e
    } else {
        e
    }
}

/// The lattice point nearest to `(x / den, y / den)`.
pub(crate) fn round_wide(x: i128, y: i128, den: i128) -> (r: Hex)
    requires
        0 < den < WIDE_LIMIT / 2,
        -WIDE_LIMIT / 2 <= x <= WIDE_LIMIT / 2,
        -WIDE_LIMIT / 2 <= y <= WIDE_LIMIT / 2,
        (Fraction { x: x as int, y: y as int, den: den as int }).round().fits(),
    ensures
        r@ == (Fraction { x: x as int, y: y as int, den: den as int }).round(),
{
    let z: i128 = -x - y;
    let rx = round_ratio(x, den);
    let ry = round_ratio(y, den);
    let rz = round_ratio(z, den);
    let dx = scaled_error(rx, x, den);
    let dy = scaled_error(ry, y, den);
    let dz = scaled_error(rz, z, den);
    if dx > dy && dx > dz {
        Hex { x: (-ry - rz) as i32, y: ry as i32 }
    } else if dy > dz {
        Hex { x: rx as i32, y: (-rx - rz) as i32 }
    } else {
        Hex { x: rx as i32, y: ry as i32 }
    }
}

impl Hex {
    /// `self` as a point with fractional coordinates, over the denominator
    /// 1.
    pub fn to_fractional_cube(self) -> (r: FractionalCube)
        ensures
            r.wf(),
            r@ == Fraction::of(self@),
    {
        FractionalCube { x: self.x as i64, y: self.y as i64, den: 1 }
    }

    /// The hexagon nearest to the fractional point `f`: each cube coordinate
    /// is rounded by itself, then the one that moved furthest is set anew so
    /// that the three sum to zero again.
    pub fn round(f: FractionalCube) -> (r: Hex)
        requires
            f.wf(),
            f@.round().fits(),
        ensures
            r@ == f@.round(),
    {
        round_wide(f.x as i128, f.y as i128, f.den as i128)
    }
}

} // verus!
