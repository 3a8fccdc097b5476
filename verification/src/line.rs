//! Straight lines between hexagons: the points between the two ends at
//! equal steps, each rounded to the lattice.
use vstd::prelude::*;
use crate::hex::{abs, views, Axial, Hex};
use crate::round::{
    lemma_round_error, lemma_round_exact_x, lemma_round_exact_y, lemma_round_exact_z,
    lemma_round_half_away_exact, lemma_round_half_away_steps, lemma_round_inside_cell,
    lemma_round_lattice, lemma_round_stays_in_cell, round_half_away, round_wide, Fraction,
};

verus! {

/// The point at position `i` of the line from `a` to `b`: the point `i /
/// n` of the way, rounded to the lattice, where `n` is the distance from `a`
/// to `b`.
pub open spec fn line_point(a: Axial, b: Axial, i: int) -> Axial {
    let n = a.distance(b);
    if n == 0 {
        a
    } else {
        Fraction::lerp(a, b, i, n).round()
    }
}

/// The line from `a` to `b`: one point for each distance from `a`.
pub open spec fn line_seq(a: Axial, b: Axial) -> Seq<Axial> {
    Seq::new((a.distance(b) + 1) as nat, |i: int| line_point(a, b, i))
}

/// A point that, scaled by `n`, lies less than `n` in each cube coordinate
/// from `k` times a vector of length `n`, has length `k`.
proof fn lemma_length_by_scaled_neighbor(u: Axial, v: Axial, n: int, k: int)
    requires
        n > 0,
        k >= 0,
        v.length() == n,
        abs(u.x * n - v.x * k) < n,
        abs(u.y * n - v.y * k) < n,
        abs((u.x + u.y) * n - (v.x + v.y) * k) < n,
    ensures
        u.length() == k,
{
    u.lemma_times_scales_length(n);
    v.lemma_times_scales_length(k);
    let l = u.length();
    let su = u.times(n);
    let sv = v.times(k);
    assert((u.x + u.y) * n == u.x * n + u.y * n) by (nonlinear_arith);
    assert((v.x + v.y) * k == v.x * k + v.y * k) by (nonlinear_arith);
    assert(su.length() == l * n);
    assert(sv.length() == n * k);
    assert(su.length() < sv.length() + n);
    assert(su.length() > sv.length() - n);
    assert(l == k) by (nonlinear_arith)
        requires
            n > 0,
            l * n < n * k + n,
            l * n > n * k - n,
    ;
}

/// A line starts at `a` and ends at `b`.
pub proof fn lemma_line_ends(a: Axial, b: Axial)
    ensures
        line_seq(a, b).len() == a.distance(b) + 1,
        line_seq(a, b).first() == a,
        line_seq(a, b).last() == b,
{
    let n = a.distance(b);
    if n > 0 {
        assert(a.x * (n - 0) + b.x * 0 == a.x * n && a.y * (n - 0) + b.y * 0 == a.y * n)
            by (nonlinear_arith);
        assert(a.x * (n - n) + b.x * n == b.x * n && a.y * (n - n) + b.y * n == b.y * n)
            by (nonlinear_arith);
        lemma_round_lattice(a, n);
        lemma_round_lattice(b, n);
    }
}

/// The point at position `i` of a line lies at distance `i` from its start
/// and at the remaining distance from its end.
pub proof fn lemma_line_point_distance(a: Axial, b: Axial, i: int)
    requires
        0 <= i <= a.distance(b),
    ensures
        a.distance(line_point(a, b, i)) == i,
        line_point(a, b, i).distance(b) == a.distance(b) - i,
{
    let n = a.distance(b);
    if n > 0 {
        let f = Fraction::lerp(a, b, i, n);
        let p = f.round();
        lemma_round_error(f);
        let u = p.minus(a);
        let v = b.minus(a);
        assert(u.x * n - v.x * i == p.x * n - f.x) by (nonlinear_arith)
            requires
                u.x == p.x - a.x,
                v.x == b.x - a.x,
                f.x == a.x * (n - i) + b.x * i,
        ;
        assert(u.y * n - v.y * i == p.y * n - f.y) by (nonlinear_arith)
            requires
                u.y == p.y - a.y,
                v.y == b.y - a.y,
                f.y == a.y * (n - i) + b.y * i,
        ;
        assert((u.x + u.y) * n - (v.x + v.y) * i == -(p.z() * n - f.z())) by (nonlinear_arith)
            requires
                u.x == p.x - a.x,
                v.x == b.x - a.x,
                f.x == a.x * (n - i) + b.x * i,
                u.y == p.y - a.y,
                v.y == b.y - a.y,
                f.y == a.y * (n - i) + b.y * i,
                p.z() == -p.x - p.y,
                f.z() == -f.x - f.y,
        ;
        a.lemma_distance_basics(b);
        lemma_length_by_scaled_neighbor(u, v, n, i);
        a.lemma_distance_basics(p);

        let w = p.minus(b);
        let t = a.minus(b);
        let j = n - i;
        assert(w.x * n - t.x * j == p.x * n - f.x) by (nonlinear_arith)
            requires
                w.x == p.x - b.x,
                t.x == a.x - b.x,
                j == n - i,
                f.x == a.x * (n - i) + b.x * i,
        ;
        assert(w.y * n - t.y * j == p.y * n - f.y) by (nonlinear_arith)
            requires
                w.y == p.y - b.y,
                t.y == a.y - b.y,
                j == n - i,
                f.y == a.y * (n - i) + b.y * i,
        ;
        assert((w.x + w.y) * n - (t.x + t.y) * j == -(p.z() * n - f.z())) by (nonlinear_arith)
            requires
                w.x == p.x - b.x,
                t.x == a.x - b.x,
                w.y == p.y - b.y,
                t.y == a.y - b.y,
                j == n - i,
                f.x == a.x * (n - i) + b.x * i,
                f.y == a.y * (n - i) + b.y * i,
                p.z() == -p.x - p.y,
                f.z() == -f.x - f.y,
        ;
        lemma_length_by_scaled_neighbor(w, t, n, j);
    }
}

/// No hexagon occurs twice in a line; the two ends occur once each.
pub proof fn lemma_line_distinct(a: Axial, b: Axial, i: int, j: int)
    requires
        0 <= i < j < line_seq(a, b).len(),
    ensures
        line_seq(a, b)[i] != line_seq(a, b)[j],
{
    lemma_line_point_distance(a, b, i);
    lemma_line_point_distance(a, b, j);
}

/// The point at distance `r` from `c` beyond `h`: the point of the ray
/// from `c` through `h` at `r` times the distance of `h`, rounded.
pub open spec fn ray_target(c: Axial, h: Axial, r: int) -> Axial {
    let k = c.distance(h);
    if k == r {
        h
    } else {
        (Fraction { x: c.x * k + (h.x - c.x) * r, y: c.y * k + (h.y - c.y) * r, den: k }).round()
    }
}

/// Every hexagon `h` other than `c` within distance `r` of `c` lies on the
/// line from `c` to a hexagon at distance `r`, namely [`ray_target`], at
/// the position of its own distance from `c`.
pub proof fn lemma_ray_through(c: Axial, h: Axial, r: int)
    requires
        0 < c.distance(h) <= r,
    ensures
        c.distance(ray_target(c, h, r)) == r,
        line_point(c, ray_target(c, h, r), c.distance(h)) == h,
{
    let k = c.distance(h);
    let t = ray_target(c, h, r);
    if k == r {
        assert(c.x * (r - r) + h.x * r == h.x * r && c.y * (r - r) + h.y * r == h.y * r)
            by (nonlinear_arith);
        lemma_round_lattice(h, r);
    } else {
        let f = Fraction { x: c.x * k + (h.x - c.x) * r, y: c.y * k + (h.y - c.y) * r, den: k };
        lemma_round_error(f);
        lemma_round_stays_in_cell(f);
        let ex = t.x * k - f.x;
        let ey = t.y * k - f.y;
        let u = t.minus(c);
        let v = h.minus(c);
        assert(u.x * k - v.x * r == ex) by (nonlinear_arith)
            requires
                u.x == t.x - c.x,
                v.x == h.x - c.x,
                ex == t.x * k - (c.x * k + (h.x - c.x) * r),
        ;
        assert(u.y * k - v.y * r == ey) by (nonlinear_arith)
            requires
                u.y == t.y - c.y,
                v.y == h.y - c.y,
                ey == t.y * k - (c.y * k + (h.y - c.y) * r),
        ;
        assert((u.x + u.y) * k - (v.x + v.y) * r == ex + ey) by (nonlinear_arith)
            requires
                u.x * k - v.x * r == ex,
                u.y * k - v.y * r == ey,
        ;
        assert(t.z() * k - f.z() == -(ex + ey)) by (nonlinear_arith)
            requires
                t.z() == -t.x - t.y,
                f.z() == -f.x - f.y,
                ex == t.x * k - f.x,
                ey == t.y * k - f.y,
        ;
        c.lemma_distance_basics(h);
        lemma_length_by_scaled_neighbor(u, v, k, r);
        c.lemma_distance_basics(t);
        assert(c.distance(t) == r);
        assert(c.x * (r - k) + t.x * k == h.x * r + ex) by (nonlinear_arith)
            requires
                ex == t.x * k - (c.x * k + (h.x - c.x) * r),
        ;
        assert(c.y * (r - k) + t.y * k == h.y * r + ey) by (nonlinear_arith)
            requires
                ey == t.y * k - (c.y * k + (h.y - c.y) * r),
        ;
        lemma_round_inside_cell(h, ex, ey, r);
    }
}

/// Each hexagon of a line is a neighbor of the next: a line is a walk of
/// as many steps as its two ends are apart.
pub proof fn lemma_line_step(a: Axial, b: Axial, i: int)
    requires
        0 <= i < a.distance(b),
    ensures
        line_point(a, b, i).is_neighbor(line_point(a, b, i + 1)),
{
    let n = a.distance(b);
    let f = Fraction::lerp(a, b, i, n);
    let g = Fraction::lerp(a, b, i + 1, n);
    let dx = b.x - a.x;
    let dy = b.y - a.y;
    assert(f.x == a.x * n + dx * i && g.x == f.x + dx && f.y == a.y * n + dy * i && g.y == f.y
        + dy) by (nonlinear_arith)
        requires
            f.x == a.x * (n - i) + b.x * i,
            g.x == a.x * (n - (i + 1)) + b.x * (i + 1),
            f.y == a.y * (n - i) + b.y * i,
            g.y == a.y * (n - (i + 1)) + b.y * (i + 1),
            dx == b.x - a.x,
            dy == b.y - a.y,
    ;
    let az = -a.x - a.y;
    if dx == n {
        assert(f.x == (a.x + i) * n && g.x == (a.x + (i + 1)) * n) by (nonlinear_arith)
            requires
                f.x == a.x * n + dx * i,
                g.x == f.x + dx,
                dx == n,
        ;
        lemma_round_exact_x(f, a.x + i);
        lemma_round_exact_x(g, a.x + (i + 1));
        lemma_line_step_rounding(f.y, dy, a.y, i, n);
    } else if dx == -n {
        assert(f.x == (a.x - i) * n && g.x == (a.x - (i + 1)) * n) by (nonlinear_arith)
            requires
                f.x == a.x * n + dx * i,
                g.x == f.x + dx,
                dx == -n,
        ;
        lemma_round_exact_x(f, a.x - i);
        lemma_round_exact_x(g, a.x - (i + 1));
        lemma_line_step_rounding(f.y, dy, a.y, i, n);
    } else if dy == n {
        assert(f.y == (a.y + i) * n && g.y == (a.y + (i + 1)) * n) by (nonlinear_arith)
            requires
                f.y == a.y * n + dy * i,
                g.y == f.y + dy,
                dy == n,
        ;
        lemma_round_exact_y(f, a.y + i);
        lemma_round_exact_y(g, a.y + (i + 1));
        lemma_line_step_rounding(f.x, dx, a.x, i, n);
    } else if dy == -n {
        assert(f.y == (a.y - i) * n && g.y == (a.y - (i + 1)) * n) by (nonlinear_arith)
            requires
                f.y == a.y * n + dy * i,
                g.y == f.y + dy,
                dy == -n,
        ;
        lemma_round_exact_y(f, a.y - i);
        lemma_round_exact_y(g, a.y - (i + 1));
        lemma_line_step_rounding(f.x, dx, a.x, i, n);
    } else if dx + dy == -n {
        assert(f.z() == (az + i) * n && g.z() == (az + (i + 1)) * n) by (nonlinear_arith)
            requires
                f.z() == -f.x - f.y,
                g.z() == -g.x - g.y,
                f.x == a.x * n + dx * i,
                g.x == f.x + dx,
                f.y == a.y * n + dy * i,
                g.y == f.y + dy,
                dx + dy == -n,
                az == -a.x - a.y,
        ;
        lemma_round_exact_z(f, az + i);
        lemma_round_exact_z(g, az + (i + 1));
        lemma_line_step_rounding(f.x, dx, a.x, i, n);
    } else {
        assert(f.z() == (az - i) * n && g.z() == (az - (i + 1)) * n) by (nonlinear_arith)
            requires
                f.z() == -f.x - f.y,
                g.z() == -g.x - g.y,
                f.x == a.x * n + dx * i,
                g.x == f.x + dx,
                f.y == a.y * n + dy * i,
                g.y == f.y + dy,
                dx + dy == n,
                az == -a.x - a.y,
        ;
        lemma_round_exact_z(f, az - i);
        lemma_round_exact_z(g, az - (i + 1));
        lemma_line_step_rounding(f.x, dx, a.x, i, n);
    }
}

/// Along a line, a coordinate that moves by `step / n` moves, rounded, by
/// no more than one whole number, and not against `step`.
proof fn lemma_line_step_rounding(u: int, step: int, from: int, i: int, n: int)
    requires
        n > 0,
        -n <= step <= n,
        u == from * n + step * i,
    ensures
        step >= 0 ==> round_half_away(u, n) <= round_half_away(u + step, n) <= round_half_away(
            u,
            n,
        ) + 1,
        step <= 0 ==> round_half_away(u, n) - 1 <= round_half_away(u + step, n)
            <= round_half_away(u, n),
        step == n ==> round_half_away(u + step, n) == round_half_away(u, n) + 1,
        step == -n ==> round_half_away(u + step, n) == round_half_away(u, n) - 1,
{
    if step == n {
        assert(u == (from + i) * n && u + step == (from + (i + 1)) * n) by (nonlinear_arith)
            requires
                u == from * n + step * i,
                step == n,
        ;
        lemma_round_half_away_exact(from + i, n);
        lemma_round_half_away_exact(from + (i + 1), n);
    } else if step == -n {
        assert(u == (from - i) * n && u + step == (from - (i + 1)) * n) by (nonlinear_arith)
            requires
                u == from * n + step * i,
                step == -n,
        ;
        lemma_round_half_away_exact(from - i, n);
        lemma_round_half_away_exact(from - (i + 1), n);
    } else if step >= 0 {
        lemma_round_half_away_steps(u + step, u, n);
    } else {
        lemma_round_half_away_steps(u, u + step, n);
    }
}

/// Each coordinate of a point of a line lies between the coordinates of the
/// two ends.
pub proof fn lemma_line_point_between(a: Axial, b: Axial, i: int)
    requires
        0 <= i <= a.distance(b),
    ensures
        a.x <= line_point(a, b, i).x <= b.x || b.x <= line_point(a, b, i).x <= a.x,
        a.y <= line_point(a, b, i).y <= b.y || b.y <= line_point(a, b, i).y <= a.y,
{
    let n = a.distance(b);
    if n > 0 {
        let f = Fraction::lerp(a, b, i, n);
        let p = f.round();
        lemma_round_error(f);
        lemma_between_scaled(a.x, b.x, p.x, i, n);
        lemma_between_scaled(a.y, b.y, p.y, i, n);
    }
}

/// An integer `p` whose `n`-fold lies less than `n` from a mix of `a` and
/// `b` with weights that sum to `n` lies between `a` and `b`.
proof fn lemma_between_scaled(a: int, b: int, p: int, i: int, n: int)
    by (nonlinear_arith)
    requires
        n > 0,
        0 <= i <= n,
        abs(p * n - (a * (n - i) + b * i)) < n,
    ensures
        a <= p <= b || b <= p <= a,
{
    if a <= b {
        assert(a * n <= a * (n - i) + b * i <= b * n);
        assert((a - 1) * n < p * n < (b + 1) * n);
    } else {
        assert(b * n <= a * (n - i) + b * i <= a * n);
        assert((b - 1) * n < p * n < (a + 1) * n);
    }
}

impl Hex {
    /// The straight line from `self` to `other`: for each distance `i` from
    /// `self` up to the distance between the two, the point `i / n` of the
    /// way, rounded to the lattice. Both ends are part of it.
    pub fn line_to(self, other: Hex) -> (res: Vec<Hex>)
        requires
            self@.distance(other@) <= u32::MAX,
        ensures
            views(res@) == line_seq(self@, other@),
    {
        let ghost a = self@;
        let ghost b = other@;
        let n: u32 = self.unsigned_distance_to(other);
        let mut res: Vec<Hex> = Vec::new();
        if n == 0 {
            res.push(self);
            assert(views(res@) =~= line_seq(a, b));
            return res;
        }
        let den: i128 = n as i128;
        let mut i: u32 = 0;
        loop
            invariant_except_break
                0 <= i <= n,
                n > 0,
                den == n,
                a == self@,
                b == other@,
                n == a.distance(b),
                res.len() == i,
                forall|j: int| 0 <= j < i ==> (#[trigger] res[j])@ == line_point(a, b, j),
            ensures
                res.len() == n + 1,
                n == a.distance(b),
                forall|j: int| 0 <= j <= n ==> (#[trigger] res[j])@ == line_point(a, b, j),
            decreases n - i,
        {
            let step: i128 = i as i128;
            let rest: i128 = den - step;
            assert(-0x1_0000_0000_0000_0000 <= self.x * rest <= 0x1_0000_0000_0000_0000
                && -0x1_0000_0000_0000_0000 <= other.x * step <= 0x1_0000_0000_0000_0000
                && -0x1_0000_0000_0000_0000 <= self.y * rest <= 0x1_0000_0000_0000_0000
                && -0x1_0000_0000_0000_0000 <= other.y * step <= 0x1_0000_0000_0000_0000)
                by (nonlinear_arith)
                requires
                    0 <= rest <= 0x1_0000_0000,
                    0 <= step <= 0x1_0000_0000,
                    -0x1_0000_0000 <= self.x <= 0x1_0000_0000,
                    -0x1_0000_0000 <= self.y <= 0x1_0000_0000,
                    -0x1_0000_0000 <= other.x <= 0x1_0000_0000,
                    -0x1_0000_0000 <= other.y <= 0x1_0000_0000,
            ;
            let x: i128 = (self.x as i128) * rest + (other.x as i128) * step;
            let y: i128 = (self.y as i128) * rest + (other.y as i128) * step;
            proof {
                lemma_line_point_between(a, b, i as int);
            }
            let p = round_wide(x, y, den);
            res.push(p);
            if i == n {
                break ;
            }
            i = i + 1;
        }
        assert(views(res@) =~= line_seq(a, b));
        res
    }
}

} // verus!
