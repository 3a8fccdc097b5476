//! Hexagonal regions, and wrapping of coordinates into them.
use vstd::prelude::*;
use crate::hex::{views, Axial, Hex};
use crate::ring::{cells_within, ring_fits, spiral_seq};

verus! {

/// The center, seen from the center of a region of radius `radius`, of the
/// copy of the region that borders it at position `k` of six: the plane is
/// tiled with such copies.
pub open spec fn mirror(radius: int, k: int) -> Axial {
    let m = Axial { x: 2 * radius + 1, y: -radius };
    if k == 0 {
        m.ccw()
    } else if k == 1 {
        m
    } else if k == 2 {
        m.cw()
    } else if k == 3 {
        m.ccw().negated()
    } else if k == 4 {
        m.negated()
    } else {
        m.cw().negated()
    }
}

/// The sum of `i` times the first and `j` times the second of the two
/// vectors that span the centers of the copies of a region of radius
/// `radius`.
pub open spec fn mirror_sum(radius: int, i: int, j: int) -> Axial {
    Axial {
        x: (2 * radius + 1) * i + (radius + 1) * j,
        y: -radius * i - (2 * radius + 1) * j,
    }
}

/// Whether `a` and `b` lie at the same place of two copies of a region of
/// radius `radius`.
pub open spec fn congruent(a: Axial, b: Axial, radius: int) -> bool {
    exists|i: int, j: int| a.minus(b) == #[trigger] mirror_sum(radius, i, j)
}

/// A hexagon outside the region around the origin is nearer to the center
/// of one of the six copies next to it than to the origin.
#[verifier::rlimit(60)]
pub proof fn lemma_some_mirror_is_nearer(p: Axial, radius: int)
    requires
        radius >= 0,
        p.length() > radius,
    ensures
        exists|k: int| 0 <= k < 6 && #[trigger] p.minus(mirror(radius, k)).length() < p.length(),
{
    let l = p.length();
    assert(p.minus(mirror(radius, 0)).length() < l || p.minus(mirror(radius, 1)).length() < l
        || p.minus(mirror(radius, 2)).length() < l || p.minus(mirror(radius, 3)).length() < l
        || p.minus(mirror(radius, 4)).length() < l || p.minus(mirror(radius, 5)).length() < l);
}

/// Each of the six centers next to the origin is a sum of the two spanning
/// vectors.
pub proof fn lemma_mirror_is_sum(radius: int, k: int)
    requires
        0 <= k < 6,
    ensures
        k == 0 ==> mirror(radius, k) == mirror_sum(radius, 0, 1),
        k == 1 ==> mirror(radius, k) == mirror_sum(radius, 1, 0),
        k == 2 ==> mirror(radius, k) == mirror_sum(radius, 1, -1),
        k == 3 ==> mirror(radius, k) == mirror_sum(radius, 0, -1),
        k == 4 ==> mirror(radius, k) == mirror_sum(radius, -1, 0),
        k == 5 ==> mirror(radius, k) == mirror_sum(radius, -1, 1),
{
}

/// Sums of the spanning vectors add up.
pub proof fn lemma_mirror_sum_adds(radius: int, i1: int, j1: int, i2: int, j2: int)
    ensures
        mirror_sum(radius, i1, j1).plus(mirror_sum(radius, i2, j2)) == mirror_sum(
            radius,
            i1 + i2,
            j1 + j2,
        ),
{
    let a = 2 * radius + 1;
    let b = radius + 1;
    assert(a * i1 + a * i2 == a * (i1 + i2)) by (nonlinear_arith);
    assert(b * j1 + b * j2 == b * (j1 + j2)) by (nonlinear_arith);
    assert(-radius * i1 + -radius * i2 == -radius * (i1 + i2)) by (nonlinear_arith);
    assert(a * j1 + a * j2 == a * (j1 + j2)) by (nonlinear_arith);
}

/// No two centers of copies of the region are nearer to each other than
/// `2 radius + 1`.
pub proof fn lemma_mirror_sum_is_long(radius: int, i: int, j: int)
    requires
        radius >= 0,
        i != 0 || j != 0,
    ensures
        mirror_sum(radius, i, j).length() >= 2 * radius + 1,
{
    let a = radius * i;
    let b = radius * j;
    assert((i >= 1 ==> a >= radius) && (i <= -1 ==> a <= -radius) && (i == 0 ==> a == 0))
        by (nonlinear_arith)
        requires
            radius >= 0,
            a == radius * i,
    ;
    assert((j >= 1 ==> b >= radius) && (j <= -1 ==> b <= -radius) && (j == 0 ==> b == 0))
        by (nonlinear_arith)
        requires
            radius >= 0,
            b == radius * j,
    ;
    assert((2 * radius + 1) * i == 2 * a + i && (radius + 1) * j == b + j && -radius * i == -a && (
    2 * radius + 1) * j == 2 * b + j) by (nonlinear_arith)
        requires
            a == radius * i,
            b == radius * j,
    ;
}

/// Two hexagons of the region around the origin that lie at the same place
/// of two copies of it are the same hexagon: wrapping has one answer.
pub proof fn lemma_congruent_in_bounds_are_equal(a: Axial, b: Axial, radius: int)
    requires
        radius >= 0,
        a.length() <= radius,
        b.length() <= radius,
        congruent(a, b, radius),
    ensures
        a == b,
{
    let (i, j) = choose|i: int, j: int| a.minus(b) == #[trigger] mirror_sum(radius, i, j);
    if i != 0 || j != 0 {
        lemma_mirror_sum_is_long(radius, i, j);
        let origin = Axial { x: 0, y: 0 };
        a.lemma_distance_triangle(origin, b);
        assert(a.distance(origin) == a.length());
        origin.lemma_distance_basics(b);
        assert(b.distance(origin) == b.length());
        assert(a.minus(b).length() == a.distance(b));
        assert(false);
    } else {
        assert(mirror_sum(radius, 0, 0) == (Axial { x: 0, y: 0 })) by (nonlinear_arith)
            requires
                mirror_sum(radius, 0, 0) == (Axial {
                    x: (2 * radius + 1) * 0 + (radius + 1) * 0,
                    y: -radius * 0 - (2 * radius + 1) * 0,
                }),
        ;
    }
}

/// A hexagonal region: the hexagons within `radius` of `center`.
#[derive(Debug, Copy, Clone, PartialEq, Eq, Structural)]
pub struct HexBounds {
    /// The center of the region
    pub center: Hex,
    /// The largest distance from the center within the region
    pub radius: u32,
}

/// Number of steps between neighbors from the origin to `(x, y)`.
fn length_of(x: i64, y: i64) -> (r: i64)
    requires
        -0x4_0000_0000 <= x <= 0x4_0000_0000,
        -0x4_0000_0000 <= y <= 0x4_0000_0000,
    ensures
        r == (Axial { x: x as int, y: y as int }).length(),
{
    let ax: i64 = if x < 0 { -x } else { x };
    let ay: i64 = if y < 0 { -y } else { y };
    let az: i64 = if x + y < 0 { -(x + y) } else { x + y };
    let m: i64 = if ay >= az { ay } else { az };
    if ax >= m {
        ax
    } else {
        m
    }
}

/// The center of the copy at position `k` of a region of radius `radius`
/// around the origin.
fn mirror_of(radius: i64, k: u8) -> (r: (i64, i64))
    requires
        0 <= radius <= 0xffff_ffff,
        0 <= k < 6,
    ensures
        (Axial { x: r.0 as int, y: r.1 as int }) == mirror(radius as int, k as int),
        -0x2_0000_0000 <= r.0 <= 0x2_0000_0000,
        -0x2_0000_0000 <= r.1 <= 0x2_0000_0000,
{
    let x: i64 = 2 * radius + 1;
    let y: i64 = -radius;
    if k == 0 {
        (x + y, -x)
    } else if k == 1 {
        (x, y)
    } else if k == 2 {
        (-y, x + y)
    } else if k == 3 {
        (-x - y, x)
    } else if k == 4 {
        (-x, -y)
    } else {
        (y, -x - y)
    }
}

/// Distance from `p` to the center of the copy at position `k` of a region
/// of radius `radius` around the origin.
#[verifier::opaque]
pub open spec fn mirror_distance(p: Axial, radius: int, k: int) -> int {
    p.minus(mirror(radius, k)).length()
}

/// The center nearest to `(x, y)` among those of the six copies of a
/// region of radius `radius` around the origin, the first of them where
/// several are as near, with its distance and its position.
fn nearest_mirror(x: i64, y: i64, radius: i64) -> (r: ((i64, i64), i64, Ghost<int>))
    requires
        0 <= radius <= 0xffff_ffff,
        -0x2_0000_0000 <= x <= 0x2_0000_0000,
        -0x2_0000_0000 <= y <= 0x2_0000_0000,
    ensures
        0 <= r.2@ < 6,
        (Axial { x: r.0.0 as int, y: r.0.1 as int }) == mirror(radius as int, r.2@),
        r.1 == mirror_distance(Axial { x: x as int, y: y as int }, radius as int, r.2@),
        forall|e: int|
            0 <= e < 6 ==> r.1 <= #[trigger] mirror_distance(
                Axial { x: x as int, y: y as int },
                radius as int,
                e,
            ),
{
    let ghost here = Axial { x: x as int, y: y as int };
    let mut nearest = mirror_of(radius, 0);
    let mut best = length_of(x - nearest.0, y - nearest.1);
    let ghost mut chosen: int = 0;
    proof {
        reveal(mirror_distance);
        assert(best == mirror_distance(here, radius as int, 0));
    }
    let mut k: u8 = 1;
    while k < 6
        invariant
            1 <= k <= 6,
            0 <= radius <= 0xffff_ffff,
            -0x2_0000_0000 <= x <= 0x2_0000_0000,
            -0x2_0000_0000 <= y <= 0x2_0000_0000,
            here == (Axial { x: x as int, y: y as int }),
            0 <= chosen < k,
            (Axial { x: nearest.0 as int, y: nearest.1 as int }) == mirror(radius as int, chosen),
            best == mirror_distance(here, radius as int, chosen),
            forall|e: int|
                0 <= e < k ==> best <= #[trigger] mirror_distance(here, radius as int, e),
        decreases 6 - k,
    {
        let candidate = mirror_of(radius, k);
        let d = length_of(x - candidate.0, y - candidate.1);
        proof {
            reveal(mirror_distance);
            assert(d == mirror_distance(here, radius as int, k as int));
        }
        if d < best {
            nearest = candidate;
            best = d;
            proof {
                chosen = k as int;
            }
        }
        k = k + 1;
    }
    (nearest, best, Ghost(chosen))
}

impl HexBounds {
    /// The region of the hexagons within `radius` of `center`.
    pub fn new(center: Hex, radius: u32) -> (r: HexBounds)
        ensures
            r.center == center,
            r.radius == radius,
    {
        HexBounds { center, radius }
    }

    /// Whether `h` lies in the region.
    pub open spec fn contains(self, h: Axial) -> bool {
        self.center@.distance(h) <= self.radius
    }

    /// Whether `rhs` lies in the region.
    pub fn is_in_bounds(&self, rhs: Hex) -> (r: bool)
        ensures
            r == self.contains(rhs@),
    {
        let x: i64 = self.center.x as i64 - rhs.x as i64;
        let y: i64 = self.center.y as i64 - rhs.y as i64;
        length_of(x, y) <= self.radius as i64
    }

    /// Number of hexagons in the region.
    pub fn hex_count(&self) -> (r: usize)
        requires
            cells_within(self.radius as nat) <= usize::MAX,
        ensures
            r == cells_within(self.radius as nat),
    {
        let n: u128 = self.radius as u128;
        assert(3 * n * (n + 1) <= 3 * 0x1_0000_0000 * 0x1_0000_0001) by (nonlinear_arith)
            requires
                0 <= n <= 0xffff_ffff,
        ;
        let count: u128 = 1 + 3 * n * (n + 1);
        count as usize
    }

    /// Every hexagon of the region, each once: the center first, then ring
    /// by ring.
    pub fn all_coords(&self) -> (res: Vec<Hex>)
        requires
            ring_fits(self.center@, self.radius as int),
        ensures
            views(res@) == spiral_seq(self.center@, 0, self.radius as nat),
    {
        self.center.range(self.radius)
    }

    /// The hexagon of the region that lies where `coord` lies in its own
    /// copy of the region. A hexagon of the region is left as it is; any
    /// other is moved by the distance of the nearest neighboring copy,
    /// again and again, until it is one.
    pub fn wrap(&self, coord: Hex) -> (r: Hex)
        requires
            ring_fits(self.center@, self.radius as int),
        ensures
            self.contains(r@),
            congruent(coord@, r@, self.radius as int),
            self.contains(coord@) ==> r == coord,
    {
        let radius: i64 = self.radius as i64;
        let mut x: i64 = coord.x as i64 - self.center.x as i64;
        let mut y: i64 = coord.y as i64 - self.center.y as i64;
        let ghost start = Axial { x: x as int, y: y as int };
        let ghost mut i: int = 0;
        let ghost mut j: int = 0;
        let mut length = length_of(x, y);
        while length > radius
            invariant
                radius == self.radius,
                length == (Axial { x: x as int, y: y as int }).length(),
                length <= start.length() <= 0x2_0000_0000,
                start.minus(Axial { x: x as int, y: y as int }) == mirror_sum(radius as int, i, j),
                start.length() <= radius ==> x == start.x && y == start.y,
            decreases length,
        {
            let ghost here = Axial { x: x as int, y: y as int };
            let (nearest, best, Ghost(chosen)) = nearest_mirror(x, y, radius);
            proof {
                reveal(mirror_distance);
                assert forall|e: int| 0 <= e < 6 implies best <= (#[trigger] here.minus(
                    mirror(radius as int, e),
                )).length() by {
                    assert(best <= mirror_distance(here, radius as int, e));
                }
            }
            proof {
                lemma_some_mirror_is_nearer(here, radius as int);
                lemma_mirror_is_sum(radius as int, chosen);
                let (di, dj): (int, int) = if chosen == 0 {
                    (0, 1)
                } else if chosen == 1 {
                    (1, 0)
                } else if chosen == 2 {
                    (1, -1)
                } else if chosen == 3 {
                    (0, -1)
                } else if chosen == 4 {
                    (-1, 0)
                } else {
                    (-1, 1)
                };
                lemma_mirror_sum_adds(radius as int, i, j, di, dj);
                i = i + di;
                j = j + dj;
            }
            x = x - nearest.0;
            y = y - nearest.1;
            length = best;
        }
        proof {
            let local = Axial { x: x as int, y: y as int };
            let res = Axial { x: self.center.x + x, y: self.center.y + y };
            assert(coord@.minus(res) == start.minus(local));
            self.center@.lemma_distance_basics(res);
            self.center@.lemma_distance_basics(coord@);
        }
        Hex { x: (self.center.x as i64 + x) as i32, y: (self.center.y as i64 + y) as i32 }
    }
}

} // verus!
