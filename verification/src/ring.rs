//! Rings and spirals: the hexagons at a given distance from a center, and
//! the hexagons within a band of distances, in a fixed order.
//!
//! A ring of radius `r > 0` has six sides of `r` hexagons each. It starts at
//! the corner `r` steps from the center in direction
//! [`Direction::TopRight`] and runs clockwise: side `k` starts at the corner
//! in the direction `k` steps clockwise of `TopRight` and walks in the
//! direction two further steps clockwise. The ring of radius 0 is the center
//! alone.
use vstd::prelude::*;
use vstd::arithmetic::div_mod::lemma_fundamental_div_mod_converse;
use crate::direction::Direction;
use crate::hex::{fits_i32, views, Axial, Hex};

verus! {

/// Direction from the center to the corner at which side `k` of a ring
/// starts.
pub open spec fn ring_corner_dir(k: int) -> Direction {
    Direction::spec_from_index(-k)
}

/// Direction in which side `k` of a ring is walked.
pub open spec fn ring_step_dir(k: int) -> Direction {
    Direction::spec_from_index(-k - 2)
}

/// The hexagon `t` steps along side `k` of the ring of radius `r` around
/// `c`.
pub open spec fn ring_point(c: Axial, r: int, k: int, t: int) -> Axial {
    c.plus(Axial::unit(ring_corner_dir(k)).times(r)).plus(Axial::unit(ring_step_dir(k)).times(t))
}

/// Number of hexagons in the ring of radius `r`.
pub open spec fn ring_len(r: nat) -> nat {
    if r == 0 {
        1
    } else {
        6 * r
    }
}

/// The hexagon at position `i` of the ring of radius `r` around `c`.
pub open spec fn ring_at(c: Axial, r: nat, i: int) -> Axial {
    if r == 0 {
        c
    } else {
        ring_point(c, r as int, i / (r as int), i % (r as int))
    }
}

/// The ring of radius `r` around `c`, in order.
pub open spec fn ring_seq(c: Axial, r: nat) -> Seq<Axial> {
    Seq::new(ring_len(r), |i: int| ring_at(c, r, i))
}

/// Whether every hexagon at distance `r` from `c` has `i32` coordinates.
pub open spec fn ring_fits(c: Axial, r: int) -> bool {
    &&& fits_i32(c.x - r) && fits_i32(c.x + r)
    &&& fits_i32(c.y - r) && fits_i32(c.y + r)
}

/// The coordinates of `n` unit steps in one direction.
pub proof fn lemma_unit_times(dir: Direction, n: int)
    ensures
        Axial::unit(dir).times(n) == match dir {
            Direction::TopRight => Axial { x: n, y: -n },
            Direction::Top => Axial { x: 0, y: -n },
            Direction::TopLeft => Axial { x: -n, y: 0 },
            Direction::BottomLeft => Axial { x: -n, y: n },
            Direction::Bottom => Axial { x: 0, y: n },
            Direction::BottomRight => Axial { x: n, y: 0 },
        },
{
    match dir {
        Direction::TopRight => {},
        Direction::Top => {},
        Direction::TopLeft => {},
        Direction::BottomLeft => {},
        Direction::Bottom => {},
        Direction::BottomRight => {},
    }
}

/// The coordinates of a ring point, side by side.
pub proof fn lemma_ring_point_explicit(c: Axial, r: int, k: int, t: int)
    requires
        0 <= k < 6,
    ensures
        k == 0 ==> ring_point(c, r, k, t) == (Axial { x: c.x + r, y: c.y - r + t }),
        k == 1 ==> ring_point(c, r, k, t) == (Axial { x: c.x + r - t, y: c.y + t }),
        k == 2 ==> ring_point(c, r, k, t) == (Axial { x: c.x - t, y: c.y + r }),
        k == 3 ==> ring_point(c, r, k, t) == (Axial { x: c.x - r, y: c.y + r - t }),
        k == 4 ==> ring_point(c, r, k, t) == (Axial { x: c.x - r + t, y: c.y - t }),
        k == 5 ==> ring_point(c, r, k, t) == (Axial { x: c.x + t, y: c.y - r }),
{
    lemma_unit_times(ring_corner_dir(k), r);
    lemma_unit_times(ring_step_dir(k), t);
}

/// Every hexagon of a ring lies at distance `r` from the center.
pub proof fn lemma_ring_point_distance(c: Axial, r: int, k: int, t: int)
    requires
        0 <= k < 6,
        0 <= t <= r,
    ensures
        ring_point(c, r, k, t).distance(c) == r,
        c.distance(ring_point(c, r, k, t)) == r,
{
    lemma_ring_point_explicit(c, r, k, t);
}

/// Two positions on a ring hold the same hexagon only if they are the same
/// position.
pub proof fn lemma_ring_point_injective(c: Axial, r: int, k1: int, t1: int, k2: int, t2: int)
    requires
        0 <= k1 < 6,
        0 <= k2 < 6,
        0 <= t1 < r,
        0 <= t2 < r,
        ring_point(c, r, k1, t1) == ring_point(c, r, k2, t2),
    ensures
        k1 == k2,
        t1 == t2,
{
    lemma_ring_point_explicit(c, r, k1, t1);
    lemma_ring_point_explicit(c, r, k2, t2);
}

/// The end of a side is the start of the next one.
pub proof fn lemma_ring_side_end(c: Axial, r: int, k: int)
    requires
        0 <= k < 6,
    ensures
        ring_point(c, r, k, r) == ring_point(c, r, (k + 1) % 6, 0),
{
    lemma_ring_point_explicit(c, r, k, r);
    lemma_ring_point_explicit(c, r, (k + 1) % 6, 0);
}

/// Position `k * r + t` of a ring is the hexagon `t` steps along side `k`.
pub proof fn lemma_ring_at_side(c: Axial, r: nat, k: int, t: int)
    requires
        0 <= t < r,
    ensures
        ring_at(c, r, k * r + t) == ring_point(c, r as int, k, t),
{
    lemma_fundamental_div_mod_converse(k * r + t, r as int, k, t);
}

/// A position on a ring of radius `r > 0` splits into a side and a number
/// of steps along it.
pub proof fn lemma_ring_index_split(r: int, i: int)
    by (nonlinear_arith)
    requires
        r > 0,
        0 <= i < 6 * r,
    ensures
        0 <= i / r < 6,
        0 <= i % r < r,
        i == (i / r) * r + i % r,
{
}

/// Every hexagon of the ring of radius `r` lies at distance `r` from the
/// center.
pub proof fn lemma_ring_distance(c: Axial, r: nat, i: int)
    requires
        0 <= i < ring_len(r),
    ensures
        ring_seq(c, r)[i].distance(c) == r,
        c.distance(ring_seq(c, r)[i]) == r,
{
    if r > 0 {
        lemma_ring_index_split(r as int, i);
        lemma_ring_point_distance(c, r as int, i / (r as int), i % (r as int));
    }
}

/// No hexagon occurs twice in a ring.
pub proof fn lemma_ring_distinct(c: Axial, r: nat, i: int, j: int)
    requires
        0 <= i < ring_len(r),
        0 <= j < ring_len(r),
        i != j,
    ensures
        ring_seq(c, r)[i] != ring_seq(c, r)[j],
{
    if r > 0 {
        let d = r as int;
        lemma_ring_index_split(d, i);
        lemma_ring_index_split(d, j);
        if ring_seq(c, r)[i] == ring_seq(c, r)[j] {
            lemma_ring_point_injective(c, d, i / d, i % d, j / d, j % d);
        }
    }
}

/// The first six multiples of `d`, spelled out as sums.
proof fn lemma_side_base(k: int, d: int)
    requires
        0 <= k < 6,
    ensures
        k == 0 ==> k * d == 0,
        k == 1 ==> k * d == d,
        k == 2 ==> k * d == 2 * d,
        k == 3 ==> k * d == 3 * d,
        k == 4 ==> k * d == 4 * d,
        k == 5 ==> k * d == 5 * d,
{
}

/// The position in the ring of radius `r` around `c` of a hexagon `h` at
/// distance `r` from `c`.
pub open spec fn ring_index_of(c: Axial, r: nat, h: Axial) -> int {
    let dx = h.x - c.x;
    let dy = h.y - c.y;
    if r == 0 {
        0
    } else if dx == r && dy < 0 {
        dy + r
    } else if dx > 0 && dy >= 0 {
        r + dy
    } else if dy == r && dx > -r {
        2 * r - dx
    } else if dx == -r && dy > 0 {
        3 * r + (r - dy)
    } else if dy <= 0 && dx < 0 {
        4 * r - dy
    } else {
        5 * r + dx
    }
}

/// A ring holds every hexagon at distance `r` from its center, at the
/// position that [`ring_index_of`] gives.
pub proof fn lemma_ring_complete(c: Axial, r: nat, h: Axial)
    requires
        c.distance(h) == r,
    ensures
        0 <= ring_index_of(c, r, h) < ring_len(r),
        ring_seq(c, r)[ring_index_of(c, r, h)] == h,
        ring_seq(c, r).contains(h),
{
    let i = ring_index_of(c, r, h);
    if r > 0 {
        let d = r as int;
        let dx = h.x - c.x;
        let dy = h.y - c.y;
        let k: int = if dx == r && dy < 0 {
            0
        } else if dx > 0 && dy >= 0 {
            1
        } else if dy == r && dx > -r {
            2
        } else if dx == -r && dy > 0 {
            3
        } else if dy <= 0 && dx < 0 {
            4
        } else {
            5
        };
        let t = i - k * d;
        lemma_side_base(k, d);
        assert(0 <= t < d);
        lemma_ring_at_side(c, r, k, t);
        lemma_ring_point_explicit(c, d, k, t);
        assert(ring_at(c, r, i) == h);
    }
    assert(ring_seq(c, r)[i] == h);
}

/// A hexagon is in the ring of radius `r` around `c` exactly if it lies at
/// distance `r` from `c`.
pub proof fn lemma_ring_membership(c: Axial, r: nat, h: Axial)
    ensures
        ring_seq(c, r).contains(h) <==> c.distance(h) == r,
{
    if c.distance(h) == r {
        lemma_ring_complete(c, r, h);
    }
    if ring_seq(c, r).contains(h) {
        let i = choose|i: int| 0 <= i < ring_seq(c, r).len() && ring_seq(c, r)[i] == h;
        lemma_ring_distance(c, r, i);
    }
}

impl Hex {
    /// The ring of radius `range` around `self`: the hexagons at distance
    /// `range`, clockwise from the one in direction
    /// [`Direction::TopRight`]. For `range` 0 it is `self` alone.
    pub fn ring(self, range: u32) -> (res: Vec<Hex>)
        requires
            ring_fits(self@, range as int),
        ensures
            views(res@) == ring_seq(self@, range as nat),
    {
        let mut res: Vec<Hex> = Vec::new();
        if range == 0 {
            res.push(self);
            assert(views(res@) =~= ring_seq(self@, 0));
            return res;
        }
        let ghost c = self@;
        let ghost r = range as int;
        let reach: i32 = range as i32;
        let mut hex = Hex { x: self.x + reach, y: self.y - reach };
        proof {
            lemma_ring_point_explicit(c, r, 0, 0);
        }
        let mut k: usize = 0;
        while k < 6
            invariant
                0 <= k <= 6,
                c == self@,
                r == range as int,
                r > 0,
                ring_fits(c, r),
                res.len() == k * r,
                k < 6 ==> hex@ == ring_point(c, r, k as int, 0),
                forall|j: int|
                    0 <= j < res.len() ==> (#[trigger] res[j])@ == ring_at(c, r as nat, j),
            decreases 6 - k,
        {
            let step = Direction::TopRight.rotate_cw(k + 2);
            let mut t: u32 = 0;
            while t < range
                invariant
                    0 <= k < 6,
                    0 <= t <= range,
                    c == self@,
                    r == range as int,
                    r > 0,
                    ring_fits(c, r),
                    step == ring_step_dir(k as int),
                    res.len() == k * r + t,
                    hex@ == ring_point(c, r, k as int, t as int),
                    forall|j: int|
                        0 <= j < res.len() ==> (#[trigger] res[j])@ == ring_at(c, r as nat, j),
                decreases range - t,
            {
                proof {
                    lemma_ring_at_side(c, r as nat, k as int, t as int);
                    lemma_ring_point_explicit(c, r, k as int, t as int);
                    lemma_ring_point_explicit(c, r, k as int, t + 1);
                    lemma_unit_times(step, 1);
                }
                res.push(hex);
                hex = hex.neighbor(step);
                t = t + 1;
            }
            proof {
                lemma_ring_side_end(c, r, k as int);
                assert(k * r + r == (k + 1) * r) by (nonlinear_arith);
            }
            k = k + 1;
        }
        assert(views(res@) =~= ring_seq(c, r as nat));
        res
    }
}

/// The rings of radius `first` to `last` around `c`, one after the other
/// from the innermost out. Empty where `last < first`.
pub open spec fn spiral_seq(c: Axial, first: nat, last: nat) -> Seq<Axial>
    decreases last,
{
    if last < first {
        Seq::empty()
    } else if last == 0 {
        ring_seq(c, 0)
    } else {
        spiral_seq(c, first, (last - 1) as nat) + ring_seq(c, last)
    }
}

/// Number of hexagons within distance `r` of a hexagon.
pub open spec fn cells_within(r: nat) -> nat {
    1 + 3 * r * (r + 1)
}

/// Number of hexagons whose distance to a hexagon lies between `first` and
/// `last`.
pub open spec fn spiral_len(first: nat, last: nat) -> int {
    if last < first {
        0
    } else if first == 0 {
        cells_within(last) as int
    } else {
        cells_within(last) - cells_within((first - 1) as nat)
    }
}

/// A spiral has as many hexagons as the closed formula says: `1 + 3 r (r +
/// 1)` from the center out to radius `r`.
pub proof fn lemma_spiral_len(c: Axial, first: nat, last: nat)
    ensures
        spiral_seq(c, first, last).len() == spiral_len(first, last),
    decreases last,
{
    if last < first {
    } else if last == 0 {
        assert(cells_within(0) == 1) by (nonlinear_arith);
    } else {
        lemma_spiral_len(c, first, (last - 1) as nat);
        lemma_cells_within_step(last);
    }
}

/// Each further ring adds `6 r` hexagons to the count.
pub proof fn lemma_cells_within_step(r: nat)
    by (nonlinear_arith)
    requires
        r > 0,
    ensures
        cells_within(r) == cells_within((r - 1) as nat) + 6 * r,
{
}

/// A spiral holds exactly the hexagons whose distance to the center lies
/// between `first` and `last`.
pub proof fn lemma_spiral_membership(c: Axial, first: nat, last: nat, h: Axial)
    ensures
        spiral_seq(c, first, last).contains(h) <==> first <= c.distance(h) <= last,
    decreases last,
{
    let s = spiral_seq(c, first, last);
    lemma_ring_membership(c, last, h);
    if last < first {
    } else if last == 0 {
    } else {
        let prev = spiral_seq(c, first, (last - 1) as nat);
        let ring = ring_seq(c, last);
        lemma_spiral_membership(c, first, (last - 1) as nat, h);
        if prev.contains(h) {
            let i = choose|i: int| 0 <= i < prev.len() && prev[i] == h;
            assert(s[i] == h);
        }
        if ring.contains(h) {
            let i = choose|i: int| 0 <= i < ring.len() && ring[i] == h;
            assert(s[prev.len() + i] == h);
        }
        if s.contains(h) {
            let i = choose|i: int| 0 <= i < s.len() && s[i] == h;
            if i < prev.len() {
                assert(prev[i] == h);
            } else {
                assert(ring[i - prev.len()] == h);
            }
        }
    }
}

/// No hexagon occurs twice in a spiral.
pub proof fn lemma_spiral_distinct(c: Axial, first: nat, last: nat, i: int, j: int)
    requires
        0 <= i < j < spiral_seq(c, first, last).len(),
    ensures
        spiral_seq(c, first, last)[i] != spiral_seq(c, first, last)[j],
    decreases last,
{
    let s = spiral_seq(c, first, last);
    if last < first {
    } else if last == 0 {
    } else {
        let prev = spiral_seq(c, first, (last - 1) as nat);
        let ring = ring_seq(c, last);
        if j < prev.len() {
            lemma_spiral_distinct(c, first, (last - 1) as nat, i, j);
        } else if i >= prev.len() {
            lemma_ring_distinct(c, last, i - prev.len(), j - prev.len());
        } else {
            assert(prev.contains(prev[i]));
            lemma_spiral_membership(c, first, (last - 1) as nat, prev[i]);
            lemma_ring_distance(c, last, j - prev.len());
        }
    }
}

impl Hex {
    /// The rings of radius `first` to `last` around `self`, from the
    /// innermost out, each in the order of [`Hex::ring`]. With `first` 0 it
    /// is every hexagon within distance `last`, each once.
    pub fn spiral_range(self, first: u32, last: u32) -> (res: Vec<Hex>)
        requires
            first <= last ==> ring_fits(self@, last as int),
        ensures
            views(res@) == spiral_seq(self@, first as nat, last as nat),
    {
        let mut res: Vec<Hex> = Vec::new();
        if last < first {
            assert(views(res@) =~= spiral_seq(self@, first as nat, last as nat));
            return res;
        }
        let ghost c = self@;
        let mut r: u32 = first;
        assert(views(res@) =~= Seq::<Axial>::empty());
        loop
            invariant_except_break
                first <= r <= last,
                c == self@,
                ring_fits(c, last as int),
                r == first ==> views(res@) == Seq::<Axial>::empty(),
                r > first ==> views(res@) == spiral_seq(c, first as nat, (r - 1) as nat),
            ensures
                views(res@) == spiral_seq(c, first as nat, last as nat),
            decreases last - r,
        {
            let mut ring = self.ring(r);
            let ghost before = res@;
            let ghost added = ring@;
            res.append(&mut ring);
            proof {
                assert(views(before + added) =~= views(before) + views(added));
                if r > first {
                    assert(spiral_seq(c, first as nat, r as nat) == spiral_seq(
                        c,
                        first as nat,
                        (r - 1) as nat,
                    ) + ring_seq(c, r as nat));
                } else {
                    assert(spiral_seq(c, first as nat, r as nat) =~= ring_seq(c, r as nat)) by {
                        if r > 0 {
                            assert(spiral_seq(c, first as nat, (r - 1) as nat) =~= Seq::<
                                Axial,
                            >::empty());
                        }
                    }
                }
                assert(views(res@) =~= spiral_seq(c, first as nat, r as nat));
            }
            if r == last {
                break ;
            }
            r = r + 1;
        }
        res
    }

    /// Every hexagon within distance `range` of `self`, each once: the
    /// spiral from the center out to radius `range`.
    pub fn range(self, range: u32) -> (res: Vec<Hex>)
        requires
            ring_fits(self@, range as int),
        ensures
            views(res@) == spiral_seq(self@, 0, range as nat),
    {
        self.spiral_range(0, range)
    }
}

} // verus!
