//! Axial hexagonal coordinates and their exact integer algebra.
use vstd::prelude::*;
use crate::direction::{DiagonalDirection, Direction};

verus! {

/// Absolute value of a mathematical integer.
pub open spec fn abs(v: int) -> int {
    if v < 0 {
        -v
    } else {
        v
    }
}

/// The larger of two mathematical integers.
pub open spec fn max(a: int, b: int) -> int {
    if a >= b {
        a
    } else {
        b
    }
}

/// Whether `v` can be held in an `i32`.
pub open spec fn fits_i32(v: int) -> bool {
    i32::MIN <= v <= i32::MAX
}

/// A point of the hexagonal lattice with unbounded coordinates: the
/// mathematical model of [`Hex`]. The third cube coordinate is
/// `z = -x - y`.
pub struct Axial {
    pub x: int,
    pub y: int,
}

impl Axial {
    /// The implied third cube coordinate.
    pub open spec fn z(self) -> int {
        -self.x - self.y
    }

    /// Whether both coordinates can be held in an `i32`.
    pub open spec fn fits(self) -> bool {
        fits_i32(self.x) && fits_i32(self.y)
    }

    /// Component-wise sum.
    pub open spec fn plus(self, rhs: Axial) -> Axial {
        Axial { x: self.x + rhs.x, y: self.y + rhs.y }
    }

    /// Component-wise difference.
    pub open spec fn minus(self, rhs: Axial) -> Axial {
        Axial { x: self.x - rhs.x, y: self.y - rhs.y }
    }

    /// Component-wise negation.
    pub open spec fn negated(self) -> Axial {
        Axial { x: -self.x, y: -self.y }
    }

    /// Component-wise product with the integer `k`.
    pub open spec fn times(self, k: int) -> Axial {
        Axial { x: self.x * k, y: self.y * k }
    }

    /// Number of steps between neighbors from the origin to `self`:
    /// the largest absolute value among the three cube coordinates.
    pub open spec fn length(self) -> int {
        max(abs(self.x), max(abs(self.y), abs(self.x + self.y)))
    }

    /// Number of steps between neighbors from `self` to `rhs`.
    pub open spec fn distance(self, rhs: Axial) -> int {
        self.minus(rhs).length()
    }

    /// The unit step in direction `dir`.
    pub open spec fn unit(dir: Direction) -> Axial {
        match dir {
            Direction::TopRight => Axial { x: 1, y: -1 },
            Direction::Top => Axial { x: 0, y: -1 },
            Direction::TopLeft => Axial { x: -1, y: 0 },
            Direction::BottomLeft => Axial { x: -1, y: 1 },
            Direction::Bottom => Axial { x: 0, y: 1 },
            Direction::BottomRight => Axial { x: 1, y: 0 },
        }
    }

    /// The step towards the vertex in direction `dir`: the sum of the two
    /// unit steps next to it.
    pub open spec fn diagonal_unit(dir: DiagonalDirection) -> Axial {
        match dir {
            DiagonalDirection::Right => Axial { x: 2, y: -1 },
            DiagonalDirection::TopRight => Axial { x: 1, y: -2 },
            DiagonalDirection::TopLeft => Axial { x: -1, y: -1 },
            DiagonalDirection::Left => Axial { x: -2, y: 1 },
            DiagonalDirection::BottomLeft => Axial { x: -1, y: 2 },
            DiagonalDirection::BottomRight => Axial { x: 1, y: 1 },
        }
    }

    /// The neighbor of `self` in direction `dir`.
    pub open spec fn neighbor(self, dir: Direction) -> Axial {
        self.plus(Self::unit(dir))
    }

    /// Whether `self` and `rhs` share an edge.
    pub open spec fn is_neighbor(self, rhs: Axial) -> bool {
        self.distance(rhs) == 1
    }

    /// `self` turned by 60 degrees counter clockwise around the origin:
    /// the cube coordinates `(x, y, z)` become `(-z, -x, -y)`.
    pub open spec fn ccw(self) -> Axial {
        Axial { x: self.x + self.y, y: -self.x }
    }

    /// `self` turned by 60 degrees clockwise around the origin:
    /// the cube coordinates `(x, y, z)` become `(-y, -z, -x)`.
    pub open spec fn cw(self) -> Axial {
        Axial { x: -self.y, y: self.x + self.y }
    }

    /// `self` turned by `m` times 60 degrees counter clockwise around the
    /// origin.
    pub open spec fn rotate_ccw(self, m: nat) -> Axial {
        let k = m % 6;
        if k == 0 {
            self
        } else if k == 1 {
            self.ccw()
        } else if k == 2 {
            self.ccw().ccw()
        } else if k == 3 {
            self.negated()
        } else if k == 4 {
            self.cw().cw()
        } else {
            self.cw()
        }
    }

    /// `self` turned by `m` times 60 degrees clockwise around the origin.
    pub open spec fn rotate_cw(self, m: nat) -> Axial {
        let k = m % 6;
        if k == 0 {
            self
        } else if k == 1 {
            self.cw()
        } else if k == 2 {
            self.cw().cw()
        } else if k == 3 {
            self.negated()
        } else if k == 4 {
            self.ccw().ccw()
        } else {
            self.ccw()
        }
    }

    /// `self` mirrored at the `x` axis: the `y` and `z` cube coordinates
    /// change places.
    pub open spec fn reflect_x(self) -> Axial {
        Axial { x: self.x, y: -self.x - self.y }
    }

    /// `self` mirrored at the `y` axis: the `x` and `z` cube coordinates
    /// change places.
    pub open spec fn reflect_y(self) -> Axial {
        Axial { x: -self.x - self.y, y: self.y }
    }

    /// `self` mirrored at the `z` axis: the `x` and `y` cube coordinates
    /// change places.
    pub open spec fn reflect_z(self) -> Axial {
        Axial { x: self.y, y: self.x }
    }

    /// Whether every coordinate that a rotation of `self` can have is an
    /// `i32`: the three cube coordinates and their negations.
    pub open spec fn rotations_fit(self) -> bool {
        &&& fits_i32(self.x) && fits_i32(-self.x)
        &&& fits_i32(self.y) && fits_i32(-self.y)
        &&& fits_i32(self.x + self.y) && fits_i32(-self.x - self.y)
    }
}

/// A hexagon of the grid, in axial coordinates.
///
/// The third cube coordinate is implied: `z = -x - y`. Contracts speak of
/// the coordinates as mathematical integers, through the view [`Axial`]; a
/// function whose result would not fit in `i32` rules such arguments out in
/// its `requires`.
#[derive(Debug, Copy, Clone, PartialEq, Eq, Hash, Structural)]
pub struct Hex {
    /// `x` axial coordinate
    pub x: i32,
    /// `y` axial coordinate
    pub y: i32,
}

impl View for Hex {
    type V = Axial;

    open spec fn view(&self) -> Axial {
        Axial { x: self.x as int, y: self.y as int }
    }
}

/// The hexagon with the coordinates of `a`, where they fit in `i32`.
pub open spec fn hex_of(a: Axial) -> Hex {
    Hex { x: a.x as i32, y: a.y as i32 }
}

/// The views of a sequence of hexagons.
pub open spec fn views(s: Seq<Hex>) -> Seq<Axial> {
    s.map_values(|h: Hex| h@)
}

/// Shorthand for [`Hex::new`].
pub fn hex(x: i32, y: i32) -> (r: Hex)
    ensures
        r.x == x,
        r.y == y,
{
    Hex { x, y }
}

/// Component-wise sum. The coordinates of the sum must fit in `i32`.
impl core::ops::Add for Hex {
    type Output = Hex;

    fn add(self, rhs: Hex) -> (r: Hex) {
        Hex { x: self.x + rhs.x, y: self.y + rhs.y }
    }
}

/// What `+` requires and gives.
impl vstd::std_specs::ops::AddSpecImpl for Hex {
    open spec fn obeys_add_spec() -> bool {
        true
    }

    open spec fn add_req(self, rhs: Hex) -> bool {
        self@.plus(rhs@).fits()
    }

    open spec fn add_spec(self, rhs: Hex) -> Hex {
        Hex { x: (self.x + rhs.x) as i32, y: (self.y + rhs.y) as i32 }
    }
}

/// Component-wise difference. The coordinates of the difference must fit
/// in `i32`.
impl core::ops::Sub for Hex {
    type Output = Hex;

    fn sub(self, rhs: Hex) -> (r: Hex) {
        Hex { x: self.x - rhs.x, y: self.y - rhs.y }
    }
}

/// What `-` between two hexagons requires and gives.
impl vstd::std_specs::ops::SubSpecImpl for Hex {
    open spec fn obeys_sub_spec() -> bool {
        true
    }

    open spec fn sub_req(self, rhs: Hex) -> bool {
        self@.minus(rhs@).fits()
    }

    open spec fn sub_spec(self, rhs: Hex) -> Hex {
        Hex { x: (self.x - rhs.x) as i32, y: (self.y - rhs.y) as i32 }
    }
}

/// Component-wise negation. Neither coordinate may be `i32::MIN`.
impl core::ops::Neg for Hex {
    type Output = Hex;

    fn neg(self) -> (r: Hex) {
        Hex { x: -self.x, y: -self.y }
    }
}

/// What the negation requires and gives.
impl vstd::std_specs::ops::NegSpecImpl for Hex {
    open spec fn obeys_neg_spec() -> bool {
        true
    }

    open spec fn neg_req(self) -> bool {
        self@.negated().fits()
    }

    open spec fn neg_spec(self) -> Hex {
        Hex { x: (-self.x) as i32, y: (-self.y) as i32 }
    }
}

/// Component-wise product with an integer. The coordinates of the product
/// must fit in `i32`.
impl core::ops::Mul<i32> for Hex {
    type Output = Hex;

    fn mul(self, rhs: i32) -> (r: Hex) {
        Hex { x: self.x * rhs, y: self.y * rhs }
    }
}

/// What `*` with an integer requires and gives.
impl vstd::std_specs::ops::MulSpecImpl<i32> for Hex {
    open spec fn obeys_mul_spec() -> bool {
        true
    }

    open spec fn mul_req(self, rhs: i32) -> bool {
        self@.times(rhs as int).fits()
    }

    open spec fn mul_spec(self, rhs: i32) -> Hex {
        Hex { x: (self.x * rhs) as i32, y: (self.y * rhs) as i32 }
    }
}

impl Hex {
    /// Builds the coordinate `(x, y)`.
    pub fn new(x: i32, y: i32) -> (r: Hex)
        ensures
            r.x == x,
            r.y == y,
    {
        Hex { x, y }
    }

    /// The origin, `(0, 0)`.
    pub open spec fn zero_spec() -> Hex {
        Hex { x: 0, y: 0 }
    }

    /// The origin, `(0, 0)`.
    #[verifier::when_used_as_spec(zero_spec)]
    pub fn zero() -> (r: Hex)
        ensures
            r == Hex::zero_spec(),
    {
        Hex { x: 0, y: 0 }
    }

    /// The `x` axial coordinate.
    pub fn x(self) -> (r: i32)
        ensures
            r == self.x,
    {
        self.x
    }

    /// The `y` axial coordinate.
    pub fn y(self) -> (r: i32)
        ensures
            r == self.y,
    {
        self.y
    }

    /// The third cube coordinate, `-x - y`.
    pub fn z(self) -> (r: i32)
        requires
            fits_i32(self@.z()),
        ensures
            r == self@.z(),
    {
        let z: i64 = -(self.x as i64) - (self.y as i64);
        z as i32
    }

    /// The unit step in direction `dir`.
    pub fn neighbor_coord(dir: Direction) -> (r: Hex)
        ensures
            r@ == Axial::unit(dir),
    {
        match dir {
            Direction::TopRight => Hex { x: 1, y: -1 },
            Direction::Top => Hex { x: 0, y: -1 },
            Direction::TopLeft => Hex { x: -1, y: 0 },
            Direction::BottomLeft => Hex { x: -1, y: 1 },
            Direction::Bottom => Hex { x: 0, y: 1 },
            Direction::BottomRight => Hex { x: 1, y: 0 },
        }
    }

    /// The step towards the vertex in direction `dir`.
    pub fn diagonal_neighbor_coord(dir: DiagonalDirection) -> (r: Hex)
        ensures
            r@ == Axial::diagonal_unit(dir),
    {
        match dir {
            DiagonalDirection::Right => Hex { x: 2, y: -1 },
            DiagonalDirection::TopRight => Hex { x: 1, y: -2 },
            DiagonalDirection::TopLeft => Hex { x: -1, y: -1 },
            DiagonalDirection::Left => Hex { x: -2, y: 1 },
            DiagonalDirection::BottomLeft => Hex { x: -1, y: 2 },
            DiagonalDirection::BottomRight => Hex { x: 1, y: 1 },
        }
    }

    /// Number of steps between neighbors from the origin to `self`.
    pub fn ulength(self) -> (r: u32)
        requires
            self@.length() <= u32::MAX,
        ensures
            r == self@.length(),
    {
        let x: i64 = self.x as i64;
        let y: i64 = self.y as i64;
        let ax: i64 = if x < 0 { -x } else { x };
        let ay: i64 = if y < 0 { -y } else { y };
        let az: i64 = if x + y < 0 { -(x + y) } else { x + y };
        let m: i64 = if ay >= az { ay } else { az };
        let l: i64 = if ax >= m { ax } else { m };
        l as u32
    }

    /// Number of steps between neighbors from the origin to `self`.
    pub fn length(self) -> (r: i32)
        requires
            self@.length() <= i32::MAX,
        ensures
            r == self@.length(),
    {
        self.ulength() as i32
    }

    /// Number of steps between neighbors from `self` to `rhs`.
    pub fn unsigned_distance_to(self, rhs: Hex) -> (r: u32)
        requires
            self@.distance(rhs@) <= u32::MAX,
        ensures
            r == self@.distance(rhs@),
    {
        let x: i64 = self.x as i64 - rhs.x as i64;
        let y: i64 = self.y as i64 - rhs.y as i64;
        let ax: i64 = if x < 0 { -x } else { x };
        let ay: i64 = if y < 0 { -y } else { y };
        let az: i64 = if x + y < 0 { -(x + y) } else { x + y };
        let m: i64 = if ay >= az { ay } else { az };
        let l: i64 = if ax >= m { ax } else { m };
        l as u32
    }

    /// Number of steps between neighbors from `self` to `rhs`.
    pub fn distance_to(self, rhs: Hex) -> (r: i32)
        requires
            self@.distance(rhs@) <= i32::MAX,
        ensures
            r == self@.distance(rhs@),
    {
        self.unsigned_distance_to(rhs) as i32
    }

    /// The neighbor of `self` in direction `dir`.
    pub fn neighbor(self, dir: Direction) -> (r: Hex)
        requires
            self@.neighbor(dir).fits(),
        ensures
            r@ == self@.neighbor(dir),
    {
        let step = Self::neighbor_coord(dir);
        Hex { x: self.x + step.x, y: self.y + step.y }
    }

    /// The neighbor of `self` towards the vertex in direction `dir`.
    pub fn diagonal_neighbor(self, dir: DiagonalDirection) -> (r: Hex)
        requires
            self@.plus(Axial::diagonal_unit(dir)).fits(),
        ensures
            r@ == self@.plus(Axial::diagonal_unit(dir)),
    {
        let step = Self::diagonal_neighbor_coord(dir);
        Hex { x: self.x + step.x, y: self.y + step.y }
    }

    /// Whether all six neighbors of `self` have `i32` coordinates.
    pub open spec fn neighbors_fit(self) -> bool {
        i32::MIN < self.x < i32::MAX && i32::MIN < self.y < i32::MAX
    }

    /// The six neighbors of `self`, in the order of
    /// [`Direction::ALL_DIRECTIONS`].
    pub fn all_neighbors(self) -> (r: [Hex; 6])
        requires
            self.neighbors_fit(),
        ensures
            forall|d: Direction| (#[trigger] r[d.spec_index()])@ == self@.neighbor(d),
    {
        [
            Hex { x: self.x + 1, y: self.y - 1 },
            Hex { x: self.x, y: self.y - 1 },
            Hex { x: self.x - 1, y: self.y },
            Hex { x: self.x - 1, y: self.y + 1 },
            Hex { x: self.x, y: self.y + 1 },
            Hex { x: self.x + 1, y: self.y },
        ]
    }

    /// `self` turned by 60 degrees counter clockwise around the origin.
    pub fn counter_clockwise(self) -> (r: Hex)
        requires
            self@.ccw().fits(),
        ensures
            r@ == self@.ccw(),
    {
        Hex { x: self.x + self.y, y: -self.x }
    }

    /// `self` turned by 60 degrees clockwise around the origin.
    pub fn clockwise(self) -> (r: Hex)
        requires
            self@.cw().fits(),
        ensures
            r@ == self@.cw(),
    {
        Hex { x: -self.y, y: self.x + self.y }
    }

    /// `self` mirrored at the `x` axis.
    pub fn reflect_x(self) -> (r: Hex)
        requires
            fits_i32(self@.z()),
        ensures
            r@ == self@.reflect_x(),
    {
        Hex { x: self.x, y: self.z() }
    }

    /// `self` mirrored at the `y` axis.
    pub fn reflect_y(self) -> (r: Hex)
        requires
            fits_i32(self@.z()),
        ensures
            r@ == self@.reflect_y(),
    {
        Hex { x: self.z(), y: self.y }
    }

    /// `self` mirrored at the `z` axis.
    pub fn reflect_z(self) -> (r: Hex)
        ensures
            r@ == self@.reflect_z(),
    {
        Hex { x: self.y, y: self.x }
    }

    /// `self` turned by `m` times 60 degrees counter clockwise around the
    /// origin.
    pub fn rotate_ccw(self, m: u32) -> (r: Hex)
        requires
            self@.rotations_fit(),
        ensures
            r@ == self@.rotate_ccw(m as nat),
    {
        let k: u32 = m % 6;
        if k == 0 {
            self
        } else if k == 1 {
            Hex { x: self.x + self.y, y: -self.x }
        } else if k == 2 {
            Hex { x: self.y, y: -self.x - self.y }
        } else if k == 3 {
            Hex { x: -self.x, y: -self.y }
        } else if k == 4 {
            Hex { x: -self.x - self.y, y: self.x }
        } else {
            Hex { x: -self.y, y: self.x + self.y }
        }
    }

    /// `self` turned by `m` times 60 degrees clockwise around the origin.
    pub fn rotate_cw(self, m: u32) -> (r: Hex)
        requires
            self@.rotations_fit(),
        ensures
            r@ == self@.rotate_cw(m as nat),
    {
        let k: u32 = m % 6;
        if k == 0 {
            self
        } else if k == 1 {
            Hex { x: -self.y, y: self.x + self.y }
        } else if k == 2 {
            Hex { x: -self.x - self.y, y: self.x }
        } else if k == 3 {
            Hex { x: -self.x, y: -self.y }
        } else if k == 4 {
            Hex { x: self.y, y: -self.x - self.y }
        } else {
            Hex { x: self.x + self.y, y: -self.x }
        }
    }
}

impl Axial {
    /// Turning counter clockwise and then clockwise by the same number of
    /// steps, or the other way round, gives the point back.
    pub proof fn lemma_rotations_cancel(self, m: nat)
        ensures
            self.rotate_ccw(m).rotate_cw(m) == self,
            self.rotate_cw(m).rotate_ccw(m) == self,
    {
    }

    /// Turning by a multiple of six steps, either way, is the identity.
    pub proof fn lemma_full_turns(self, turns: nat)
        ensures
            self.rotate_cw(6 * turns) == self,
            self.rotate_ccw(6 * turns) == self,
    {
    }

    /// One more step of rotation is one more turn by 60 degrees.
    pub proof fn lemma_rotation_step(self, m: nat)
        ensures
            self.rotate_ccw(m + 1) == self.rotate_ccw(m).ccw(),
            self.rotate_cw(m + 1) == self.rotate_cw(m).cw(),
    {
        let k = m % 6;
        assert((m + 1) % 6 == (k + 1) % 6);
    }

    /// Rotations add up: `a` steps followed by `b` steps are `a + b` steps.
    pub proof fn lemma_rotations_compose(self, a: nat, b: nat)
        ensures
            self.rotate_cw(a).rotate_cw(b) == self.rotate_cw(a + b),
            self.rotate_ccw(a).rotate_ccw(b) == self.rotate_ccw(a + b),
        decreases b,
    {
        if b > 0 {
            let c = (b - 1) as nat;
            self.lemma_rotations_compose(a, c);
            self.rotate_cw(a).lemma_rotation_step(c);
            self.rotate_ccw(a).lemma_rotation_step(c);
            self.lemma_rotation_step(a + c);
            assert(self.rotate_cw(a).rotate_cw(b) == self.rotate_cw(a).rotate_cw(c).cw());
            assert(self.rotate_cw(a + b) == self.rotate_cw(a + c).cw());
            assert(self.rotate_ccw(a).rotate_ccw(b) == self.rotate_ccw(a).rotate_ccw(c).ccw());
            assert(self.rotate_ccw(a + b) == self.rotate_ccw(a + c).ccw());
        } else {
            assert(self.rotate_cw(a).rotate_cw(0) == self.rotate_cw(a));
            assert(self.rotate_ccw(a).rotate_ccw(0) == self.rotate_ccw(a));
        }
    }

    /// A turn by 60 degrees keeps the distance to the origin.
    pub proof fn lemma_turn_keeps_length(self)
        ensures
            self.cw().length() == self.length(),
            self.ccw().length() == self.length(),
            self.negated().length() == self.length(),
    {
    }

    /// A rotation keeps the distance to the origin.
    pub proof fn lemma_rotation_keeps_length(self, m: nat)
        ensures
            self.rotate_cw(m).length() == self.length(),
            self.rotate_ccw(m).length() == self.length(),
    {
        self.lemma_turn_keeps_length();
        self.cw().lemma_turn_keeps_length();
        self.ccw().lemma_turn_keeps_length();
    }

    /// The unit step of a rotated direction is the rotated unit step.
    pub proof fn lemma_unit_rotates(dir: Direction, m: nat)
        ensures
            Self::unit(dir.spec_rotate_ccw(m)) == Self::unit(dir).rotate_ccw(m),
            Self::unit(dir.spec_rotate_cw(m)) == Self::unit(dir).rotate_cw(m),
    {
    }

    /// The distance is symmetric, never negative, and zero between equal
    /// points only.
    pub proof fn lemma_distance_basics(self, rhs: Axial)
        ensures
            self.distance(rhs) == rhs.distance(self),
            self.distance(rhs) >= 0,
            self.distance(rhs) == 0 <==> self == rhs,
    {
    }

    /// The distance obeys the triangle inequality.
    pub proof fn lemma_distance_triangle(self, mid: Axial, rhs: Axial)
        ensures
            self.distance(rhs) <= self.distance(mid) + mid.distance(rhs),
    {
    }

    /// The points at distance one are exactly the six neighbors.
    pub proof fn lemma_neighbors_at_distance_one(self, rhs: Axial)
        ensures
            self.is_neighbor(rhs) <==> exists|d: Direction| rhs == #[trigger] self.neighbor(d),
    {
        if self.is_neighbor(rhs) {
            let dx = rhs.x - self.x;
            let dy = rhs.y - self.y;
            let d = if dx == 1 && dy == -1 {
                Direction::TopRight
            } else if dx == 0 && dy == -1 {
                Direction::Top
            } else if dx == -1 && dy == 0 {
                Direction::TopLeft
            } else if dx == -1 && dy == 1 {
                Direction::BottomLeft
            } else if dx == 0 && dy == 1 {
                Direction::Bottom
            } else {
                Direction::BottomRight
            };
            assert(rhs == self.neighbor(d));
        }
    }

    /// A step to a neighbor changes the distance to any point by at most
    /// one, so no walk between two points is shorter than their distance.
    pub proof fn lemma_step_changes_distance_by_one(self, dir: Direction, target: Axial)
        ensures
            self.distance(target) - 1 <= self.neighbor(dir).distance(target) <= self.distance(
                target,
            ) + 1,
    {
    }

    /// From a point other than `target`, a step to one of the neighbors
    /// leads nearer to `target`: with the lemma above, the distance is the
    /// length of the shortest walk between two points.
    pub proof fn lemma_step_towards(self, target: Axial)
        requires
            self != target,
        ensures
            exists|d: Direction| #[trigger]
                self.neighbor(d).distance(target) == self.distance(target) - 1,
    {
        let l = self.distance(target);
        assert(self.neighbor(Direction::TopRight).distance(target) == l - 1 || self.neighbor(
            Direction::Top,
        ).distance(target) == l - 1 || self.neighbor(Direction::TopLeft).distance(target) == l - 1
            || self.neighbor(Direction::BottomLeft).distance(target) == l - 1 || self.neighbor(
            Direction::Bottom,
        ).distance(target) == l - 1 || self.neighbor(Direction::BottomRight).distance(target) == l
            - 1);
    }

    /// A reflection undone by itself, and the distance to the origin kept.
    pub proof fn lemma_reflections(self)
        ensures
            self.reflect_x().reflect_x() == self,
            self.reflect_y().reflect_y() == self,
            self.reflect_z().reflect_z() == self,
            self.reflect_x().length() == self.length(),
            self.reflect_y().length() == self.length(),
            self.reflect_z().length() == self.length(),
    {
    }

    /// Scaling a point scales its distance to the origin.
    pub proof fn lemma_times_scales_length(self, k: int)
        ensures
            self.times(k).length() == self.length() * abs(k),
    {
        let l = self.length();
        let a = abs(k);
        assert(abs(self.x * k) == abs(self.x) * a) by (nonlinear_arith)
            requires
                a == abs(k),
        ;
        assert(abs(self.y * k) == abs(self.y) * a) by (nonlinear_arith)
            requires
                a == abs(k),
        ;
        assert(abs(self.x * k + self.y * k) == abs(self.x + self.y) * a) by (nonlinear_arith)
            requires
                a == abs(k),
        ;
        assert(abs(self.x) * a <= l * a && abs(self.y) * a <= l * a && abs(self.x + self.y) * a
            <= l * a) by (nonlinear_arith)
            requires
                a >= 0,
                abs(self.x) <= l,
                abs(self.y) <= l,
                abs(self.x + self.y) <= l,
        ;
    }
}

} // verus!
