//! Assembly of hexagonal column meshes.
use vstd::prelude::*;
use crate::direction::Direction;
use crate::hex::Hex;
use crate::mesh::mesh_info::{ints, rebased, MeshInfo};
use crate::mesh::utils::{Hexagon, Quad};

verus! {

/// What a side quad of a column is made of: the two vertices of its lower
/// edge (left, right), the two above them, the normal of the side and the
/// texture coordinates of the four vertices in the order of
/// [`Quad::from_bottom`].
pub struct SideGeometry<P, U> {
    pub bottom: [P; 2],
    pub top: [P; 2],
    pub normal: P,
    pub uvs: [U; 4],
}

/// What a hexagonal cap of a column is made of: its six corners in the
/// order of the six directions, its normal and the texture coordinates of
/// the corners.
pub struct CapGeometry<P, U> {
    pub corners: [P; 6],
    pub normal: P,
    pub uvs: [U; 6],
}

/// Whether the buffer `buf` holds the elements of `part`, in order, from
/// position `at` on.
pub open spec fn placed_at<T>(buf: Seq<T>, at: int, part: Seq<T>) -> bool {
    &&& 0 <= at
    &&& at + part.len() <= buf.len()
    &&& forall|i: int| 0 <= i < part.len() ==> buf[at + i] == #[trigger] part[i]
}

impl<P, U> SideGeometry<P, U> {
    /// The positions of the quad's four vertices, in their order in the
    /// mesh.
    pub open spec fn positions(self) -> Seq<P> {
        seq![self.bottom[1], self.top[1], self.top[0], self.bottom[0]]
    }

    /// The normals of the quad's four vertices.
    pub open spec fn normals(self) -> Seq<P> {
        seq![self.normal, self.normal, self.normal, self.normal]
    }

    /// Whether `mesh` holds the quad's vertices from position `at` on.
    pub open spec fn placed(self, mesh: &MeshInfo<P, U>, at: int) -> bool {
        &&& placed_at(mesh.vertices@, at, self.positions())
        &&& placed_at(mesh.normals@, at, self.normals())
        &&& placed_at(mesh.uvs@, at, self.uvs@)
    }
}

impl<P, U> CapGeometry<P, U> {
    /// The normals of the cap's six vertices.
    pub open spec fn normals(self) -> Seq<P> {
        seq![self.normal, self.normal, self.normal, self.normal, self.normal, self.normal]
    }

    /// Whether `mesh` holds the cap's vertices from position `at` on.
    pub open spec fn placed(self, mesh: &MeshInfo<P, U>, at: int) -> bool {
        &&& placed_at(mesh.vertices@, at, self.corners@)
        &&& placed_at(mesh.normals@, at, self.normals())
        &&& placed_at(mesh.uvs@, at, self.uvs@)
    }
}

/// Whether `mesh` holds, from position `at` on, the vertices of a quad that
/// `side` may give for subdivision `div` and the edge that starts at the
/// corner of direction `edge`.
pub open spec fn side_placed<P, U, S: Fn(usize, Direction) -> SideGeometry<P, U>>(
    side: S,
    mesh: &MeshInfo<P, U>,
    div: int,
    edge: int,
    at: int,
) -> bool {
    exists|g: SideGeometry<P, U>|
        call_ensures(side, (div as usize, Direction::spec_from_index(edge)), g)
            && #[trigger] g.placed(mesh, at)
}

/// Whether `mesh` holds, from position `at` on, the vertices of a cap that
/// `cap` may give for the top (`top` set) or the bottom of the column.
pub open spec fn cap_placed<P, U, C: Fn(bool) -> CapGeometry<P, U>>(
    cap: C,
    mesh: &MeshInfo<P, U>,
    top: bool,
    at: int,
) -> bool {
    exists|g: CapGeometry<P, U>| call_ensures(cap, (top,), g) && #[trigger] g.placed(mesh, at)
}

/// A part that a buffer holds is still held, at the same place, after more
/// elements were appended to the buffer.
pub proof fn lemma_placed_at_extends<T>(buf: Seq<T>, more: Seq<T>, at: int, part: Seq<T>)
    requires
        placed_at(buf, at, part),
    ensures
        placed_at(buf + more, at, part),
{
    assert forall|i: int| 0 <= i < part.len() implies (buf + more)[at + i]
        == #[trigger] part[i] by {
        assert(buf[at + i] == part[i]);
    }
}

/// The triangle indices of the first `quads` side quads of a column: the
/// two triangles of each quad, moved up by four per quad before it.
pub open spec fn quad_indices(quads: int) -> Seq<int> {
    Seq::new((6 * quads) as nat, |i: int| seq![2int, 1, 0, 0, 3, 2][i % 6] + 4 * (i / 6))
}

/// The triangle indices of a hexagonal cap whose vertices start at
/// position `at`.
pub open spec fn cap_indices(at: int) -> Seq<int> {
    Seq::new(12, |i: int| seq![0int, 2, 1, 3, 5, 4, 0, 5, 3, 3, 2, 0][i] + at)
}

/// The triangle indices of a column with `divisions` quads on each of its
/// six sides, followed by a top cap if `top` and a bottom cap if `bottom`:
/// each part's indices moved up by the number of vertices before it.
pub open spec fn column_indices(divisions: int, top: bool, bottom: bool) -> Seq<int> {
    let quads = quad_indices(6 * divisions);
    if top && bottom {
        quads + cap_indices(24 * divisions) + cap_indices(24 * divisions + 6)
    } else if top || bottom {
        quads + cap_indices(24 * divisions)
    } else {
        quads
    }
}

/// Builder of a hexagonal column: a band of quads around the six edges of
/// a hexagon, repeated once per subdivision of the height, with an
/// optional hexagonal cap at the top and at the bottom.
///
/// The builder decides what the mesh consists of and where each part's
/// vertices and indices go. The geometry of each part is asked of the
/// caller when the mesh is built.
#[derive(Debug, Clone, Copy)]
pub struct ColumnMeshBuilder {
    /// The hexagon on which the column stands
    pos: Hex,
    /// Number of quads on each side of the column
    subdivisions: Option<usize>,
    /// Whether the top cap is part of the mesh
    top_face: bool,
    /// Whether the bottom cap is part of the mesh
    bottom_face: bool,
}

impl ColumnMeshBuilder {
    /// The hexagon on which the column stands.
    pub closed spec fn spec_pos(self) -> Hex {
        self.pos
    }

    /// The number of subdivisions asked for, if any.
    pub closed spec fn spec_subdivisions(self) -> Option<usize> {
        self.subdivisions
    }

    /// Whether the top cap is part of the mesh.
    pub closed spec fn has_top_face(self) -> bool {
        self.top_face
    }

    /// Whether the bottom cap is part of the mesh.
    pub closed spec fn has_bottom_face(self) -> bool {
        self.bottom_face
    }

    /// Number of quads on each side: the number of subdivisions asked for,
    /// and one where none or zero were.
    pub open spec fn side_divisions(self) -> int {
        match self.spec_subdivisions() {
            Some(n) => if n >= 1 {
                n as int
            } else {
                1
            },
            None => 1,
        }
    }

    /// Number of vertices of the mesh: four per quad, six per cap.
    pub open spec fn vertex_count(self) -> int {
        24 * self.side_divisions() + (if self.has_top_face() {
            6int
        } else {
            0
        }) + (if self.has_bottom_face() {
            6int
        } else {
            0
        })
    }

    /// A column at the origin with both caps and one quad per side.
    pub fn new() -> (r: Self)
        ensures
            r.spec_pos() == Hex::zero_spec(),
            r.spec_subdivisions() == None::<usize>,
            r.has_top_face(),
            r.has_bottom_face(),
    {
        ColumnMeshBuilder {
            pos: Hex { x: 0, y: 0 },
            subdivisions: None,
            top_face: true,
            bottom_face: true,
        }
    }

    /// Places the column on the hexagon `pos`.
    pub fn at(self, pos: Hex) -> (r: Self)
        ensures
            r.spec_pos() == pos,
            r.spec_subdivisions() == self.spec_subdivisions(),
            r.has_top_face() == self.has_top_face(),
            r.has_bottom_face() == self.has_bottom_face(),
    {
        ColumnMeshBuilder { pos, ..self }
    }

    /// Sets the number of quads on each side of the column.
    pub fn with_subdivisions(self, subdivisions: usize) -> (r: Self)
        ensures
            r.spec_pos() == self.spec_pos(),
            r.spec_subdivisions() == Some(subdivisions),
            r.has_top_face() == self.has_top_face(),
            r.has_bottom_face() == self.has_bottom_face(),
    {
        ColumnMeshBuilder { subdivisions: Some(subdivisions), ..self }
    }

    /// Leaves the bottom cap out of the mesh.
    pub fn without_bottom_face(self) -> (r: Self)
        ensures
            r.spec_pos() == self.spec_pos(),
            r.spec_subdivisions() == self.spec_subdivisions(),
            r.has_top_face() == self.has_top_face(),
            !r.has_bottom_face(),
    {
        ColumnMeshBuilder { bottom_face: false, ..self }
    }

    /// Leaves the top cap out of the mesh.
    pub fn without_top_face(self) -> (r: Self)
        ensures
            r.spec_pos() == self.spec_pos(),
            r.spec_subdivisions() == self.spec_subdivisions(),
            !r.has_top_face(),
            r.has_bottom_face() == self.has_bottom_face(),
    {
        ColumnMeshBuilder { top_face: false, ..self }
    }

    /// The hexagon on which the column stands.
    pub fn pos(&self) -> (r: Hex)
        ensures
            r == self.spec_pos(),
    {
        self.pos
    }

    /// Number of quads on each side of the column.
    pub fn divisions(&self) -> (r: usize)
        ensures
            r == self.side_divisions(),
    {
        match self.subdivisions {
            Some(n) => if n >= 1 {
                n
            } else {
                1
            },
            None => 1,
        }
    }
}

impl ColumnMeshBuilder {
    /// Appends one hexagonal cap to `mesh`.
    fn add_cap<P: Copy, U: Copy>(mesh: &mut MeshInfo<P, U>, g: CapGeometry<P, U>)
        requires
            old(mesh).wf(),
            old(mesh).vertices@.len() + 6 <= u16::MAX + 1,
        ensures
            final(mesh).wf(),
            final(mesh).vertices@ == old(mesh).vertices@ + g.corners@,
            final(mesh).normals@ == old(mesh).normals@ + g.normals(),
            final(mesh).uvs@ == old(mesh).uvs@ + g.uvs@,
            ints(final(mesh).indices@) == ints(old(mesh).indices@) + cap_indices(
                old(mesh).vertices@.len() as int,
            ),
            g.placed(final(mesh), old(mesh).vertices@.len() as int),
    {
        let face = Hexagon::center_aligned(g.corners, g.normal, g.uvs);
        let part = face.into_mesh_info();
        let ghost part_indices = part.indices@;
        assert(ints(part_indices).len() == part_indices.len());
        assert(face.indices().len() == 12);
        assert forall|i: int| 0 <= i < part.indices@.len() implies (#[trigger] part.indices@[i])
            + mesh.vertices@.len() <= u16::MAX by {
            assert(ints(part.indices@)[i] == part.indices@[i]);
        }
        mesh.merge_with(part);
        proof {
            let at = old(mesh).vertices@.len() as int;
            assert(rebased(part_indices, at) =~= cap_indices(at)) by {
                assert forall|i: int| 0 <= i < 12 implies rebased(part_indices, at)[i]
                    == cap_indices(at)[i] by {
                    assert(ints(part_indices)[i] == part_indices[i]);
                }
            }
        }
    }

    /// Appends one side quad to `mesh`.
    fn add_side<P: Copy, U: Copy>(mesh: &mut MeshInfo<P, U>, g: SideGeometry<P, U>)
        requires
            old(mesh).wf(),
            old(mesh).vertices@.len() + 4 <= u16::MAX + 1,
        ensures
            final(mesh).wf(),
            final(mesh).vertices@ == old(mesh).vertices@ + g.positions(),
            final(mesh).normals@ == old(mesh).normals@ + g.normals(),
            final(mesh).uvs@ == old(mesh).uvs@ + g.uvs@,
            ints(final(mesh).indices@) == ints(old(mesh).indices@) + Seq::new(
                6,
                |i: int| seq![2int, 1, 0, 0, 3, 2][i] + old(mesh).vertices@.len(),
            ),
            g.placed(final(mesh), old(mesh).vertices@.len() as int),
    {
        let quad = Quad::from_bottom(g.bottom, g.top, g.normal, g.uvs);
        let part = quad.into_mesh_info();
        let ghost part_indices = part.indices@;
        assert(ints(part_indices).len() == part_indices.len());
        assert(quad.indices().len() == 6);
        assert forall|i: int| 0 <= i < part.indices@.len() implies (#[trigger] part.indices@[i])
            + mesh.vertices@.len() <= u16::MAX by {
            assert(ints(part.indices@)[i] == part.indices@[i]);
        }
        mesh.merge_with(part);
        proof {
            let at = old(mesh).vertices@.len() as int;
            assert(rebased(part_indices, at) =~= Seq::new(
                6,
                |i: int| seq![2int, 1, 0, 0, 3, 2][i] + at,
            )) by {
                assert forall|i: int| 0 <= i < 6 implies rebased(part_indices, at)[i] == seq![
                    2int,
                    1,
                    0,
                    0,
                    3,
                    2,
                ][i] + at by {
                    assert(ints(part_indices)[i] == part_indices[i]);
                }
            }
        }
    }
}

impl ColumnMeshBuilder {
    /// Builds the mesh. For each subdivision from the lowest up, and in it
    /// for each of the six edges in the order of the directions of their
    /// first corner, `side` is asked for a quad; then `cap` is asked for
    /// the top cap, then for the bottom cap, as far as they are part of the
    /// mesh. The parts follow each other in that order in the buffers, and
    /// each part's triangles index its own vertices.
    pub fn build<P: Copy, U: Copy, S, C>(self, side: S, cap: C) -> (mesh: MeshInfo<P, U>) where
        S: Fn(usize, Direction) -> SideGeometry<P, U>,
        C: Fn(bool) -> CapGeometry<P, U>,

        requires
            self.vertex_count() <= u16::MAX + 1,
            forall|div: usize, edge: Direction| call_requires(side, (div, edge)),
            forall|top: bool| call_requires(cap, (top,)),
        ensures
            mesh.wf(),
            mesh.vertices@.len() == self.vertex_count(),
            ints(mesh.indices@) == column_indices(
                self.side_divisions(),
                self.has_top_face(),
                self.has_bottom_face(),
            ),
            forall|div: int, edge: int|
                0 <= div < self.side_divisions() && 0 <= edge < 6 ==> #[trigger] side_placed(
                    side,
                    &mesh,
                    div,
                    edge,
                    4 * (6 * div + edge),
                ),
            self.has_top_face() ==> cap_placed(cap, &mesh, true, 24 * self.side_divisions()),
            self.has_bottom_face() ==> cap_placed(
                cap,
                &mesh,
                false,
                24 * self.side_divisions() + (if self.has_top_face() {
                    6int
                } else {
                    0
                }),
            ),
    {
        let n = self.divisions();
        let mut mesh: MeshInfo<P, U> = MeshInfo::new();
        assert(ints(mesh.indices@) =~= quad_indices(0));
        let mut div: usize = 0;
        while div < n
            invariant
                0 <= div <= n,
                24 * n <= u16::MAX + 1,
                forall|d: usize, e: Direction| call_requires(side, (d, e)),
                mesh.wf(),
                mesh.vertices@.len() == 24 * div,
                ints(mesh.indices@) == quad_indices(6 * div),
                forall|d: int, e: int|
                    0 <= d < div && 0 <= e < 6 ==> #[trigger] side_placed(
                        side,
                        &mesh,
                        d,
                        e,
                        4 * (6 * d + e),
                    ),
            decreases n - div,
        {
            let mut edge: u8 = 0;
            while edge < 6
                invariant
                    0 <= div < n,
                    0 <= edge <= 6,
                    24 * n <= u16::MAX + 1,
                    forall|d: usize, e: Direction| call_requires(side, (d, e)),
                    mesh.wf(),
                    mesh.vertices@.len() == 24 * div + 4 * edge,
                    ints(mesh.indices@) == quad_indices(6 * div + edge),
                    forall|d: int, e: int|
                        (0 <= d < div && 0 <= e < 6) || (d == div && 0 <= e < edge)
                            ==> #[trigger] side_placed(side, &mesh, d, e, 4 * (6 * d + e)),
                decreases 6 - edge,
            {
                let g = side(div, Direction::from_index(edge));
                let ghost before = mesh;
                Self::add_side(&mut mesh, g);
                proof {
                    let j = 6 * div + edge;
                    assert(ints(mesh.indices@) =~= quad_indices(j + 1));
                    assert forall|d: int, e: int|
                        (0 <= d < div && 0 <= e < 6) || (d == div && 0 <= e < edge + 1)
                            implies #[trigger] side_placed(side, &mesh, d, e, 4 * (6 * d + e)) by {
                        if d == div && e == edge {
                            assert(g.placed(&mesh, 4 * j));
                        } else {
                            assert(side_placed(side, &before, d, e, 4 * (6 * d + e)));
                            let w = choose|w: SideGeometry<P, U>|
                                call_ensures(side, (d as usize, Direction::spec_from_index(e)), w)
                                    && #[trigger] w.placed(&before, 4 * (6 * d + e));
                            lemma_placed_at_extends(
                                before.vertices@,
                                g.positions(),
                                4 * (6 * d + e),
                                w.positions(),
                            );
                            lemma_placed_at_extends(
                                before.normals@,
                                g.normals(),
                                4 * (6 * d + e),
                                w.normals(),
                            );
                            lemma_placed_at_extends(before.uvs@, g.uvs@, 4 * (6 * d + e), w.uvs@);
                            assert(w.placed(&mesh, 4 * (6 * d + e)));
                        }
                    }
                }
                edge = edge + 1;
            }
            div = div + 1;
        }
        let ghost sides = mesh;
        if self.top_face {
            let g = cap(true);
            Self::add_cap(&mut mesh, g);
            proof {
                Self::lemma_sides_stay(side, &sides, &mesh, n as int, g);
            }
        }
        let ghost with_top = mesh;
        if self.bottom_face {
            let g = cap(false);
            Self::add_cap(&mut mesh, g);
            proof {
                Self::lemma_sides_stay(side, &with_top, &mesh, n as int, g);
                if self.top_face {
                    let w = choose|w: CapGeometry<P, U>|
                        call_ensures(cap, (true,), w) && #[trigger] w.placed(&with_top, 24 * n);
                    lemma_placed_at_extends(with_top.vertices@, g.corners@, 24 * n, w.corners@);
                    lemma_placed_at_extends(with_top.normals@, g.normals(), 24 * n, w.normals());
                    lemma_placed_at_extends(with_top.uvs@, g.uvs@, 24 * n, w.uvs@);
                    assert(w.placed(&mesh, 24 * n));
                }
            }
        }
        mesh
    }

    /// The side quads that a mesh holds are still held after a cap was
    /// appended to it.
    proof fn lemma_sides_stay<P, U, S: Fn(usize, Direction) -> SideGeometry<P, U>>(
        side: S,
        before: &MeshInfo<P, U>,
        after: &MeshInfo<P, U>,
        n: int,
        g: CapGeometry<P, U>,
    )
        requires
            after.vertices@ == before.vertices@ + g.corners@,
            after.normals@ == before.normals@ + g.normals(),
            after.uvs@ == before.uvs@ + g.uvs@,
            forall|d: int, e: int|
                0 <= d < n && 0 <= e < 6 ==> #[trigger] side_placed(
                    side,
                    before,
                    d,
                    e,
                    4 * (6 * d + e),
                ),
        ensures
            forall|d: int, e: int|
                0 <= d < n && 0 <= e < 6 ==> #[trigger] side_placed(
                    side,
                    after,
                    d,
                    e,
                    4 * (6 * d + e),
                ),
    {
        assert forall|d: int, e: int| 0 <= d < n && 0 <= e < 6 implies #[trigger] side_placed(
            side,
            after,
            d,
            e,
            4 * (6 * d + e),
        ) by {
            assert(side_placed(side, before, d, e, 4 * (6 * d + e)));
            let w = choose|w: SideGeometry<P, U>|
                call_ensures(side, (d as usize, Direction::spec_from_index(e)), w)
                    && #[trigger] w.placed(before, 4 * (6 * d + e));
            lemma_placed_at_extends(before.vertices@, g.corners@, 4 * (6 * d + e), w.positions());
            lemma_placed_at_extends(before.normals@, g.normals(), 4 * (6 * d + e), w.normals());
            lemma_placed_at_extends(before.uvs@, g.uvs@, 4 * (6 * d + e), w.uvs@);
            assert(w.placed(after, 4 * (6 * d + e)));
        }
    }
}

} // verus!
