//! Triangles and fixed-size faces.
use vstd::prelude::*;
use crate::mesh::mesh_info::{ints, rebased, MeshInfo};

verus! {

/// The six indices of the two triangles that connect edge `v` of a face of
/// `verts` vertices with the same edge of its inset copy. The vertices of
/// the copy follow those of the face, `verts` places further on. With
/// `flip` both triangles are wound the other way round.
pub open spec fn connector(verts: int, v: int, flip: bool) -> Seq<int> {
    let next = (v + 1) % verts;
    if flip {
        seq![v, next, next + verts, next + verts, v + verts, v]
    } else {
        seq![next + verts, next, v, v, v + verts, next + verts]
    }
}

/// The indices of the ring of triangles between a face of `verts` vertices
/// and its inset copy: one [`connector`] per edge, in order.
pub open spec fn connectors(verts: int, flip: bool) -> Seq<int> {
    Seq::new((6 * verts) as nat, |i: int| connector(verts, i / 6, flip)[i % 6])
}

/// Index of a vertex in the buffers of a mesh.
pub type VertexIdx = u16;

/// Three vertex indices: one triangle.
#[derive(Debug, Clone, Copy)]
pub struct Tri(pub [VertexIdx; 3]);

impl Tri {
    /// Reverses the order of the three indices, which makes the triangle
    /// face the other way.
    pub fn flip(&mut self)
        ensures
            final(self).0[0] == old(self).0[2],
            final(self).0[1] == old(self).0[1],
            final(self).0[2] == old(self).0[0],
    {
        let a = self.0[0];
        let b = self.0[1];
        let c = self.0[2];
        self.0 = [c, b, a];
    }
}

/// A face with a fixed number of vertices and triangles. `P` is the type of
/// a position or normal, `U` the type of a texture coordinate.
#[derive(Debug, Clone)]
pub struct Face<P, U, const VERTS: usize, const TRIS: usize> {
    /// Vertex positions
    pub positions: [P; VERTS],
    /// Vertex normals
    pub normals: [P; VERTS],
    /// Vertex texture coordinates
    pub uvs: [U; VERTS],
    /// Triangles, as indices into the three arrays above
    pub triangles: [Tri; TRIS],
}

/// A face of 4 vertices and 2 triangles.
pub type Quad<P, U> = Face<P, U, 4, 2>;

/// A hexagonal face of 6 vertices and 4 triangles.
pub type Hexagon<P, U> = Face<P, U, 6, 4>;

impl<P: Copy, U: Copy> Face<P, U, 4, 2> {
    /// A quad over the edge from `bottom[0]` (left) to `bottom[1]` (right),
    /// with `top` holding the two vertices above them in the same order.
    /// All four vertices get the normal `normal`; `uvs` are the texture
    /// coordinates of the vertices in their final order.
    ///
    /// The vertices are laid out, and the two triangles wound, like this:
    ///
    /// ```txt
    /// 2 - 1
    /// | \ |
    /// 3 - 0
    /// ```
    pub fn from_bottom(bottom: [P; 2], top: [P; 2], normal: P, uvs: [U; 4]) -> (r: Self)
        ensures
            r.positions@ == seq![bottom[1], top[1], top[0], bottom[0]],
            r.normals@ == seq![normal, normal, normal, normal],
            r.uvs@ == uvs@,
            r.indices() == seq![2int, 1, 0, 0, 3, 2],
            r.wf(),
    {
        let r = Face {
            positions: [bottom[1], top[1], top[0], bottom[0]],
            normals: [normal, normal, normal, normal],
            uvs,
            triangles: [Tri([2, 1, 0]), Tri([0, 3, 2])],
        };
        assert(r.positions@ =~= seq![bottom[1], top[1], top[0], bottom[0]]);
        assert(r.normals@ =~= seq![normal, normal, normal, normal]);
        assert(r.indices() =~= seq![2int, 1, 0, 0, 3, 2]);
        r
    }
}

impl<P: Copy, U: Copy> Face<P, U, 6, 4> {
    /// A hexagonal face over the six `corners`, given in the order of the
    /// six directions. All vertices get the normal `normal`; `uvs` are the
    /// texture coordinates of the corners. Four triangles cover the
    /// hexagon: one at the top, one at the bottom, and two that split the
    /// quad between them.
    pub fn center_aligned(corners: [P; 6], normal: P, uvs: [U; 6]) -> (r: Self)
        ensures
            r.positions@ == corners@,
            r.normals@ == seq![normal, normal, normal, normal, normal, normal],
            r.uvs@ == uvs@,
            r.indices() == seq![0int, 2, 1, 3, 5, 4, 0, 5, 3, 3, 2, 0],
            r.wf(),
    {
        let r = Face {
            positions: corners,
            normals: [normal, normal, normal, normal, normal, normal],
            uvs,
            triangles: [Tri([0, 2, 1]), Tri([3, 5, 4]), Tri([0, 5, 3]), Tri([3, 2, 0])],
        };
        assert(r.normals@ =~= seq![normal, normal, normal, normal, normal, normal]);
        assert(r.indices() =~= seq![0int, 2, 1, 3, 5, 4, 0, 5, 3, 3, 2, 0]);
        r
    }
}

impl<P, U, const VERTS: usize, const TRIS: usize> Face<P, U, VERTS, TRIS> {
    /// The vertex indices of the triangles, three per triangle, in order.
    pub open spec fn indices(&self) -> Seq<int> {
        Seq::new((3 * TRIS) as nat, |i: int| self.triangles[i / 3].0[i % 3] as int)
    }

    /// Whether every triangle index is that of a vertex of the face.
    pub open spec fn wf(&self) -> bool {
        forall|i: int| 0 <= i < 3 * TRIS ==> 0 <= #[trigger] self.indices()[i] < VERTS
    }
}

/// The elements of `a`, in order, as a vector.
fn array_to_vec<T: Copy, const N: usize>(a: &[T; N]) -> (v: Vec<T>)
    ensures
        v@ == a@,
{
    let mut v: Vec<T> = Vec::new();
    let mut i: usize = 0;
    while i < N
        invariant
            0 <= i <= N,
            v@.len() == i,
            forall|j: int| 0 <= j < i ==> v@[j] == a@[j],
        decreases N - i,
    {
        v.push(a[i]);
        i = i + 1;
    }
    assert(v@ =~= a@);
    v
}

impl<P: Copy, U: Copy, const VERTS: usize, const TRIS: usize> Face<P, U, VERTS, TRIS> {
    /// The face as mesh buffers: its vertices in order, and its triangles'
    /// indices one after the other.
    pub fn into_mesh_info(self) -> (r: MeshInfo<P, U>)
        ensures
            r.vertices@ == self.positions@,
            r.normals@ == self.normals@,
            r.uvs@ == self.uvs@,
            ints(r.indices@) == self.indices(),
            self.wf() ==> r.wf(),
    {
        let mut indices: Vec<u16> = Vec::new();
        let mut t: usize = 0;
        while t < TRIS
            invariant
                0 <= t <= TRIS,
                indices@.len() == 3 * t,
                forall|j: int| 0 <= j < 3 * t ==> (#[trigger] indices@[j]) == self.indices()[j],
            decreases TRIS - t,
        {
            let tri = self.triangles[t];
            indices.push(tri.0[0]);
            indices.push(tri.0[1]);
            indices.push(tri.0[2]);
            t = t + 1;
        }
        let r = MeshInfo {
            vertices: array_to_vec(&self.positions),
            normals: array_to_vec(&self.normals),
            uvs: array_to_vec(&self.uvs),
            indices,
        };
        assert(ints(r.indices@) =~= self.indices());
        assert(self.wf() ==> r.wf()) by {
            if self.wf() {
                assert forall|i: int| 0 <= i < r.indices@.len() implies (#[trigger] r.indices@[i])
                    < r.vertices@.len() by {
                    assert(self.indices()[i] == r.indices@[i]);
                }
            }
        }
        r
    }
}

impl<P: Copy, U: Copy, const VERTS: usize, const TRIS: usize> Face<P, U, VERTS, TRIS> {
    /// Insets the face: the result holds the vertices of the face, then
    /// those of an inner copy of it with the positions `inset_positions`
    /// and texture coordinates `inset_uvs` (the normals are those of the
    /// face), and a ring of two triangles per edge that connects the two
    /// boundaries. With `flip` the ring is wound the other way round. The
    /// triangles of the inner copy follow the ring if `keep_inner_face` is
    /// set, and are left out otherwise.
    pub fn inset(
        self,
        inset_positions: [P; VERTS],
        inset_uvs: [U; VERTS],
        flip: bool,
        keep_inner_face: bool,
    ) -> (r: MeshInfo<P, U>)
        requires
            2 * VERTS <= u16::MAX + 1,
            keep_inner_face ==> forall|i: int|
                0 <= i < 3 * TRIS ==> (#[trigger] self.indices()[i]) + VERTS <= u16::MAX,
        ensures
            r.vertices@ == self.positions@ + inset_positions@,
            r.normals@ == self.normals@ + self.normals@,
            r.uvs@ == self.uvs@ + inset_uvs@,
            keep_inner_face ==> ints(r.indices@) == connectors(VERTS as int, flip) + Seq::new(
                (3 * TRIS) as nat,
                |i: int| self.indices()[i] + VERTS,
            ),
            !keep_inner_face ==> ints(r.indices@) == connectors(VERTS as int, flip),
            !keep_inner_face || self.wf() ==> r.wf(),
    {
        let inner_face = Face {
            positions: inset_positions,
            normals: self.normals,
            uvs: inset_uvs,
            triangles: self.triangles,
        };
        assert(inner_face.indices() =~= self.indices());
        let mut inner = inner_face.into_mesh_info();
        if !keep_inner_face {
            inner.indices.clear();
        }
        let mut mesh = self.into_mesh_info();
        mesh.indices.clear();
        let vertex_count: u16 = VERTS as u16;
        let mut v_idx: u16 = 0;
        while v_idx < vertex_count
            invariant
                0 <= v_idx <= vertex_count,
                vertex_count == VERTS,
                2 * VERTS <= u16::MAX + 1,
                mesh.vertices@ == self.positions@,
                mesh.normals@ == self.normals@,
                mesh.uvs@ == self.uvs@,
                mesh.indices@.len() == 6 * v_idx,
                forall|j: int|
                    0 <= j < 6 * v_idx ==> (#[trigger] mesh.indices@[j]) == connectors(
                        VERTS as int,
                        flip,
                    )[j],
            decreases vertex_count - v_idx,
        {
            let next_v_idx = (v_idx + 1) % vertex_count;
            let inset_v_idx = v_idx + vertex_count;
            let next_inset_v_idx = next_v_idx + vertex_count;
            let mut a = Tri([next_inset_v_idx, next_v_idx, v_idx]);
            let mut b = Tri([v_idx, inset_v_idx, next_inset_v_idx]);
            if flip {
                a.flip();
                b.flip();
            }
            let ghost before = mesh.indices@;
            mesh.indices.push(a.0[0]);
            mesh.indices.push(a.0[1]);
            mesh.indices.push(a.0[2]);
            mesh.indices.push(b.0[0]);
            mesh.indices.push(b.0[1]);
            mesh.indices.push(b.0[2]);
            proof {
                let c = connector(VERTS as int, v_idx as int, flip);
                assert forall|j: int| 6 * v_idx <= j < 6 * v_idx + 6 implies (
                #[trigger] mesh.indices@[j]) == connectors(VERTS as int, flip)[j] by {
                    assert(j / 6 == v_idx as int);
                    assert(mesh.indices@[j] == c[j % 6]);
                }
                assert forall|j: int| 0 <= j < 6 * v_idx implies (#[trigger] mesh.indices@[j])
                    == connectors(VERTS as int, flip)[j] by {
                    assert(mesh.indices@[j] == before[j]);
                }
            }
            v_idx = v_idx + 1;
        }
        let ghost ring = mesh.indices@;
        assert(ints(ring) =~= connectors(VERTS as int, flip));
        assert(forall|i: int|
            0 <= i < inner.indices@.len() ==> (#[trigger] inner.indices@[i]) + VERTS
                <= u16::MAX) by {
            if keep_inner_face {
                assert forall|i: int| 0 <= i < inner.indices@.len() implies (
                #[trigger] inner.indices@[i]) + VERTS <= u16::MAX by {
                    assert(ints(inner.indices@)[i] == self.indices()[i]);
                }
            }
        }
        let ghost inner_indices = inner.indices@;
        mesh.merge_with(inner);
        proof {
            if keep_inner_face {
                assert(rebased(inner_indices, VERTS as int) =~= Seq::new(
                    (3 * TRIS) as nat,
                    |i: int| self.indices()[i] + VERTS,
                )) by {
                    assert forall|i: int| 0 <= i < 3 * TRIS implies rebased(
                        inner_indices,
                        VERTS as int,
                    )[i] == self.indices()[i] + VERTS by {
                        assert(ints(inner_indices)[i] == self.indices()[i]);
                    }
                }
            } else {
                assert(rebased(inner_indices, VERTS as int) =~= Seq::<int>::empty());
                assert(ints(mesh.indices@) =~= connectors(VERTS as int, flip));
            }
            let all = ints(mesh.indices@);
            assert(all.len() == mesh.indices@.len());
            assert(all == connectors(VERTS as int, flip) + rebased(inner_indices, VERTS as int));
            if !keep_inner_face || self.wf() {
                assert forall|i: int| 0 <= i < mesh.indices@.len() implies (
                #[trigger] mesh.indices@[i]) < mesh.vertices@.len() by {
                    assert(all[i] == mesh.indices@[i]);
                    if i < 6 * VERTS {
                        let c = connector(VERTS as int, i / 6, flip);
                        assert(all[i] == c[i % 6]);
                    } else {
                        assert(all[i] == self.indices()[i - 6 * VERTS] + VERTS);
                    }
                }
            }
        }
        mesh
    }
}

} // verus!
