//! Mesh buffers and their combination.
use vstd::prelude::*;

verus! {

/// The buffers of a mesh: positions, normals and texture coordinates, one
/// of each per vertex, and triangles as triples of vertex indices.
#[derive(Debug, Clone)]
pub struct MeshInfo<P, U> {
    /// Vertex positions
    pub vertices: Vec<P>,
    /// Vertex normals
    pub normals: Vec<P>,
    /// Vertex texture coordinates
    pub uvs: Vec<U>,
    /// Triangle indices, three per triangle
    pub indices: Vec<u16>,
}

/// The indices `s`, each moved up by `offset`.
pub open spec fn rebased(s: Seq<u16>, offset: int) -> Seq<int> {
    Seq::new(s.len(), |i: int| s[i] + offset)
}

/// The indices `s` as mathematical integers.
pub open spec fn ints(s: Seq<u16>) -> Seq<int> {
    rebased(s, 0)
}

impl<P, U> MeshInfo<P, U> {
    /// Whether the buffers describe one mesh: as many normals and texture
    /// coordinates as positions, whole triangles only, and every index that
    /// of a vertex.
    pub open spec fn wf(&self) -> bool {
        &&& self.normals@.len() == self.vertices@.len()
        &&& self.uvs@.len() == self.vertices@.len()
        &&& self.indices@.len() % 3 == 0
        &&& forall|i: int|
            0 <= i < self.indices@.len() ==> (#[trigger] self.indices@[i]) < self.vertices@.len()
    }

    /// The mesh without vertices or triangles.
    pub fn new() -> (r: Self)
        ensures
            r.wf(),
            r.vertices@.len() == 0,
            r.normals@.len() == 0,
            r.uvs@.len() == 0,
            r.indices@.len() == 0,
    {
        MeshInfo { vertices: Vec::new(), normals: Vec::new(), uvs: Vec::new(), indices: Vec::new() }
    }

    /// Appends `rhs` to `self`: its vertices follow those of `self`, and
    /// each of its indices is moved up by the number of vertices that
    /// `self` had, so that it points at the same vertex as before.
    pub fn merge_with(&mut self, rhs: MeshInfo<P, U>)
        requires
            old(self).vertices@.len() <= u16::MAX,
            forall|i: int|
                0 <= i < rhs.indices@.len() ==> (#[trigger] rhs.indices@[i]) + old(
                    self,
                ).vertices@.len() <= u16::MAX,
        ensures
            final(self).vertices@ == old(self).vertices@ + rhs.vertices@,
            final(self).normals@ == old(self).normals@ + rhs.normals@,
            final(self).uvs@ == old(self).uvs@ + rhs.uvs@,
            ints(final(self).indices@) == ints(old(self).indices@) + rebased(
                rhs.indices@,
                old(self).vertices@.len() as int,
            ),
            old(self).wf() && rhs.wf() ==> final(self).wf(),
    {
        let offset: u16 = self.vertices.len() as u16;
        let mut rhs = rhs;
        let ghost rhs_indices = rhs.indices@;
        let ghost old_indices = self.indices@;
        self.vertices.append(&mut rhs.vertices);
        self.normals.append(&mut rhs.normals);
        self.uvs.append(&mut rhs.uvs);
        let ghost vertices = self.vertices@;
        let ghost normals = self.normals@;
        let ghost uvs = self.uvs@;
        let mut i: usize = 0;
        while i < rhs.indices.len()
            invariant
                0 <= i <= rhs.indices@.len(),
                rhs.indices@ == rhs_indices,
                self.vertices@ == vertices,
                self.normals@ == normals,
                self.uvs@ == uvs,
                forall|j: int|
                    0 <= j < rhs_indices.len() ==> (#[trigger] rhs_indices[j]) + offset
                        <= u16::MAX,
                self.indices@.len() == old_indices.len() + i,
                forall|j: int|
                    0 <= j < old_indices.len() ==> (#[trigger] self.indices@[j]) == old_indices[j],
                forall|j: int|
                    old_indices.len() <= j < old_indices.len() + i ==> (
                    #[trigger] self.indices@[j]) == rhs_indices[j - old_indices.len()] + offset,
            decreases rhs.indices@.len() - i,
        {
            let index = rhs.indices[i];
            assert(rhs_indices[i as int] + offset <= u16::MAX);
            self.indices.push(index + offset);
            i = i + 1;
        }
        assert(ints(self.indices@) =~= ints(old_indices) + rebased(rhs_indices, offset as int));
    }
}

/// Whether `f`, where there is one, can be called on every value.
pub open spec fn callable<T, F: Fn(T) -> T>(f: Option<F>) -> bool {
    match f {
        Some(f) => forall|a: T| call_requires(f, (a,)),
        None => true,
    }
}

/// Whether `f`, where there is one, may turn `a` into `b`; without an `f`,
/// whether `a` is `b`.
pub open spec fn may_map<T, F: Fn(T) -> T>(f: Option<F>, a: T, b: T) -> bool {
    match f {
        Some(f) => call_ensures(f, (a,), b),
        None => a == b,
    }
}

/// Whether `scale`, then `rotate`, then `translate`, each where there is
/// one, may turn the position `a` into `b`.
pub open spec fn may_transform<P, S: Fn(P) -> P, R: Fn(P) -> P, T: Fn(P) -> P>(
    scale: Option<S>,
    rotate: Option<R>,
    translate: Option<T>,
    a: P,
    b: P,
) -> bool {
    exists|scaled: P, rotated: P|
        may_map(scale, a, scaled) && #[trigger] may_map(rotate, scaled, rotated) && may_map(
            translate,
            rotated,
            b,
        )
}

/// What `f`, where there is one, makes of each element of `v`.
fn map_each<T: Copy, F: Fn(T) -> T>(v: &mut Vec<T>, f: &Option<F>)
    requires
        callable(*f),
    ensures
        final(v)@.len() == old(v)@.len(),
        forall|i: int| 0 <= i < old(v)@.len() ==> may_map(*f, old(v)@[i], #[trigger] final(v)@[i]),
{
    match f {
        Some(g) => {
            let mut i: usize = 0;
            while i < v.len()
                invariant
                    0 <= i <= v@.len(),
                    v@.len() == old(v)@.len(),
                    *f == Some(*g),
                    forall|a: T| call_requires(*g, (a,)),
                    forall|j: int| 0 <= j < i ==> call_ensures(*g, (old(v)@[j],), #[trigger] v@[j]),
                    forall|j: int| i <= j < v@.len() ==> v@[j] == old(v)@[j],
                decreases v@.len() - i,
            {
                let b = g(v[i]);
                v[i] = b;
                i = i + 1;
            }
        },
        None => {},
    }
}

impl<P: Copy, U: Copy> MeshInfo<P, U> {
    /// Transforms the mesh in place, in the fixed order scale, rotate,
    /// translate: each vertex position is scaled, then rotated, then
    /// translated, each step where the function for it is given; each
    /// normal is rotated only. Texture coordinates and triangles stay as
    /// they are.
    pub fn transform<S, R, T>(
        &mut self,
        scale: Option<S>,
        rotate: Option<R>,
        translate: Option<T>,
    ) where
        S: Fn(P) -> P,
        R: Fn(P) -> P,
        T: Fn(P) -> P,

        requires
            callable(scale),
            callable(rotate),
            callable(translate),
        ensures
            final(self).vertices@.len() == old(self).vertices@.len(),
            forall|i: int|
                0 <= i < old(self).vertices@.len() ==> may_transform(
                    scale,
                    rotate,
                    translate,
                    old(self).vertices@[i],
                    #[trigger] final(self).vertices@[i],
                ),
            final(self).normals@.len() == old(self).normals@.len(),
            forall|i: int|
                0 <= i < old(self).normals@.len() ==> may_map(
                    rotate,
                    old(self).normals@[i],
                    #[trigger] final(self).normals@[i],
                ),
            final(self).uvs@ == old(self).uvs@,
            final(self).indices@ == old(self).indices@,
            old(self).wf() ==> final(self).wf(),
    {
        map_each(&mut self.vertices, &scale);
        let ghost scaled = self.vertices@;
        map_each(&mut self.vertices, &rotate);
        let ghost rotated = self.vertices@;
        map_each(&mut self.vertices, &translate);
        map_each(&mut self.normals, &rotate);
        proof {
            assert forall|i: int| 0 <= i < old(self).vertices@.len() implies may_transform(
                scale,
                rotate,
                translate,
                old(self).vertices@[i],
                #[trigger] self.vertices@[i],
            ) by {
                assert(may_map(scale, old(self).vertices@[i], scaled[i]));
                assert(may_map(rotate, scaled[i], rotated[i]));
                assert(may_map(translate, rotated[i], self.vertices@[i]));
            }
        }
    }

    /// Replaces each texture coordinate by what `f` makes of it. Positions,
    /// normals and triangles stay as they are.
    pub fn map_uvs<F: Fn(U) -> U>(&mut self, f: F)
        requires
            forall|a: U| call_requires(f, (a,)),
        ensures
            final(self).uvs@.len() == old(self).uvs@.len(),
            forall|i: int|
                0 <= i < old(self).uvs@.len() ==> call_ensures(
                    f,
                    (old(self).uvs@[i],),
                    #[trigger] final(self).uvs@[i],
                ),
            final(self).vertices@ == old(self).vertices@,
            final(self).normals@ == old(self).normals@,
            final(self).indices@ == old(self).indices@,
            old(self).wf() ==> final(self).wf(),
    {
        let f = Some(f);
        map_each(&mut self.uvs, &f);
    }
}

} // verus!
