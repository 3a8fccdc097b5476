use glam::{Vec2, Vec3};
use hexgrid::direction::Direction;
use hexgrid::mesh::column_builder::{CapGeometry, ColumnMeshBuilder, SideGeometry};
use hexgrid::mesh::mesh_info::MeshInfo;
use hexgrid::mesh::utils::{Hexagon, Quad, Tri};

fn unit_hexagon() -> Hexagon<Vec3, Vec2> {
    let corners = [0.0f32, 1.0, 2.0, 3.0, 4.0, 5.0].map(|i| {
        let angle = i * std::f32::consts::FRAC_PI_3;
        Vec3::new(angle.cos(), 0.0, angle.sin())
    });
    let uvs = corners.map(|p| Vec2::new(p.x, p.z));
    Hexagon::center_aligned(corners, Vec3::Y, uvs)
}

fn unit_quad() -> Quad<Vec3, Vec2> {
    Quad::from_bottom(
        [Vec3::ZERO, Vec3::X],
        [Vec3::Y, Vec3::X + Vec3::Y],
        Vec3::Z,
        [Vec2::X, Vec2::ONE, Vec2::Y, Vec2::ZERO],
    )
}

fn assert_well_formed(mesh: &MeshInfo<Vec3, Vec2>) {
    assert_eq!(mesh.normals.len(), mesh.vertices.len());
    assert_eq!(mesh.uvs.len(), mesh.vertices.len());
    assert_eq!(mesh.indices.len() % 3, 0);
    assert!(mesh.indices.iter().all(|i| (*i as usize) < mesh.vertices.len()));
}

#[test]
fn tri_flip_reverses_the_winding() {
    let mut tri = Tri([1, 2, 3]);
    tri.flip();
    assert_eq!(tri.0, [3, 2, 1]);
    tri.flip();
    assert_eq!(tri.0, [1, 2, 3]);
}

#[test]
fn quad_layout() {
    let quad = unit_quad();
    assert_eq!(quad.positions, [Vec3::X, Vec3::X + Vec3::Y, Vec3::Y, Vec3::ZERO]);
    assert_eq!(quad.normals, [Vec3::Z; 4]);
    assert_eq!(quad.uvs, [Vec2::X, Vec2::ONE, Vec2::Y, Vec2::ZERO]);
    let triangles: Vec<[u16; 3]> = quad.triangles.iter().map(|t| t.0).collect();
    assert_eq!(triangles, vec![[2, 1, 0], [0, 3, 2]]);
}

#[test]
fn hexagon_layout() {
    let face = unit_hexagon();
    assert_eq!(face.normals, [Vec3::Y; 6]);
    let triangles: Vec<[u16; 3]> = face.triangles.iter().map(|t| t.0).collect();
    assert_eq!(triangles, vec![[0, 2, 1], [3, 5, 4], [0, 5, 3], [3, 2, 0]]);
    let mesh = face.into_mesh_info();
    assert_eq!(mesh.vertices.len(), 6);
    assert_eq!(mesh.indices, vec![0, 2, 1, 3, 5, 4, 0, 5, 3, 3, 2, 0]);
    assert_well_formed(&mesh);
}

#[test]
fn merge_rebases_the_appended_indices() {
    let mut mesh = unit_quad().into_mesh_info();
    mesh.merge_with(unit_hexagon().into_mesh_info());
    assert_eq!(mesh.vertices.len(), 10);
    assert_eq!(
        mesh.indices,
        vec![2, 1, 0, 0, 3, 2, 4, 6, 5, 7, 9, 8, 4, 9, 7, 7, 6, 4]
    );
    assert_eq!(mesh.vertices[4], unit_hexagon().positions[0]);
    assert_well_formed(&mesh);

    let mut other = MeshInfo::<Vec3, Vec2>::new();
    other.merge_with(mesh.clone());
    assert_eq!(other.indices, mesh.indices);
    other.merge_with(unit_quad().into_mesh_info());
    assert_eq!(&other.indices[18..], &[12, 11, 10, 10, 13, 12]);
    assert_well_formed(&other);
}

#[test]
fn inset_hexagon_without_inner_face() {
    let face = unit_hexagon();
    let inner = face.positions.map(|p| p * 0.5);
    let inner_uvs = face.uvs.map(|p| p * 0.5);
    let mesh = face.clone().inset(inner, inner_uvs, false, false);
    assert_eq!(mesh.vertices.len(), 12);
    assert_eq!(&mesh.vertices[..6], &face.positions);
    assert_eq!(&mesh.vertices[6..], &inner);
    assert_eq!(&mesh.uvs[6..], &inner_uvs);
    assert_eq!(mesh.normals, vec![Vec3::Y; 12]);
    // one connector of two triangles per edge, and nothing else
    assert_eq!(mesh.indices.len(), 6 * 6);
    assert_eq!(&mesh.indices[..6], &[7, 1, 0, 0, 6, 7]);
    assert_eq!(&mesh.indices[30..], &[6, 0, 5, 5, 11, 6]);
    assert_well_formed(&mesh);
}

#[test]
fn inset_quad_without_inner_face() {
    let face = unit_quad();
    let inner = face.positions.map(|p| p * 0.5);
    let inner_uvs = face.uvs;
    let mesh = face.inset(inner, inner_uvs, false, false);
    assert_eq!(mesh.vertices.len(), 8);
    // four connectors of two triangles each: 24 indices and no more
    assert_eq!(mesh.indices.len(), 24);
    assert_eq!(
        mesh.indices,
        vec![5, 1, 0, 0, 4, 5, 6, 2, 1, 1, 5, 6, 7, 3, 2, 2, 6, 7, 4, 0, 3, 3, 7, 4]
    );
    assert_well_formed(&mesh);
}

#[test]
fn inset_keeps_the_inner_face_on_request() {
    let face = unit_hexagon();
    let inner = face.positions.map(|p| p * 0.25);
    let inner_uvs = face.uvs;
    let mesh = face.inset(inner, inner_uvs, false, true);
    assert_eq!(mesh.indices.len(), 36 + 12);
    assert_eq!(
        &mesh.indices[36..],
        &[6, 8, 7, 9, 11, 10, 6, 11, 9, 9, 8, 6]
    );
    assert_well_formed(&mesh);
}

#[test]
fn inset_flips_the_connectors_on_request() {
    let face = unit_quad();
    let inner = face.positions;
    let inner_uvs = face.uvs;
    let mesh = face.inset(inner, inner_uvs, true, false);
    assert_eq!(&mesh.indices[..6], &[0, 1, 5, 5, 4, 0]);
    assert_eq!(mesh.indices.len(), 24);
    assert_well_formed(&mesh);
}

fn side(div: usize, edge: Direction) -> SideGeometry<Vec3, Vec2> {
    let a = edge.index() as f32;
    let h = div as f32;
    SideGeometry {
        bottom: [Vec3::new(a, h, 0.0), Vec3::new(a + 1.0, h, 0.0)],
        top: [Vec3::new(a, h + 1.0, 0.0), Vec3::new(a + 1.0, h + 1.0, 0.0)],
        normal: Vec3::Z,
        uvs: [Vec2::X, Vec2::ONE, Vec2::Y, Vec2::ZERO],
    }
}

fn cap(top: bool) -> CapGeometry<Vec3, Vec2> {
    let face = unit_hexagon();
    CapGeometry {
        corners: face.positions,
        normal: if top { Vec3::Y } else { -Vec3::Y },
        uvs: face.uvs,
    }
}

#[test]
fn column_without_bottom_face() {
    let mesh = ColumnMeshBuilder::new().without_bottom_face().build(side, cap);
    // six side quads for the one subdivision, and the top hexagon
    assert_eq!(mesh.vertices.len(), 6 * 4 + 6);
    assert_eq!(mesh.indices.len(), 6 * 6 + 12);
    assert_well_formed(&mesh);
    assert_eq!(&mesh.normals[24..], &[Vec3::Y; 6]);
    assert!(mesh.normals.iter().all(|n| *n != -Vec3::Y));
    assert_eq!(&mesh.indices[..6], &[2, 1, 0, 0, 3, 2]);
    assert_eq!(&mesh.indices[6..12], &[6, 5, 4, 4, 7, 6]);
    assert_eq!(&mesh.indices[36..39], &[24, 26, 25]);
}

#[test]
fn column_with_subdivisions_and_both_faces() {
    let builder = ColumnMeshBuilder::new().with_subdivisions(3);
    assert_eq!(builder.divisions(), 3);
    let mesh = builder.build(side, cap);
    assert_eq!(mesh.vertices.len(), 3 * 24 + 12);
    assert_eq!(mesh.indices.len(), 3 * 36 + 24);
    assert_well_formed(&mesh);
    // the quad of subdivision 2 and edge 4 starts at vertex 4 * (6 * 2 + 4)
    assert_eq!(mesh.vertices[64], Vec3::new(5.0, 2.0, 0.0));
    assert_eq!(mesh.vertices[66], Vec3::new(4.0, 3.0, 0.0));
    assert_eq!(&mesh.normals[72..78], &[Vec3::Y; 6]);
    assert_eq!(&mesh.normals[78..], &[-Vec3::Y; 6]);
    assert_eq!(&mesh.indices[3 * 36 + 12..3 * 36 + 15], &[78, 80, 79]);
}

#[test]
fn column_without_any_face_and_zero_subdivisions() {
    let builder = ColumnMeshBuilder::new()
        .at(hexgrid::hex::hex(2, 3))
        .with_subdivisions(0)
        .without_top_face()
        .without_bottom_face();
    assert_eq!(builder.pos(), hexgrid::hex::hex(2, 3));
    assert_eq!(builder.divisions(), 1);
    let mesh = builder.build(side, cap);
    assert_eq!(mesh.vertices.len(), 24);
    assert_eq!(mesh.indices.len(), 36);
    assert_well_formed(&mesh);
}

#[test]
fn transform_scales_then_rotates_then_translates() {
    let mut mesh = unit_quad().into_mesh_info();
    let before = mesh.clone();
    let scale = |p: Vec3| p * Vec3::new(2.0, 3.0, 4.0);
    // a quarter turn around the y axis
    let rotate = |p: Vec3| Vec3::new(-p.z, p.y, p.x);
    let translate = |p: Vec3| p + Vec3::new(10.0, 20.0, 30.0);
    mesh.transform(Some(scale), Some(rotate), Some(translate));
    // (1, 1, 0) -> (2, 3, 0) -> (0, 3, 2) -> (10, 23, 32)
    assert_eq!(before.vertices[1], Vec3::new(1.0, 1.0, 0.0));
    assert_eq!(mesh.vertices[1], Vec3::new(10.0, 23.0, 32.0));
    for (old, new) in before.vertices.iter().zip(&mesh.vertices) {
        assert_eq!(*new, translate(rotate(scale(*old))));
    }
    // normals are turned, and neither scaled nor moved
    assert_eq!(before.normals[0], Vec3::Z);
    assert_eq!(mesh.normals, vec![Vec3::new(-1.0, 0.0, 0.0); 4]);
    assert_eq!(mesh.uvs, before.uvs);
    assert_eq!(mesh.indices, before.indices);
    assert_well_formed(&mesh);
}

#[test]
fn transform_leaves_out_what_is_not_given() {
    let mut mesh = unit_quad().into_mesh_info();
    let before = mesh.clone();
    mesh.transform(
        None::<fn(Vec3) -> Vec3>,
        None::<fn(Vec3) -> Vec3>,
        None::<fn(Vec3) -> Vec3>,
    );
    assert_eq!(mesh.vertices, before.vertices);
    assert_eq!(mesh.normals, before.normals);
    mesh.transform(
        None::<fn(Vec3) -> Vec3>,
        None::<fn(Vec3) -> Vec3>,
        Some(|p: Vec3| p + Vec3::X),
    );
    assert_eq!(mesh.vertices[3], Vec3::X);
    assert_eq!(mesh.normals, before.normals);
}

#[test]
fn map_uvs_changes_texture_coordinates_only() {
    let mut mesh = unit_hexagon().into_mesh_info();
    let before = mesh.clone();
    mesh.map_uvs(|uv| Vec2::new(1.0 - uv.x, uv.y * 2.0));
    for (old, new) in before.uvs.iter().zip(&mesh.uvs) {
        assert_eq!(*new, Vec2::new(1.0 - old.x, old.y * 2.0));
    }
    assert_eq!(mesh.vertices, before.vertices);
    assert_eq!(mesh.normals, before.normals);
    assert_eq!(mesh.indices, before.indices);
}
