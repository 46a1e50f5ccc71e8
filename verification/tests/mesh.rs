use voxxelmaxx::chunk::solid_locals;
use voxxelmaxx::coords::{lin, IVec3, CHUNK_VOLUME};
use voxxelmaxx::grid::Grid;
use voxxelmaxx::mesh::ChunkRebuild;

fn one_voxel(x: i32, y: i32, z: i32, tag: u8) -> Box<[u8; CHUNK_VOLUME]> {
    let mut c = Box::new([0u8; CHUNK_VOLUME]);
    c[lin(IVec3::new(x, y, z))] = tag;
    c
}

fn t(v: &IVec3) -> (i32, i32, i32) {
    (v.x, v.y, v.z)
}

#[test]
fn single_voxel_has_six_faces() {
    let mut g = Grid::new();
    g.add_chunk(IVec3::new(0, 0, 0), || one_voxel(0, 0, 0, 0x80));
    let m = g.chunk_mesh(IVec3::new(0, 0, 0));
    assert_eq!(m.positions.len(), 24);
    assert_eq!(m.normals.len(), 24);
    assert_eq!(m.tags.len(), 24);
    assert_eq!(m.indices.len(), 36);
    assert!(m.tags.iter().all(|t| *t == 0x80));
    // +X face first: starts at the far corner, edges +Y then +Z.
    let first: Vec<_> = m.positions[0..4].iter().map(t).collect();
    assert_eq!(first, vec![(1, 0, 0), (1, 1, 0), (1, 1, 1), (1, 0, 1)]);
    assert_eq!(t(&m.normals[0]), (1, 0, 0));
    // -X face: starts at the voxel's own corner, edges +Z then +Y.
    let second: Vec<_> = m.positions[4..8].iter().map(t).collect();
    assert_eq!(second, vec![(0, 0, 0), (0, 0, 1), (0, 1, 1), (0, 1, 0)]);
    assert_eq!(t(&m.normals[4]), (-1, 0, 0));
    let normals: Vec<_> = (0..6).map(|k| t(&m.normals[4 * k])).collect();
    assert_eq!(
        normals,
        vec![(1, 0, 0), (-1, 0, 0), (0, 1, 0), (0, -1, 0), (0, 0, 1), (0, 0, -1)]
    );
    assert_eq!(&m.indices[0..12], &[0, 1, 2, 0, 2, 3, 4, 5, 6, 4, 6, 7]);
}

#[test]
fn every_index_names_a_corner() {
    let mut g = Grid::new();
    g.add_chunk(IVec3::new(0, 0, 0), || one_voxel(3, 9, 14, 1));
    let m = g.chunk_mesh(IVec3::new(0, 0, 0));
    assert!(m.indices.iter().all(|i| (*i as usize) < m.positions.len()));
}

#[test]
fn empty_chunk_has_no_mesh() {
    let mut g = Grid::new();
    g.add_chunk(IVec3::new(2, 0, 0), || Box::new([0u8; CHUNK_VOLUME]));
    let m = g.chunk_mesh(IVec3::new(2, 0, 0));
    assert!(m.positions.is_empty());
    assert!(m.indices.is_empty());
}

#[test]
fn adjacent_voxels_share_no_face() {
    let mut g = Grid::new();
    let mut c = Box::new([0u8; CHUNK_VOLUME]);
    c[lin(IVec3::new(4, 4, 4))] = 1;
    c[lin(IVec3::new(5, 4, 4))] = 2;
    g.add_chunk(IVec3::new(0, 0, 0), move || c);
    let m = g.chunk_mesh(IVec3::new(0, 0, 0));
    assert_eq!(m.positions.len(), 4 * 10);
    assert_eq!(m.tags.iter().filter(|t| **t == 1).count(), 20);
    assert_eq!(m.tags.iter().filter(|t| **t == 2).count(), 20);
}

#[test]
fn seam_face_hidden_by_loaded_neighbor() {
    let mut g = Grid::new();
    g.add_chunk(IVec3::new(0, 0, 0), || one_voxel(15, 0, 0, 1));
    // Without the neighbour chunk, the +X face at the seam is drawn.
    assert_eq!(g.chunk_mesh(IVec3::new(0, 0, 0)).positions.len(), 24);
    g.add_chunk(IVec3::new(1, 0, 0), || one_voxel(0, 0, 0, 1));
    let m = g.chunk_mesh(IVec3::new(0, 0, 0));
    assert_eq!(m.positions.len(), 20);
    assert!(m.normals.iter().all(|n| t(n) != (1, 0, 0)));
    let n = g.chunk_mesh(IVec3::new(1, 0, 0));
    assert_eq!(n.positions.len(), 20);
    assert!(n.normals.iter().all(|v| t(v) != (-1, 0, 0)));
}

#[test]
fn seam_face_follows_neighbor_edit() {
    let mut g = Grid::new();
    g.add_chunk(IVec3::new(0, 0, 0), || one_voxel(0, 8, 8, 1));
    g.add_chunk(IVec3::new(-1, 0, 0), || one_voxel(15, 8, 8, 1));
    assert_eq!(g.chunk_mesh(IVec3::new(0, 0, 0)).positions.len(), 20);
    g.set(IVec3::new(-1, 8, 8), 0);
    assert_eq!(g.chunk_mesh(IVec3::new(0, 0, 0)).positions.len(), 24);
}

#[test]
fn full_chunk_draws_only_its_surface() {
    let mut g = Grid::new();
    g.add_chunk(IVec3::new(0, 0, 0), || Box::new([0x80u8; CHUNK_VOLUME]));
    let m = g.chunk_mesh(IVec3::new(0, 0, 0));
    assert_eq!(m.positions.len(), 4 * 6 * 256);
    assert_eq!(m.indices.len(), 6 * 6 * 256);
    assert_eq!(*m.indices.last().unwrap() as usize, m.positions.len() - 1);
}

#[test]
fn solid_locals_in_buffer_order() {
    let mut c = Box::new([0u8; CHUNK_VOLUME]);
    c[lin(IVec3::new(1, 0, 2))] = 5;
    c[lin(IVec3::new(15, 15, 0))] = 6;
    c[lin(IVec3::new(0, 0, 0))] = 7;
    let s: Vec<_> = solid_locals(&c).iter().map(t).collect();
    assert_eq!(s, vec![(0, 0, 0), (15, 15, 0), (1, 0, 2)]);
}

#[test]
fn solid_locals_of_empty_chunk() {
    let c = Box::new([0u8; CHUNK_VOLUME]);
    assert!(solid_locals(&c).is_empty());
    let f = Box::new([1u8; CHUNK_VOLUME]);
    assert_eq!(solid_locals(&f).len(), CHUNK_VOLUME);
}

#[test]
fn rebuild_unloaded_chunk() {
    let g = Grid::new();
    assert!(matches!(g.rebuild_chunk(IVec3::new(0, 0, 0)), ChunkRebuild::Unloaded));
}

#[test]
fn rebuild_loaded_chunk() {
    let mut g = Grid::new();
    g.add_chunk(IVec3::new(0, 1, 0), || one_voxel(2, 3, 4, 9));
    match g.rebuild_chunk(IVec3::new(0, 1, 0)) {
        ChunkRebuild::Rebuilt { mesh, solid } => {
            assert_eq!(mesh.positions.len(), 24);
            assert_eq!(solid, vec![IVec3::new(2, 3, 4)]);
        }
        ChunkRebuild::Unloaded => panic!("chunk is loaded"),
    }
    match g.rebuild_chunk(IVec3::new(0, 0, 0)) {
        ChunkRebuild::Unloaded => {}
        _ => panic!("chunk is not loaded"),
    }
}

#[test]
fn rebuild_after_clearing_chunk_has_no_collider_voxels() {
    let mut g = Grid::new();
    g.add_chunk(IVec3::new(0, 0, 0), || one_voxel(2, 3, 4, 9));
    g.set(IVec3::new(2, 3, 4), 0);
    match g.rebuild_chunk(IVec3::new(0, 0, 0)) {
        ChunkRebuild::Rebuilt { mesh, solid } => {
            assert!(solid.is_empty());
            assert!(mesh.positions.is_empty());
        }
        ChunkRebuild::Unloaded => panic!("chunk is loaded"),
    }
}
