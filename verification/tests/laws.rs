use voxxelmaxx::coords::{lin, IVec3, CHUNK_VOLUME};
use voxxelmaxx::grid::Grid;
use voxxelmaxx::mesh::ChunkMesh;

fn one_voxel(x: i32, y: i32, z: i32, tag: u8) -> Box<[u8; CHUNK_VOLUME]> {
    let mut c = Box::new([0u8; CHUNK_VOLUME]);
    c[lin(IVec3::new(x, y, z))] = tag;
    c
}

fn flat(m: &ChunkMesh) -> (Vec<(i32, i32, i32)>, Vec<(i32, i32, i32)>, Vec<u8>, Vec<u32>) {
    (
        m.positions.iter().map(|p| (p.x, p.y, p.z)).collect(),
        m.normals.iter().map(|p| (p.x, p.y, p.z)).collect(),
        m.tags.clone(),
        m.indices.clone(),
    )
}

#[test]
fn law_get_after_set_frames_other_voxels() {
    let mut g = Grid::new();
    g.add_chunk(IVec3::new(0, 0, 0), || Box::new([3u8; CHUNK_VOLUME]));
    g.set(IVec3::new(7, 7, 7), 9);
    assert_eq!(g.get(IVec3::new(7, 7, 7)), 9);
    assert_eq!(g.get(IVec3::new(7, 7, 8)), 3);
    assert_eq!(g.get(IVec3::new(6, 7, 7)), 3);
}

#[test]
fn law_set_idempotent() {
    let mut g = Grid::new();
    g.add_chunk(IVec3::new(0, 0, 0), || Box::new([0u8; CHUNK_VOLUME]));
    assert_eq!(g.set(IVec3::new(1, 2, 3), 5), 0);
    g.take_dirty();
    assert_eq!(g.set(IVec3::new(1, 2, 3), 5), 5);
    assert!(g.take_dirty().is_empty());
    assert_eq!(g.get(IVec3::new(1, 2, 3)), 5);
}

#[test]
fn law_set_keeps_untouched_meshes() {
    let mut g = Grid::new();
    g.add_chunk(IVec3::new(0, 0, 0), || one_voxel(15, 3, 3, 1));
    g.add_chunk(IVec3::new(1, 0, 0), || one_voxel(0, 3, 3, 1));
    g.add_chunk(IVec3::new(0, 1, 0), || one_voxel(3, 0, 3, 1));
    g.take_dirty();
    let before = flat(&g.chunk_mesh(IVec3::new(0, 1, 0)));
    // Touches chunks (0, 0, 0) and (1, 0, 0), not (0, 1, 0).
    g.set(IVec3::new(15, 3, 3), 0);
    let dirty: Vec<_> = g.take_dirty().iter().map(|c| (c.x, c.y, c.z)).collect();
    assert!(!dirty.contains(&(0, 1, 0)));
    assert_eq!(flat(&g.chunk_mesh(IVec3::new(0, 1, 0))), before);
    // The neighbour across the seam now shows the face it hid.
    assert_eq!(g.chunk_mesh(IVec3::new(1, 0, 0)).positions.len(), 24);
}

#[test]
fn law_add_keeps_distant_meshes() {
    let mut g = Grid::new();
    g.add_chunk(IVec3::new(0, 0, 0), || one_voxel(0, 0, 0, 1));
    g.take_dirty();
    let before = flat(&g.chunk_mesh(IVec3::new(0, 0, 0)));
    g.add_chunk(IVec3::new(1, 1, 0), || Box::new([1u8; CHUNK_VOLUME]));
    let dirty: Vec<_> = g.take_dirty().iter().map(|c| (c.x, c.y, c.z)).collect();
    assert_eq!(dirty, vec![(1, 1, 0)]);
    assert_eq!(flat(&g.chunk_mesh(IVec3::new(0, 0, 0))), before);
}

#[test]
fn law_face_winding_is_ccw_from_outside() {
    let mut g = Grid::new();
    g.add_chunk(IVec3::new(0, 0, 0), || one_voxel(5, 5, 5, 1));
    let m = g.chunk_mesh(IVec3::new(0, 0, 0));
    for k in 0..6 {
        let p0 = m.positions[4 * k];
        let p1 = m.positions[4 * k + 1];
        let p3 = m.positions[4 * k + 3];
        let u = (p1.x - p0.x, p1.y - p0.y, p1.z - p0.z);
        let w = (p3.x - p0.x, p3.y - p0.y, p3.z - p0.z);
        let c = (u.1 * w.2 - u.2 * w.1, u.2 * w.0 - u.0 * w.2, u.0 * w.1 - u.1 * w.0);
        let n = m.normals[4 * k];
        assert_eq!(c, (n.x, n.y, n.z));
    }
}

#[test]
fn law_dirty_chunks_are_loaded_after_edits() {
    let mut g = Grid::new();
    g.add_chunk(IVec3::new(0, 0, 0), || Box::new([0u8; CHUNK_VOLUME]));
    g.set(IVec3::new(0, 0, 0), 1);
    g.set(IVec3::new(-1, -1, -1), 1);
    g.add_chunk(IVec3::new(0, 0, -1), || Box::new([0u8; CHUNK_VOLUME]));
    let d = g.take_dirty();
    assert_eq!(d.len(), 2);
    assert!(d.iter().all(|c| g.is_loaded(*c)));
}
