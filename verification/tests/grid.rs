use voxxelmaxx::coords::{IVec3, CHUNK_VOLUME};
use voxxelmaxx::grid::Grid;

fn filled(tag: u8) -> Box<[u8; CHUNK_VOLUME]> {
    Box::new([tag; CHUNK_VOLUME])
}

fn sorted(mut v: Vec<IVec3>) -> Vec<(i32, i32, i32)> {
    let mut r: Vec<(i32, i32, i32)> = v.drain(..).map(|c| (c.x, c.y, c.z)).collect();
    r.sort();
    r
}

#[test]
fn empty_grid_reads_zero() {
    let g = Grid::new();
    assert_eq!(g.get(IVec3::new(0, 0, 0)), 0);
    assert_eq!(g.get(IVec3::new(-100, 5, 7)), 0);
    assert!(!g.is_loaded(IVec3::new(0, 0, 0)));
}

#[test]
fn default_grid_is_empty() {
    let mut g = Grid::default();
    assert!(!g.is_loaded(IVec3::new(0, 0, 0)));
    assert!(g.take_dirty().is_empty());
}

#[test]
fn add_chunk_loads_and_reads_tags() {
    let mut g = Grid::new();
    assert!(g.add_chunk(IVec3::new(0, 0, 0), || filled(7)));
    assert!(g.is_loaded(IVec3::new(0, 0, 0)));
    assert_eq!(g.get(IVec3::new(3, 4, 5)), 7);
    assert_eq!(g.get(IVec3::new(16, 0, 0)), 0);
    assert_eq!(g.get(IVec3::new(-1, 0, 0)), 0);
}

#[test]
fn add_chunk_is_lazy_and_never_overwrites() {
    let mut g = Grid::new();
    assert!(g.add_chunk(IVec3::new(1, 2, 3), || filled(1)));
    let mut called = false;
    let added = g.add_chunk(IVec3::new(1, 2, 3), || {
        called = true;
        filled(2)
    });
    assert!(!added);
    assert!(!called);
    assert_eq!(g.get(IVec3::new(16, 32, 48)), 1);
}

#[test]
fn add_chunk_marks_new_chunk_and_loaded_face_neighbors() {
    let mut g = Grid::new();
    g.add_chunk(IVec3::new(1, 0, 0), || filled(0));
    g.add_chunk(IVec3::new(5, 5, 5), || filled(0));
    g.add_chunk(IVec3::new(1, 1, 0), || filled(0));
    assert_eq!(g.take_dirty().len(), 3);
    assert!(g.add_chunk(IVec3::new(0, 0, 0), || filled(0)));
    assert_eq!(sorted(g.take_dirty()), vec![(0, 0, 0), (1, 0, 0)]);
    // (1, 1, 0) shares only an edge with (0, 0, 0): not marked.
}

#[test]
fn add_chunk_at_i32_extremes() {
    let mut g = Grid::new();
    let far = IVec3::new(i32::MAX, i32::MIN, 0);
    assert!(g.add_chunk(far, || filled(3)));
    assert!(g.is_loaded(far));
    assert_eq!(sorted(g.take_dirty()), vec![(i32::MAX, i32::MIN, 0)]);
}

#[test]
fn set_returns_previous_and_get_reads_new() {
    let mut g = Grid::new();
    g.add_chunk(IVec3::new(0, 0, 0), || filled(0));
    assert_eq!(g.set(IVec3::new(2, 3, 4), 0x80), 0);
    assert_eq!(g.get(IVec3::new(2, 3, 4)), 0x80);
    assert_eq!(g.set(IVec3::new(2, 3, 4), 0x40), 0x80);
    assert_eq!(g.get(IVec3::new(2, 3, 4)), 0x40);
    assert_eq!(g.get(IVec3::new(2, 3, 5)), 0);
}

#[test]
fn set_without_chunk_is_noop() {
    let mut g = Grid::new();
    assert_eq!(g.set(IVec3::new(2, 3, 4), 9), 0);
    assert_eq!(g.get(IVec3::new(2, 3, 4)), 0);
    assert!(!g.is_loaded(IVec3::new(0, 0, 0)));
    assert!(g.take_dirty().is_empty());
}

#[test]
fn set_same_value_marks_nothing() {
    let mut g = Grid::new();
    g.add_chunk(IVec3::new(0, 0, 0), || filled(5));
    g.take_dirty();
    assert_eq!(g.set(IVec3::new(0, 0, 0), 5), 5);
    assert!(g.take_dirty().is_empty());
}

#[test]
fn set_interior_marks_only_own_chunk() {
    let mut g = Grid::new();
    for c in [IVec3::new(0, 0, 0), IVec3::new(1, 0, 0), IVec3::new(-1, 0, 0)] {
        g.add_chunk(c, || filled(0));
    }
    g.take_dirty();
    g.set(IVec3::new(5, 5, 5), 1);
    assert_eq!(sorted(g.take_dirty()), vec![(0, 0, 0)]);
}

#[test]
fn set_on_boundary_marks_loaded_neighbors() {
    let mut g = Grid::new();
    for c in [IVec3::new(0, 0, 0), IVec3::new(1, 0, 0), IVec3::new(-1, 0, 0), IVec3::new(0, -1, 0)] {
        g.add_chunk(c, || filled(0));
    }
    g.take_dirty();
    // Corner voxel at the high-x, low-y, low-z corner of chunk (0, 0, 0):
    // neighbours +x (loaded), -y (loaded), -z (not loaded).
    g.set(IVec3::new(15, 0, 0), 1);
    assert_eq!(sorted(g.take_dirty()), vec![(0, -1, 0), (0, 0, 0), (1, 0, 0)]);
    g.set(IVec3::new(0, 7, 7), 1);
    assert_eq!(sorted(g.take_dirty()), vec![(-1, 0, 0), (0, 0, 0)]);
}

#[test]
fn set_in_negative_chunk() {
    let mut g = Grid::new();
    g.add_chunk(IVec3::new(-1, -1, -1), || filled(0));
    g.set(IVec3::new(-1, -1, -1), 0x81);
    assert_eq!(g.get(IVec3::new(-1, -1, -1)), 0x81);
    assert_eq!(g.get(IVec3::new(-16, -16, -16)), 0);
}

#[test]
fn take_dirty_empties_and_keeps_chunks() {
    let mut g = Grid::new();
    g.add_chunk(IVec3::new(0, 0, 0), || filled(2));
    let d = g.take_dirty();
    assert_eq!(d, vec![IVec3::new(0, 0, 0)]);
    assert!(g.take_dirty().is_empty());
    assert_eq!(g.get(IVec3::new(1, 1, 1)), 2);
}

#[test]
fn dirty_chunks_are_loaded() {
    let mut g = Grid::new();
    g.add_chunk(IVec3::new(0, 0, 0), || filled(0));
    g.set(IVec3::new(0, 0, 0), 4);
    for c in g.take_dirty() {
        assert!(g.is_loaded(c));
    }
}
