//! Properties of the grid that span its operations.

use vstd::prelude::*;

use crate::chunk::{lemma_lin_local_at, lemma_local_at_lin, local_at, solid_locals_of};
use crate::coords::{
    chunk_of, global, in_chunk, lemma_global_axis, lemma_global_in_chunk, lemma_split_recombines,
    lin_spec, local_of, Pos, CHUNK_VOLUME,
};
use crate::grid::{chunks_after_set, chunks_sized, face_neighbors, touched_chunks, voxel_in};
use crate::mesh::{
    add3, cross, face_entry, face_normal, face_u, face_w, lemma_filter_map_step, mesh_faces,
    quad_corner, tri_corner, ChunkMesh,
};

verus! {

/// Reading a voxel after a write gives the written value, if a chunk
/// covers it; every other voxel keeps its value.
pub proof fn lemma_get_after_set(chunks: Map<Pos, Seq<u8>>, v: Pos, tag: u8, w: Pos)
    requires
        chunks_sized(chunks),
    ensures
        voxel_in(chunks_after_set(chunks, v, tag), w) == (if w == v && chunks.contains_key(
            chunk_of(v),
        ) {
            tag
        } else {
            voxel_in(chunks, w)
        }),
{
    lemma_split_recombines(v);
    lemma_split_recombines(w);
    lemma_local_at_lin(local_of(v));
    lemma_local_at_lin(local_of(w));
}

/// Writing the value a voxel already holds changes no chunk.
pub proof fn lemma_set_same_value(chunks: Map<Pos, Seq<u8>>, v: Pos)
    requires
        chunks_sized(chunks),
    ensures
        chunks_after_set(chunks, v, voxel_in(chunks, v)) == chunks,
{
    let c = chunk_of(v);
    if chunks.contains_key(c) {
        lemma_split_recombines(v);
        lemma_local_at_lin(local_of(v));
        let i = lin_spec(local_of(v));
        assert(chunks[c].update(i, chunks[c][i]) =~= chunks[c]);
        assert(chunks.insert(c, chunks[c]) =~= chunks);
    }
}

/// Writing the same value twice is the same as writing it once.
pub proof fn lemma_set_idempotent(chunks: Map<Pos, Seq<u8>>, v: Pos, tag: u8)
    requires
        chunks_sized(chunks),
    ensures
        chunks_after_set(chunks_after_set(chunks, v, tag), v, tag) == chunks_after_set(
            chunks,
            v,
            tag,
        ),
{
    let c = chunk_of(v);
    if chunks.contains_key(c) {
        lemma_split_recombines(v);
        lemma_local_at_lin(local_of(v));
        let i = lin_spec(local_of(v));
        assert(chunks[c].update(i, tag).update(i, tag) =~= chunks[c].update(i, tag));
        assert(chunks.insert(c, chunks[c].update(i, tag)).insert(c, chunks[c].update(i, tag))
            =~= chunks.insert(c, chunks[c].update(i, tag)));
    }
}

/// Loading a chunk gives the voxels it covers the values it was loaded
/// with, and leaves every other voxel as it was.
pub proof fn lemma_voxels_after_add(chunks: Map<Pos, Seq<u8>>, c: Pos, t: Seq<u8>, w: Pos)
    ensures
        voxel_in(chunks.insert(c, t), w) == (if chunk_of(w) == c {
            t[lin_spec(local_of(w))]
        } else {
            voxel_in(chunks, w)
        }),
{
}

/// A filtered index range depends only on the filter's values in range.
proof fn lemma_filter_map_agree<B>(f: spec_fn(int) -> Option<B>, g: spec_fn(int) -> Option<B>, n: nat)
    requires
        forall|j: int| 0 <= j < n ==> #[trigger] f(j) == g(j),
    ensures
        Seq::new(n, |j: int| j).filter_map(f) == Seq::new(n, |j: int| j).filter_map(g),
    decreases n,
{
    if n > 0 {
        lemma_filter_map_agree(f, g, (n - 1) as nat);
        lemma_filter_map_step(f, (n - 1) as nat);
        lemma_filter_map_step(g, (n - 1) as nat);
    } else {
        assert(Seq::new(n, |j: int| j).filter_map(f) =~= Seq::new(n, |j: int| j).filter_map(g));
    }
}

/// Two sets of chunks that agree on every voxel that the mesh of chunk `c`
/// reads (the voxels of `c` and their face neighbours) give `c` the same
/// mesh faces.
proof fn lemma_mesh_faces_agree(a: Map<Pos, Seq<u8>>, b: Map<Pos, Seq<u8>>, c: Pos)
    requires
        forall|i: int, d: int|
            0 <= i < CHUNK_VOLUME && 0 <= d < 6 ==> voxel_in(a, global(c, local_at(i))) == voxel_in(
                b,
                global(c, local_at(i)),
            ) && #[trigger] voxel_in(a, global(c, add3(local_at(i), face_normal(d)))) == voxel_in(
                b,
                global(c, add3(local_at(i), face_normal(d))),
            ),
    ensures
        mesh_faces(a, c) == mesh_faces(b, c),
{
    let fa = |n: int| face_entry(a, c, n);
    let fb = |n: int| face_entry(b, c, n);
    assert forall|n: int| 0 <= n < 6 * CHUNK_VOLUME implies #[trigger] fa(n) == fb(n) by {
        let i = n / 6;
        let d = n % 6;
        assert(voxel_in(a, global(c, add3(local_at(i), face_normal(d)))) == voxel_in(
            b,
            global(c, add3(local_at(i), face_normal(d))),
        ));
    }
    lemma_filter_map_agree(fa, fb, (6 * CHUNK_VOLUME) as nat);
}

/// The voxels that the mesh of chunk `c` reads lie in `c` or in one of its
/// face neighbours, and each is the voxel of `c` or a face neighbour of one.
proof fn lemma_mesh_reads(c: Pos, i: int, d: int)
    requires
        0 <= i < CHUNK_VOLUME,
        0 <= d < 6,
    ensures
        chunk_of(global(c, local_at(i))) == c,
        ({
            let p = global(c, add3(local_at(i), face_normal(d)));
            chunk_of(p) == c || face_neighbors(c).contains(chunk_of(p))
        }),
        ({
            let q = global(c, local_at(i));
            let p = global(c, add3(local_at(i), face_normal(d)));
            q == add3(p, (-face_normal(d).0, -face_normal(d).1, -face_normal(d).2))
        }),
{
    lemma_lin_local_at(i);
    let l = local_at(i);
    lemma_global_in_chunk(c, l);
    let m = add3(l, face_normal(d));
    lemma_global_axis(c.0, m.0);
    lemma_global_axis(c.1, m.1);
    lemma_global_axis(c.2, m.2);
}

/// Setting a voxel can change the mesh of a chunk only if that chunk holds
/// the voxel or one of its face neighbours: every other chunk's mesh stays
/// valid, which is why `set` marks exactly those chunks dirty.
pub proof fn lemma_set_keeps_untouched_meshes(chunks: Map<Pos, Seq<u8>>, v: Pos, tag: u8, c: Pos)
    requires
        chunks_sized(chunks),
        !touched_chunks(v).contains(c),
    ensures
        mesh_faces(chunks_after_set(chunks, v, tag), c) == mesh_faces(chunks, c),
{
    let a = chunks_after_set(chunks, v, tag);
    assert forall|i: int, d: int| 0 <= i < CHUNK_VOLUME && 0 <= d < 6 implies voxel_in(
        a,
        global(c, local_at(i)),
    ) == voxel_in(chunks, global(c, local_at(i))) && #[trigger] voxel_in(
        a,
        global(c, add3(local_at(i), face_normal(d))),
    ) == voxel_in(chunks, global(c, add3(local_at(i), face_normal(d)))) by {
        lemma_mesh_reads(c, i, d);
        let q = global(c, local_at(i));
        let p = global(c, add3(local_at(i), face_normal(d)));
        lemma_get_after_set(chunks, v, tag, q);
        lemma_get_after_set(chunks, v, tag, p);
        assert(q != v);
        assert(p != v);
    }
    lemma_mesh_faces_agree(a, chunks, c);
}

/// Loading chunk `c0` can change the mesh only of `c0` and of its face
/// neighbours: the chunks that `add_chunk` marks dirty.
pub proof fn lemma_add_keeps_distant_meshes(chunks: Map<Pos, Seq<u8>>, c0: Pos, t: Seq<u8>, c: Pos)
    requires
        c != c0,
        !face_neighbors(c0).contains(c),
    ensures
        mesh_faces(chunks.insert(c0, t), c) == mesh_faces(chunks, c),
{
    let a = chunks.insert(c0, t);
    assert forall|i: int, d: int| 0 <= i < CHUNK_VOLUME && 0 <= d < 6 implies voxel_in(
        a,
        global(c, local_at(i)),
    ) == voxel_in(chunks, global(c, local_at(i))) && #[trigger] voxel_in(
        a,
        global(c, add3(local_at(i), face_normal(d))),
    ) == voxel_in(chunks, global(c, add3(local_at(i), face_normal(d)))) by {
        lemma_mesh_reads(c, i, d);
        let p = global(c, add3(local_at(i), face_normal(d)));
        if chunk_of(p) == c0 {
            assert(face_neighbors(c0).contains(c));
        }
    }
    lemma_mesh_faces_agree(a, chunks, c);
}

/// Each face's edge directions turn counter-clockwise seen from outside:
/// their cross product is the face's outward normal.
pub proof fn lemma_face_winding(d: int)
    requires
        0 <= d < 6,
    ensures
        cross(face_u(d), face_w(d)) == face_normal(d),
{
    let u = face_u(d);
    let w = face_w(d);
    if d == 0 {
        assert(u == (0int, 1int, 0int) && w == (0int, 0int, 1int));
        assert(cross((0int, 1int, 0int), (0int, 0int, 1int)) == (1int, 0int, 0int)) by (nonlinear_arith);
    } else if d == 1 {
        assert(u == (0int, 0int, 1int) && w == (0int, 1int, 0int));
        assert(cross((0int, 0int, 1int), (0int, 1int, 0int)) == (-1int, 0int, 0int)) by (nonlinear_arith);
    } else if d == 2 {
        assert(u == (0int, 0int, 1int) && w == (1int, 0int, 0int));
        assert(cross((0int, 0int, 1int), (1int, 0int, 0int)) == (0int, 1int, 0int)) by (nonlinear_arith);
    } else if d == 3 {
        assert(u == (1int, 0int, 0int) && w == (0int, 0int, 1int));
        assert(cross((1int, 0int, 0int), (0int, 0int, 1int)) == (0int, -1int, 0int)) by (nonlinear_arith);
    } else if d == 4 {
        assert(u == (1int, 0int, 0int) && w == (0int, 1int, 0int));
        assert(cross((1int, 0int, 0int), (0int, 1int, 0int)) == (0int, 0int, 1int)) by (nonlinear_arith);
    } else {
        assert(u == (0int, 1int, 0int) && w == (1int, 0int, 0int));
        assert(cross((0int, 1int, 0int), (1int, 0int, 0int)) == (0int, 0int, -1int)) by (nonlinear_arith);
    }
}

/// Every triangle index of a mesh names one of its corners.
pub proof fn lemma_mesh_indices_in_range(m: ChunkMesh, faces: Seq<(int, int)>, chunk: Seq<u8>)
    requires
        m.holds_faces(faces, chunk),
    ensures
        forall|q: int| 0 <= q < m.indices.len() ==> #[trigger] m.indices@[q] < m.positions.len(),
{
    assert forall|q: int| 0 <= q < m.indices.len() implies #[trigger] m.indices@[q]
        < m.positions.len() by {
        assert(q / 6 < faces.len());
    }
}

/// A local position is among the solid voxels of a chunk exactly when it
/// lies in the chunk and its voxel is not empty.
pub proof fn lemma_solid_locals_exact(chunk: Seq<u8>, l: Pos)
    requires
        chunk.len() == CHUNK_VOLUME,
    ensures
        solid_locals_of(chunk).contains(l) <==> in_chunk(l) && chunk[lin_spec(l)] != 0,
{
    let f = |i: int|
        if chunk[i] != 0 {
            Some(local_at(i))
        } else {
            None::<Pos>
        };
    assert(solid_locals_of(chunk) == Seq::new(CHUNK_VOLUME as nat, |j: int| j).filter_map(f));
    lemma_filter_map_contains(f, CHUNK_VOLUME as nat, l);
    if in_chunk(l) {
        lemma_local_at_lin(l);
        assert(f(lin_spec(l)) == (if chunk[lin_spec(l)] != 0 {
            Some(l)
        } else {
            None
        }));
    }
    if exists|i: int| 0 <= i < CHUNK_VOLUME && #[trigger] f(i) == Some(l) {
        let i = choose|i: int| 0 <= i < CHUNK_VOLUME && #[trigger] f(i) == Some(l);
        lemma_lin_local_at(i);
    }
}

/// An element is in a filtered index range exactly when some index in the
/// range maps to it.
proof fn lemma_filter_map_contains<B>(f: spec_fn(int) -> Option<B>, n: nat, b: B)
    ensures
        Seq::new(n, |j: int| j).filter_map(f).contains(b) <==> exists|i: int|
            0 <= i < n && #[trigger] f(i) == Some(b),
    decreases n,
{
    if n == 0 {
        assert(Seq::new(n, |j: int| j).filter_map(f) =~= Seq::<B>::empty());
    } else {
        let m = (n - 1) as nat;
        lemma_filter_map_contains(f, m, b);
        lemma_filter_map_step(f, m);
        let prev = Seq::new(m, |j: int| j).filter_map(f);
        if exists|i: int| 0 <= i < n && #[trigger] f(i) == Some(b) {
            let i = choose|i: int| 0 <= i < n && #[trigger] f(i) == Some(b);
            if i < m {
                let k = choose|k: int| 0 <= k < prev.len() && prev[k] == b;
                match f(m as int) {
                    Some(x) => {
                        assert(prev.push(x)[k] == b);
                    },
                    None => {},
                }
            } else {
                match f(m as int) {
                    Some(x) => {
                        assert(prev.push(x)[prev.len() as int] == b);
                    },
                    None => {},
                }
            }
        }
        if Seq::new(n, |j: int| j).filter_map(f).contains(b) {
            match f(m as int) {
                Some(x) => {
                    let k = choose|k: int| 0 <= k < prev.len() + 1 && prev.push(x)[k] == b;
                    if k < prev.len() {
                        assert(prev[k] == b);
                    } else {
                        assert(f(m as int) == Some(b));
                    }
                },
                None => {},
            }
        }
    }
}

/// A voxel reads 0 (empty) whenever no chunk holding it is loaded; in
/// particular every voxel of an empty grid reads 0.
pub proof fn lemma_unloaded_voxels_are_empty(chunks: Map<Pos, Seq<u8>>, w: Pos)
    ensures
        !chunks.contains_key(chunk_of(w)) ==> voxel_in(chunks, w) == 0,
        voxel_in(Map::<Pos, Seq<u8>>::empty(), w) == 0,
{
}

/// A loaded chunk's voxel reads the entry of the chunk's buffer at the
/// voxel's local position, and every entry of a loaded chunk is read by
/// exactly the voxel at that local position.
pub proof fn lemma_loaded_voxels_read_buffer(chunks: Map<Pos, Seq<u8>>, c: Pos, l: Pos)
    requires
        chunks.contains_key(c),
        in_chunk(l),
    ensures
        voxel_in(chunks, global(c, l)) == chunks[c][lin_spec(l)],
{
    lemma_global_in_chunk(c, l);
}

/// Componentwise difference.
pub open spec fn sub3(a: Pos, b: Pos) -> Pos {
    (a.0 - b.0, a.1 - b.1, a.2 - b.2)
}

/// Dot product.
pub open spec fn dot3(a: Pos, b: Pos) -> int {
    a.0 * b.0 + a.1 * b.1 + a.2 * b.2
}

/// Whether a normal points along a positive axis.
pub open spec fn points_up(n: Pos) -> bool {
    n.0 + n.1 + n.2 > 0
}

/// Every corner of the quad of face `d` of the voxel at `l` is a corner of
/// that voxel's unit cube lying on the face's plane: one voxel along the
/// normal from the voxel's low corner for a positive face, at the low
/// corner for a negative one.
pub proof fn lemma_quad_on_face(l: Pos, d: int, j: int)
    requires
        0 <= d < 6,
        0 <= j < 4,
    ensures
        ({
            let e = sub3(quad_corner(l, d, j), l);
            &&& 0 <= e.0 <= 1
            &&& 0 <= e.1 <= 1
            &&& 0 <= e.2 <= 1
            &&& dot3(e, face_normal(d)) == (if points_up(face_normal(d)) {
                1int
            } else {
                0int
            })
        }),
{
    let e = sub3(quad_corner(l, d, j), l);
    let n = face_normal(d);
    if d == 0 {
        assert(n == (1int, 0int, 0int));
        assert(dot3(e, n) == e.0) by (nonlinear_arith)
            requires
                n == (1int, 0int, 0int),
        ;
    } else if d == 1 {
        assert(n == (-1int, 0int, 0int));
        assert(dot3(e, n) == -e.0) by (nonlinear_arith)
            requires
                n == (-1int, 0int, 0int),
        ;
    } else if d == 2 {
        assert(n == (0int, 1int, 0int));
        assert(dot3(e, n) == e.1) by (nonlinear_arith)
            requires
                n == (0int, 1int, 0int),
        ;
    } else if d == 3 {
        assert(n == (0int, -1int, 0int));
        assert(dot3(e, n) == -e.1) by (nonlinear_arith)
            requires
                n == (0int, -1int, 0int),
        ;
    } else if d == 4 {
        assert(n == (0int, 0int, 1int));
        assert(dot3(e, n) == e.2) by (nonlinear_arith)
            requires
                n == (0int, 0int, 1int),
        ;
    } else {
        assert(n == (0int, 0int, -1int));
        assert(dot3(e, n) == -e.2) by (nonlinear_arith)
            requires
                n == (0int, 0int, -1int),
        ;
    }
}

/// The quad of every face is a proper parallelogram: its opposite edges
/// are equal, and its first, second and last corners are distinct, so both
/// of its triangles (0, 1, 2) and (0, 2, 3) cover half of the face.
pub proof fn lemma_quad_parallelogram(l: Pos, d: int)
    requires
        0 <= d < 6,
    ensures
        sub3(quad_corner(l, d, 2), quad_corner(l, d, 1)) == sub3(
            quad_corner(l, d, 3),
            quad_corner(l, d, 0),
        ),
        quad_corner(l, d, 0) != quad_corner(l, d, 1),
        quad_corner(l, d, 0) != quad_corner(l, d, 3),
        quad_corner(l, d, 1) != quad_corner(l, d, 3),
        quad_corner(l, d, 0) != quad_corner(l, d, 2),
{
}

/// Every drawn face of a chunk names a voxel of the chunk and one of its
/// six faces.
pub proof fn lemma_mesh_faces_in_range(chunks: Map<Pos, Seq<u8>>, c: Pos, k: int)
    requires
        0 <= k < mesh_faces(chunks, c).len(),
    ensures
        0 <= mesh_faces(chunks, c)[k].0 < CHUNK_VOLUME,
        0 <= mesh_faces(chunks, c)[k].1 < 6,
{
    let f = |n: int| face_entry(chunks, c, n);
    let faces = mesh_faces(chunks, c);
    assert(faces == Seq::new((6 * CHUNK_VOLUME) as nat, |j: int| j).filter_map(f));
    let x = faces[k];
    assert(faces.contains(x));
    lemma_filter_map_contains(f, (6 * CHUNK_VOLUME) as nat, x);
    let n = choose|n: int| 0 <= n < 6 * CHUNK_VOLUME && #[trigger] f(n) == Some(x);
    assert(x == (n / 6, n % 6));
}

/// The mesh of a chunk is made of the faces of its voxels: each corner lies
/// on the plane of its quad's face, within that voxel's unit cube, and
/// each quad is a proper parallelogram.
pub proof fn lemma_mesh_quads_are_voxel_faces(m: ChunkMesh, chunks: Map<Pos, Seq<u8>>, c: Pos)
    requires
        m.holds_faces(mesh_faces(chunks, c), chunks[c]),
    ensures
        forall|p: int|
            0 <= p < m.positions.len() ==> {
                let e = sub3(#[trigger] m.positions@[p]@, local_at(mesh_faces(chunks, c)[p / 4].0));
                &&& 0 <= e.0 <= 1
                &&& 0 <= e.1 <= 1
                &&& 0 <= e.2 <= 1
                &&& dot3(e, m.normals@[p]@) == (if points_up(m.normals@[p]@) {
                    1int
                } else {
                    0int
                })
            },
        forall|p: int|
            0 <= p < m.positions.len() && p % 4 == 0 ==> sub3(
                m.positions@[p + 2]@,
                m.positions@[p + 1]@,
            ) == sub3(m.positions@[p + 3]@, #[trigger] m.positions@[p]@),
{
    let faces = mesh_faces(chunks, c);
    assert forall|p: int| 0 <= p < m.positions.len() implies {
        let e = sub3(#[trigger] m.positions@[p]@, local_at(faces[p / 4].0));
        &&& 0 <= e.0 <= 1
        &&& 0 <= e.1 <= 1
        &&& 0 <= e.2 <= 1
        &&& dot3(e, m.normals@[p]@) == (if points_up(m.normals@[p]@) {
            1int
        } else {
            0int
        })
    } by {
        lemma_mesh_faces_in_range(chunks, c, p / 4);
        lemma_quad_on_face(local_at(faces[p / 4].0), faces[p / 4].1, p % 4);
    }
    assert forall|p: int| 0 <= p < m.positions.len() && p % 4 == 0 implies sub3(
        m.positions@[p + 2]@,
        m.positions@[p + 1]@,
    ) == sub3(m.positions@[p + 3]@, #[trigger] m.positions@[p]@) by {
        let k = p / 4;
        lemma_mesh_faces_in_range(chunks, c, k);
        lemma_quad_parallelogram(local_at(faces[k].0), faces[k].1);
        assert((p + 1) / 4 == k && (p + 1) % 4 == 1);
        assert((p + 2) / 4 == k && (p + 2) % 4 == 2);
        assert((p + 3) / 4 == k && (p + 3) % 4 == 3);
    }
}

/// Both triangles of every face's quad, (0, 1, 2) and (0, 2, 3), turn
/// counter-clockwise seen from outside: the cross product of their edges
/// from corner 0 is the face's outward normal.
pub proof fn lemma_quad_winding(l: Pos, d: int)
    requires
        0 <= d < 6,
    ensures
        ({
            let q0 = quad_corner(l, d, 0);
            let q1 = quad_corner(l, d, 1);
            let q2 = quad_corner(l, d, 2);
            let q3 = quad_corner(l, d, 3);
            &&& cross(sub3(q1, q0), sub3(q2, q0)) == face_normal(d)
            &&& cross(sub3(q2, q0), sub3(q3, q0)) == face_normal(d)
        }),
{
    let q0 = quad_corner(l, d, 0);
    let q1 = quad_corner(l, d, 1);
    let q2 = quad_corner(l, d, 2);
    let q3 = quad_corner(l, d, 3);
    if d == 0 {
        assert(sub3(q1, q0) == (0int, 1int, 0int) && sub3(q2, q0) == (0int, 1int, 1int) && sub3(q3, q0) == (0int, 0int, 1int));
        assert(cross((0int, 1int, 0int), (0int, 1int, 1int)) == (1int, 0int, 0int)) by (nonlinear_arith);
        assert(cross((0int, 1int, 1int), (0int, 0int, 1int)) == (1int, 0int, 0int)) by (nonlinear_arith);
    } else if d == 1 {
        assert(sub3(q1, q0) == (0int, 0int, 1int) && sub3(q2, q0) == (0int, 1int, 1int) && sub3(q3, q0) == (0int, 1int, 0int));
        assert(cross((0int, 0int, 1int), (0int, 1int, 1int)) == (-1int, 0int, 0int)) by (nonlinear_arith);
        assert(cross((0int, 1int, 1int), (0int, 1int, 0int)) == (-1int, 0int, 0int)) by (nonlinear_arith);
    } else if d == 2 {
        assert(sub3(q1, q0) == (0int, 0int, 1int) && sub3(q2, q0) == (1int, 0int, 1int) && sub3(q3, q0) == (1int, 0int, 0int));
        assert(cross((0int, 0int, 1int), (1int, 0int, 1int)) == (0int, 1int, 0int)) by (nonlinear_arith);
        assert(cross((1int, 0int, 1int), (1int, 0int, 0int)) == (0int, 1int, 0int)) by (nonlinear_arith);
    } else if d == 3 {
        assert(sub3(q1, q0) == (1int, 0int, 0int) && sub3(q2, q0) == (1int, 0int, 1int) && sub3(q3, q0) == (0int, 0int, 1int));
        assert(cross((1int, 0int, 0int), (1int, 0int, 1int)) == (0int, -1int, 0int)) by (nonlinear_arith);
        assert(cross((1int, 0int, 1int), (0int, 0int, 1int)) == (0int, -1int, 0int)) by (nonlinear_arith);
    } else if d == 4 {
        assert(sub3(q1, q0) == (1int, 0int, 0int) && sub3(q2, q0) == (1int, 1int, 0int) && sub3(q3, q0) == (0int, 1int, 0int));
        assert(cross((1int, 0int, 0int), (1int, 1int, 0int)) == (0int, 0int, 1int)) by (nonlinear_arith);
        assert(cross((1int, 1int, 0int), (0int, 1int, 0int)) == (0int, 0int, 1int)) by (nonlinear_arith);
    } else {
        assert(sub3(q1, q0) == (0int, 1int, 0int) && sub3(q2, q0) == (1int, 1int, 0int) && sub3(q3, q0) == (1int, 0int, 0int));
        assert(cross((0int, 1int, 0int), (1int, 1int, 0int)) == (0int, 0int, -1int)) by (nonlinear_arith);
        assert(cross((1int, 1int, 0int), (1int, 0int, 0int)) == (0int, 0int, -1int)) by (nonlinear_arith);
    }
}

/// Every triangle of a chunk mesh joins three corners of one quad and
/// turns counter-clockwise seen from outside its face: the cross product of
/// its edges from its first corner is that corner's normal.
pub proof fn lemma_mesh_triangles_face_outward(m: ChunkMesh, chunks: Map<Pos, Seq<u8>>, c: Pos)
    requires
        m.holds_faces(mesh_faces(chunks, c), chunks[c]),
    ensures
        forall|q: int|
            0 <= q < m.indices.len() && q % 3 == 0 ==> {
                let a = #[trigger] m.indices@[q] as int;
                let b = m.indices@[q + 1] as int;
                let t = m.indices@[q + 2] as int;
                &&& a / 4 == q / 6 && b / 4 == q / 6 && t / 4 == q / 6
                &&& a != b && b != t && a != t
                &&& cross(
                    sub3(m.positions@[b]@, m.positions@[a]@),
                    sub3(m.positions@[t]@, m.positions@[a]@),
                ) == m.normals@[a]@
            },
{
    let faces = mesh_faces(chunks, c);
    assert forall|q: int| 0 <= q < m.indices.len() && q % 3 == 0 implies {
        let a = #[trigger] m.indices@[q] as int;
        let b = m.indices@[q + 1] as int;
        let t = m.indices@[q + 2] as int;
        &&& a / 4 == q / 6 && b / 4 == q / 6 && t / 4 == q / 6
        &&& a != b && b != t && a != t
        &&& cross(
            sub3(m.positions@[b]@, m.positions@[a]@),
            sub3(m.positions@[t]@, m.positions@[a]@),
        ) == m.normals@[a]@
    } by {
        let k = q / 6;
        assert(q + 2 < m.indices.len());
        assert((q + 1) / 6 == k && (q + 2) / 6 == k);
        assert(m.indices@[q] == 4 * k + tri_corner(q % 6));
        assert(m.indices@[q + 1] == 4 * k + tri_corner((q + 1) % 6));
        assert(m.indices@[q + 2] == 4 * k + tri_corner((q + 2) % 6));
        lemma_mesh_faces_in_range(chunks, c, k);
        let l = local_at(faces[k].0);
        let d = faces[k].1;
        lemma_quad_winding(l, d);
        let p0 = 4 * k;
        assert(m.positions@[p0]@ == quad_corner(l, d, 0));
        assert(m.positions@[p0 + 1]@ == quad_corner(l, d, 1));
        assert(m.positions@[p0 + 2]@ == quad_corner(l, d, 2));
        assert(m.positions@[p0 + 3]@ == quad_corner(l, d, 3));
        assert(m.normals@[p0]@ == face_normal(d));
    }
}

/// A chunk's mesh has a face exactly for each (voxel, direction) of the
/// chunk where the voxel is non-empty and its neighbour across that face
/// (in this chunk or the next one) is empty.
pub proof fn lemma_mesh_faces_exact(chunks: Map<Pos, Seq<u8>>, c: Pos, i: int, d: int)
    ensures
        mesh_faces(chunks, c).contains((i, d)) <==> {
            &&& 0 <= i < CHUNK_VOLUME
            &&& 0 <= d < 6
            &&& voxel_in(chunks, global(c, local_at(i))) != 0
            &&& voxel_in(chunks, global(c, add3(local_at(i), face_normal(d)))) == 0
        },
{
    let f = |n: int| face_entry(chunks, c, n);
    let faces = mesh_faces(chunks, c);
    assert(faces == Seq::new((6 * CHUNK_VOLUME) as nat, |j: int| j).filter_map(f));
    lemma_filter_map_contains(f, (6 * CHUNK_VOLUME) as nat, (i, d));
    if 0 <= i < CHUNK_VOLUME && 0 <= d < 6 {
        let n = 6 * i + d;
        assert(n / 6 == i && n % 6 == d);
        assert(f(n) == face_entry(chunks, c, n));
    }
}

/// Every corner of a chunk mesh carries the tag of the (non-empty) voxel
/// whose face it belongs to.
pub proof fn lemma_mesh_tags_are_voxel_tags(m: ChunkMesh, chunks: Map<Pos, Seq<u8>>, c: Pos)
    requires
        chunks.contains_key(c),
        m.holds_faces(mesh_faces(chunks, c), chunks[c]),
    ensures
        forall|p: int|
            0 <= p < m.tags.len() ==> #[trigger] m.tags@[p] == voxel_in(
                chunks,
                global(c, local_at(mesh_faces(chunks, c)[p / 4].0)),
            ) && m.tags@[p] != 0,
{
    let faces = mesh_faces(chunks, c);
    assert forall|p: int| 0 <= p < m.tags.len() implies #[trigger] m.tags@[p] == voxel_in(
        chunks,
        global(c, local_at(faces[p / 4].0)),
    ) && m.tags@[p] != 0 by {
        let k = p / 4;
        lemma_mesh_faces_in_range(chunks, c, k);
        let x = faces[k];
        assert(faces.contains(x));
        lemma_mesh_faces_exact(chunks, c, x.0, x.1);
        lemma_lin_local_at(x.0);
        lemma_global_in_chunk(c, local_at(x.0));
    }
}

} // verus!
