//! Face-culled meshing of one chunk: a quad for every face between a
//! non-empty voxel and an empty neighbour, looking across chunk seams.

use vstd::prelude::*;

use crate::chunk::{lemma_lin_local_at, local_at, solid_locals, solid_locals_of};
use crate::coords::{
    chunk_of, global, in_chunk, in_i32, lemma_global_axis, lemma_global_in_chunk, lin, lin_spec,
    local_of, IVec3, Pos, CHUNK_VOLUME,
};
use crate::grid::{voxel_in, Grid};

verus! {

/// Outward normal of face `d` (0..6): +X, -X, +Y, -Y, +Z, -Z.
pub open spec fn face_normal(d: int) -> Pos {
    if d == 0 {
        (1, 0, 0)
    } else if d == 1 {
        (-1, 0, 0)
    } else if d == 2 {
        (0, 1, 0)
    } else if d == 3 {
        (0, -1, 0)
    } else if d == 4 {
        (0, 0, 1)
    } else {
        (0, 0, -1)
    }
}

/// First edge direction of face `d`.
pub open spec fn face_u(d: int) -> Pos {
    if d == 0 {
        (0, 1, 0)
    } else if d == 1 {
        (0, 0, 1)
    } else if d == 2 {
        (0, 0, 1)
    } else if d == 3 {
        (1, 0, 0)
    } else if d == 4 {
        (1, 0, 0)
    } else {
        (0, 1, 0)
    }
}

/// Second edge direction of face `d`.
pub open spec fn face_w(d: int) -> Pos {
    if d == 0 {
        (0, 0, 1)
    } else if d == 1 {
        (0, 1, 0)
    } else if d == 2 {
        (1, 0, 0)
    } else if d == 3 {
        (0, 0, 1)
    } else if d == 4 {
        (0, 1, 0)
    } else {
        (1, 0, 0)
    }
}

pub open spec fn add3(a: Pos, b: Pos) -> Pos {
    (a.0 + b.0, a.1 + b.1, a.2 + b.2)
}

pub open spec fn cross(a: Pos, b: Pos) -> Pos {
    (a.1 * b.2 - a.2 * b.1, a.2 * b.0 - a.0 * b.2, a.0 * b.1 - a.1 * b.0)
}

/// The corner of face `d` of the voxel at `l` where its quad starts: the
/// voxel's own corner, moved one step along the normal for a positive face.
pub open spec fn face_origin(l: Pos, d: int) -> Pos {
    if d % 2 == 0 {
        add3(l, face_normal(d))
    } else {
        l
    }
}

/// Corner `j` (0..4) of the quad of face `d` of the voxel at `l`: origin,
/// origin + u, origin + u + w, origin + w.
pub open spec fn quad_corner(l: Pos, d: int, j: int) -> Pos {
    let o = face_origin(l, d);
    if j == 0 {
        o
    } else if j == 1 {
        add3(o, face_u(d))
    } else if j == 2 {
        add3(add3(o, face_u(d)), face_w(d))
    } else {
        add3(o, face_w(d))
    }
}

/// Which quad corner the `j`-th index (0..6) of a quad's two triangles
/// names: (0, 1, 2) and (0, 2, 3).
pub open spec fn tri_corner(j: int) -> int {
    if j == 0 || j == 3 {
        0
    } else if j == 1 {
        1
    } else if j == 2 || j == 4 {
        2
    } else {
        3
    }
}

/// A chunk's render mesh, in voxel units local to the chunk: quad corners,
/// their normals, the tag of the voxel each belongs to (it picks the
/// colour), and triangle indices into the corners.
pub struct ChunkMesh {
    pub positions: Vec<IVec3>,
    pub normals: Vec<IVec3>,
    pub tags: Vec<u8>,
    pub indices: Vec<u32>,
}

impl ChunkMesh {
    /// The mesh holds one quad per face of `faces` (each a buffer index and
    /// a face direction), in order, with the tags that `chunk` gives.
    pub open spec fn holds_faces(self, faces: Seq<(int, int)>, chunk: Seq<u8>) -> bool {
        &&& self.positions.len() == 4 * faces.len()
        &&& self.normals.len() == 4 * faces.len()
        &&& self.tags.len() == 4 * faces.len()
        &&& self.indices.len() == 6 * faces.len()
        &&& forall|p: int|
            0 <= p < self.positions.len() ==> #[trigger] self.positions@[p]@ == quad_corner(
                local_at(faces[p / 4].0),
                faces[p / 4].1,
                p % 4,
            )
        &&& forall|p: int|
            0 <= p < self.normals.len() ==> #[trigger] self.normals@[p]@ == face_normal(
                faces[p / 4].1,
            )
        &&& forall|p: int|
            0 <= p < self.tags.len() ==> #[trigger] self.tags@[p] == chunk[faces[p / 4].0]
        &&& forall|q: int|
            0 <= q < self.indices.len() ==> #[trigger] self.indices@[q] == 4 * (q / 6) + tri_corner(
                q % 6,
            )
    }
}

/// Normal and edge directions of face `d`.
fn face_dirs(d: usize) -> (r: (IVec3, IVec3, IVec3))
    requires
        d < 6,
    ensures
        r.0@ == face_normal(d as int),
        r.1@ == face_u(d as int),
        r.2@ == face_w(d as int),
{
    let x = IVec3 { x: 1, y: 0, z: 0 };
    let y = IVec3 { x: 0, y: 1, z: 0 };
    let z = IVec3 { x: 0, y: 0, z: 1 };
    if d == 0 {
        (x, y, z)
    } else if d == 1 {
        (IVec3 { x: -1, y: 0, z: 0 }, z, y)
    } else if d == 2 {
        (y, z, x)
    } else if d == 3 {
        (IVec3 { x: 0, y: -1, z: 0 }, x, z)
    } else if d == 4 {
        (z, x, y)
    } else {
        (IVec3 { x: 0, y: 0, z: -1 }, y, x)
    }
}

/// Appends the quad of face `d` of the voxel at buffer index `i`, whose
/// tag is `tag`.
fn push_face(
    mesh: &mut ChunkMesh,
    Ghost(faces): Ghost<Seq<(int, int)>>,
    Ghost(chunk): Ghost<Seq<u8>>,
    i: usize,
    d: usize,
    tag: u8,
)
    requires
        old(mesh).holds_faces(faces, chunk),
        i < CHUNK_VOLUME,
        d < 6,
        chunk.len() == CHUNK_VOLUME,
        chunk[i as int] == tag,
        faces.len() < 6 * CHUNK_VOLUME,
    ensures
        final(mesh).holds_faces(faces.push((i as int, d as int)), chunk),
{
    proof {
        lemma_lin_local_at(i as int);
    }
    let l = IVec3 { x: (i % 16) as i32, y: (i / 16 % 16) as i32, z: (i / 256) as i32 };
    let (n, u, w) = face_dirs(d);
    let o = if d % 2 == 0 {
        IVec3 { x: l.x + n.x, y: l.y + n.y, z: l.z + n.z }
    } else {
        l
    };
    let ou = IVec3 { x: o.x + u.x, y: o.y + u.y, z: o.z + u.z };
    let ouw = IVec3 { x: ou.x + w.x, y: ou.y + w.y, z: ou.z + w.z };
    let ow = IVec3 { x: o.x + w.x, y: o.y + w.y, z: o.z + w.z };
    let base = mesh.positions.len() as u32;
    let ghost m0 = *mesh;
    let ghost f1 = faces.push((i as int, d as int));
    mesh.positions.push(o);
    mesh.positions.push(ou);
    mesh.positions.push(ouw);
    mesh.positions.push(ow);
    mesh.normals.push(n);
    mesh.normals.push(n);
    mesh.normals.push(n);
    mesh.normals.push(n);
    mesh.tags.push(tag);
    mesh.tags.push(tag);
    mesh.tags.push(tag);
    mesh.tags.push(tag);
    mesh.indices.push(base);
    mesh.indices.push(base + 1);
    mesh.indices.push(base + 2);
    mesh.indices.push(base);
    mesh.indices.push(base + 2);
    mesh.indices.push(base + 3);
    proof {
        let k = faces.len() as int;
        assert forall|p: int| 0 <= p < mesh.positions.len() implies #[trigger] mesh.positions@[p]@
            == quad_corner(local_at(f1[p / 4].0), f1[p / 4].1, p % 4) by {
            if p < 4 * k {
                assert(mesh.positions@[p] == m0.positions@[p]);
                assert(f1[p / 4] == faces[p / 4]);
            } else {
                assert(p / 4 == k);
            }
        }
        assert forall|p: int| 0 <= p < mesh.normals.len() implies #[trigger] mesh.normals@[p]@
            == face_normal(f1[p / 4].1) by {
            if p < 4 * k {
                assert(mesh.normals@[p] == m0.normals@[p]);
                assert(f1[p / 4] == faces[p / 4]);
            } else {
                assert(p / 4 == k);
            }
        }
        assert forall|p: int| 0 <= p < mesh.tags.len() implies #[trigger] mesh.tags@[p]
            == chunk[f1[p / 4].0] by {
            if p < 4 * k {
                assert(mesh.tags@[p] == m0.tags@[p]);
                assert(f1[p / 4] == faces[p / 4]);
            } else {
                assert(p / 4 == k);
            }
        }
        assert forall|q: int| 0 <= q < mesh.indices.len() implies #[trigger] mesh.indices@[q] == 4 * (
        q / 6) + tri_corner(q % 6) by {
            if q < 6 * k {
                assert(mesh.indices@[q] == m0.indices@[q]);
            } else {
                assert(q / 6 == k);
            }
        }
    }
}

/// Whether face `d` of the voxel at buffer index `i` of chunk `c` is drawn:
/// the voxel is non-empty and its neighbour across the face is empty,
/// looking into the neighbouring chunk at a seam.
pub open spec fn face_visible(chunks: Map<Pos, Seq<u8>>, c: Pos, i: int, d: int) -> bool {
    let l = local_at(i);
    &&& voxel_in(chunks, global(c, l)) != 0
    &&& voxel_in(chunks, global(c, add3(l, face_normal(d)))) == 0
}

/// The `n`-th candidate face of chunk `c` (voxel `n / 6`, face `n % 6`),
/// if it is drawn.
pub open spec fn face_entry(chunks: Map<Pos, Seq<u8>>, c: Pos, n: int) -> Option<(int, int)> {
    if face_visible(chunks, c, n / 6, n % 6) {
        Some((n / 6, n % 6))
    } else {
        None
    }
}

/// The drawn faces of chunk `c`, as (buffer index, face) pairs, voxels in
/// buffer order and each voxel's faces in the order +X, -X, +Y, -Y, +Z, -Z.
pub open spec fn mesh_faces(chunks: Map<Pos, Seq<u8>>, c: Pos) -> Seq<(int, int)> {
    Seq::new(6 * CHUNK_VOLUME as nat, |n: int| n).filter_map(|n: int| face_entry(chunks, c, n))
}

/// One more element of an index range adds the element's image, if any.
pub proof fn lemma_filter_map_step<B>(f: spec_fn(int) -> Option<B>, n: nat)
    ensures
        Seq::new(n + 1, |j: int| j).filter_map(f) == (match f(n as int) {
            Some(b) => Seq::new(n, |j: int| j).filter_map(f).push(b),
            None => Seq::new(n, |j: int| j).filter_map(f),
        }),
{
    let s1 = Seq::new(n + 1, |j: int| j);
    assert(s1.drop_last() =~= Seq::new(n, |j: int| j));
    assert(s1.last() == n);
    match f(n as int) {
        Some(b) => {
            assert(s1.filter_map(f) == s1.drop_last().filter_map(f) + seq![b]);
            assert(Seq::new(n, |j: int| j).filter_map(f) + seq![b] =~= Seq::new(n, |j: int| j).filter_map(
                f,
            ).push(b));
        },
        None => {},
    }
}

/// Along one axis, the chunk and the coordinate inside it that local
/// coordinate `x` (in `-1..=16`) of chunk coordinate `c` lands in; `None`
/// when that chunk coordinate does not fit in an `i32`.
fn wrap_axis(c: i32, x: i32) -> (r: Option<(i32, i32)>)
    requires
        -1 <= x <= 16,
    ensures
        r matches Some((n, l)) ==> n == (16 * c + x) / 16 && l == (16 * c + x) % 16,
        r is None ==> !(i32::MIN <= (16 * c + x) / 16 <= i32::MAX),
{
    proof {
        lemma_global_axis(c as int, x as int);
    }
    if x < 0 {
        match c.checked_sub(1) {
            Some(n) => Some((n, 15)),
            None => None,
        }
    } else if x >= 16 {
        match c.checked_add(1) {
            Some(n) => Some((n, 0)),
            None => None,
        }
    } else {
        Some((c, x))
    }
}

/// The value of the voxel at local position `(x, y, z)` of the loaded
/// chunk `c`, whose buffer is `chunk`; outside the chunk, the value in the
/// neighbouring chunk, or 0 if none is loaded.
fn sample(grid: &Grid, c: IVec3, chunk: &[u8; CHUNK_VOLUME], x: i32, y: i32, z: i32) -> (r: u8)
    requires
        grid.wf(),
        grid.chunks().contains_key(c@),
        grid.chunks()[c@] == chunk@,
        -1 <= x <= 16,
        -1 <= y <= 16,
        -1 <= z <= 16,
    ensures
        r == grid.voxel(global(c@, (x as int, y as int, z as int))),
{
    let ghost g = global(c@, (x as int, y as int, z as int));
    if 0 <= x && x < 16 && 0 <= y && y < 16 && 0 <= z && z < 16 {
        proof {
            lemma_global_in_chunk(c@, (x as int, y as int, z as int));
        }
        return chunk[lin(IVec3 { x, y, z })];
    }
    proof {
        lemma_global_axis(c.x as int, x as int);
        lemma_global_axis(c.y as int, y as int);
        lemma_global_axis(c.z as int, z as int);
        grid.lemma_view_inv();
    }
    match (wrap_axis(c.x, x), wrap_axis(c.y, y), wrap_axis(c.z, z)) {
        (Some((nx, lx)), Some((ny, ly)), Some((nz, lz))) => {
            let n = IVec3 { x: nx, y: ny, z: nz };
            assert(n@ == chunk_of(g));
            match grid.chunk_data(n) {
                Some(d) => d[lin(IVec3 { x: lx, y: ly, z: lz })],
                None => 0,
            }
        },
        _ => {
            assert(!in_i32(chunk_of(g)));
            0
        },
    }
}

impl Grid {
    /// The render mesh of the loaded chunk `chunk_idx`: a quad for every
    /// face between a non-empty voxel and an empty neighbour. Samples
    /// outside the chunk walk into the neighbouring chunk, so no face is
    /// drawn between two non-empty voxels at a chunk seam.
    pub fn chunk_mesh(&self, chunk_idx: IVec3) -> (m: ChunkMesh)
        requires
            self.wf(),
            self.chunks().contains_key(chunk_idx@),
        ensures
            m.holds_faces(mesh_faces(self.chunks(), chunk_idx@), self.chunks()[chunk_idx@]),
    {
        let chunk = match self.chunk_data(chunk_idx) {
            Some(d) => d,
            None => {
                return ChunkMesh {
                    positions: Vec::new(),
                    normals: Vec::new(),
                    tags: Vec::new(),
                    indices: Vec::new(),
                };
            },
        };
        let ghost chunks = self.chunks();
        let ghost c = chunk_idx@;
        let ghost f = |n: int| face_entry(chunks, c, n);
        let mut mesh = ChunkMesh {
            positions: Vec::new(),
            normals: Vec::new(),
            tags: Vec::new(),
            indices: Vec::new(),
        };
        proof {
            assert(Seq::new(0, |j: int| j).filter_map(f) =~= Seq::<(int, int)>::empty());
        }
        let mut i: usize = 0;
        while i < CHUNK_VOLUME
            invariant
                self.wf(),
                chunks == self.chunks(),
                c == chunk_idx@,
                chunks.contains_key(c),
                chunks[c] == chunk@,
                chunk@.len() == CHUNK_VOLUME,
                f == (|n: int| face_entry(chunks, c, n)),
                i <= CHUNK_VOLUME,
                mesh.holds_faces(Seq::new((6 * i) as nat, |j: int| j).filter_map(f), chunk@),
                Seq::new((6 * i) as nat, |j: int| j).filter_map(f).len() <= 6 * i,
            decreases CHUNK_VOLUME - i,
        {
            let x = (i % 16) as i32;
            let y = (i / 16 % 16) as i32;
            let z = (i / 256) as i32;
            proof {
                lemma_lin_local_at(i as int);
                lemma_global_in_chunk(c, local_at(i as int));
            }
            let tag = chunk[i];
            let mut d: usize = 0;
            while d < 6
                invariant
                    self.wf(),
                    chunks == self.chunks(),
                    c == chunk_idx@,
                    chunks.contains_key(c),
                    chunks[c] == chunk@,
                    chunk@.len() == CHUNK_VOLUME,
                    f == (|n: int| face_entry(chunks, c, n)),
                    i < CHUNK_VOLUME,
                    d <= 6,
                    (x as int, y as int, z as int) == local_at(i as int),
                    in_chunk(local_at(i as int)),
                    tag == chunk@[i as int],
                    voxel_in(chunks, global(c, local_at(i as int))) == tag,
                    mesh.holds_faces(Seq::new((6 * i + d) as nat, |j: int| j).filter_map(f), chunk@),
                    Seq::new((6 * i + d) as nat, |j: int| j).filter_map(f).len() <= 6 * i + d,
                decreases 6 - d,
            {
                let ghost n = (6 * i + d) as nat;
                proof {
                    lemma_filter_map_step(f, n);
                    assert(n as int / 6 == i && n as int % 6 == d);
                }
                if tag != 0 {
                    let (nrm, _, _) = face_dirs(d);
                    if sample(self, chunk_idx, chunk, x + nrm.x, y + nrm.y, z + nrm.z) == 0 {
                        push_face(
                            &mut mesh,
                            Ghost(Seq::new(n, |j: int| j).filter_map(f)),
                            Ghost(chunk@),
                            i,
                            d,
                            tag,
                        );
                    }
                }
                d += 1;
            }
            i += 1;
        }
        proof {
            assert(f == (|n: int| face_entry(self.chunks(), chunk_idx@, n)));
        }
        mesh
    }
}

/// What a dirty chunk's rebuild produces.
pub enum ChunkRebuild {
    /// No chunk is loaded there any more: its render entity goes away.
    Unloaded,
    /// The chunk's new render mesh, and the local coordinates of its
    /// non-empty voxels, from which its collider is built (none: the chunk
    /// gets no collider).
    Rebuilt { mesh: ChunkMesh, solid: Vec<IVec3> },
}

impl Grid {
    /// The local coordinates of the non-empty voxels of the loaded chunk
    /// `chunk_idx`, x fastest, then y, then z.
    pub fn solid_voxels(&self, chunk_idx: IVec3) -> (r: Vec<IVec3>)
        requires
            self.wf(),
            self.chunks().contains_key(chunk_idx@),
        ensures
            r@.map_values(|v: IVec3| v@) == solid_locals_of(self.chunks()[chunk_idx@]),
    {
        match self.chunk_data(chunk_idx) {
            Some(d) => solid_locals(d),
            None => Vec::new(),
        }
    }

    /// Rebuilds dirty chunk `chunk_idx`: `Unloaded` if no chunk is loaded
    /// there, else its mesh and the voxels its collider is made of.
    pub fn rebuild_chunk(&self, chunk_idx: IVec3) -> (r: ChunkRebuild)
        requires
            self.wf(),
        ensures
            r is Unloaded <==> !self.chunks().contains_key(chunk_idx@),
            r matches ChunkRebuild::Rebuilt { mesh, solid } ==> {
                &&& mesh.holds_faces(
                    mesh_faces(self.chunks(), chunk_idx@),
                    self.chunks()[chunk_idx@],
                )
                &&& solid@.map_values(|v: IVec3| v@) == solid_locals_of(self.chunks()[chunk_idx@])
            },
    {
        if !self.is_loaded(chunk_idx) {
            return ChunkRebuild::Unloaded;
        }
        let mesh = self.chunk_mesh(chunk_idx);
        let solid = self.solid_voxels(chunk_idx);
        ChunkRebuild::Rebuilt { mesh, solid }
    }
}

} // verus!
