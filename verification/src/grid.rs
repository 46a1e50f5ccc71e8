//! Chunked voxel storage with dirty tracking.

use std::collections::{HashMap, HashSet};
use vstd::prelude::*;

use crate::coords::{
    chunk_key, chunk_of, chunk_of_key, in_chunk, in_i32, key_of, lemma_chunk_key_injective,
    lemma_key_chunk, lemma_step_chunk, lin, lin_spec, local_of, split, valid_key, IVec3, Pos,
    CHUNK_VOLUME,
};

verus! {

broadcast use vstd::std_specs::hash::group_hash_axioms;

/// The value of voxel `v` in a set of loaded chunks: the chunk's entry if
/// the chunk holding `v` is loaded, else 0.
pub open spec fn voxel_in(chunks: Map<Pos, Seq<u8>>, v: Pos) -> u8 {
    let c = chunk_of(v);
    if chunks.contains_key(c) {
        chunks[c][lin_spec(local_of(v))]
    } else {
        0
    }
}

/// The loaded chunks after voxel `v` is set to `tag`: the entry of `v` in
/// its chunk replaced, if that chunk is loaded; else unchanged.
pub open spec fn chunks_after_set(chunks: Map<Pos, Seq<u8>>, v: Pos, tag: u8) -> Map<Pos, Seq<u8>> {
    let c = chunk_of(v);
    if chunks.contains_key(c) {
        chunks.insert(c, chunks[c].update(lin_spec(local_of(v)), tag))
    } else {
        chunks
    }
}

/// Every chunk holds `CHUNK_VOLUME` voxels.
pub open spec fn chunks_sized(chunks: Map<Pos, Seq<u8>>) -> bool {
    forall|c: Pos| #[trigger] chunks.contains_key(c) ==> chunks[c].len() == CHUNK_VOLUME
}

/// The six chunk indices that share a face with `c`.
pub open spec fn face_neighbors(c: Pos) -> Set<Pos> {
    set![
        (c.0 + 1, c.1, c.2),
        (c.0 - 1, c.1, c.2),
        (c.0, c.1 + 1, c.2),
        (c.0, c.1 - 1, c.2),
        (c.0, c.1, c.2 + 1),
        (c.0, c.1, c.2 - 1),
    ]
}

/// The chunks holding voxel `v` or one of its six face neighbours: those
/// whose meshes can change when `v` changes.
pub open spec fn touched_chunks(v: Pos) -> Set<Pos> {
    set![
        chunk_of(v),
        chunk_of((v.0 + 1, v.1, v.2)),
        chunk_of((v.0 - 1, v.1, v.2)),
        chunk_of((v.0, v.1 + 1, v.2)),
        chunk_of((v.0, v.1 - 1, v.2)),
        chunk_of((v.0, v.1, v.2 + 1)),
        chunk_of((v.0, v.1, v.2 - 1)),
    ]
}

/// The chunk step through the boundary layer at local coordinate `l`: -1
/// at the low face, 1 at the high face, else 0.
pub open spec fn bstep(l: int) -> int {
    if l == 0 {
        -1
    } else if l == 15 {
        1
    } else {
        0
    }
}

/// The chunk step through the boundary layer at local coordinate `l`.
fn boundary_step(l: i32) -> (s: i32)
    ensures
        s == bstep(l as int),
{
    if l == 0 {
        -1
    } else if l == 15 {
        1
    } else {
        0
    }
}

/// The chunks across the chunk boundaries that local position `l` of chunk
/// `c` lies on.
pub open spec fn boundary_chunks(c: Pos, l: Pos) -> Set<Pos> {
    Set::new(
        |n: Pos|
            (bstep(l.0) != 0 && n == (c.0 + bstep(l.0), c.1, c.2)) || (bstep(l.1) != 0 && n == (
                c.0,
                c.1 + bstep(l.1),
                c.2,
            )) || (bstep(l.2) != 0 && n == (c.0, c.1, c.2 + bstep(l.2))),
    )
}

/// The chunks touched by voxel `v` are its own chunk and the chunks across
/// the boundaries it lies on.
pub proof fn lemma_touched_chunks(v: Pos)
    ensures
        touched_chunks(v) == set![chunk_of(v)].union(boundary_chunks(chunk_of(v), local_of(v))),
{
    lemma_step_chunk(v.0);
    lemma_step_chunk(v.1);
    lemma_step_chunk(v.2);
    assert(touched_chunks(v) =~= set![chunk_of(v)].union(
        boundary_chunks(chunk_of(v), local_of(v)),
    ));
}

/// Decoding a duplicate-free sequence of keys gives each chunk index of the
/// key set exactly once.
proof fn lemma_decoded_keys(s: Seq<u128>, r: Seq<IVec3>, keys: Set<u128>)
    requires
        s.to_set() == keys,
        s.no_duplicates(),
        r.len() <= s.len(),
        forall|j: int| 0 <= j < r.len() ==> chunk_key(#[trigger] r[j]@) == s[j] && in_i32(r[j]@),
    ensures
        r.len() == s.len() ==> r.map_values(|c: IVec3| c@).to_set() == Set::new(
            |c: Pos| in_i32(c) && keys.contains(chunk_key(c) as u128),
        ),
        r.len() == s.len() ==> r.map_values(|c: IVec3| c@).no_duplicates(),
{
    if r.len() < s.len() {
        return;
    }
    let sq = r.map_values(|c: IVec3| c@);
    let target = Set::new(|c: Pos| in_i32(c) && keys.contains(chunk_key(c) as u128));
    assert forall|c: Pos| #[trigger] sq.to_set().contains(c) == target.contains(c) by {
        if sq.to_set().contains(c) {
            let j = choose|j: int| 0 <= j < sq.len() && sq[j] == c;
            assert(r[j]@ == c);
            assert(s.to_set().contains(s[j]));
        }
        if target.contains(c) {
            let k = chunk_key(c) as u128;
            assert(s.to_set().contains(k));
            let j = choose|j: int| 0 <= j < s.len() && s[j] == k;
            lemma_chunk_key_injective(r[j]@, c);
            assert(sq[j] == c);
        }
    }
    assert(sq.to_set() =~= target);
    assert forall|i: int, j: int| 0 <= i < sq.len() && 0 <= j < sq.len() && i != j implies sq[i]
        != sq[j] by {
        assert(s[i] != s[j]);
        assert(chunk_key(r[i]@) == s[i]);
        assert(chunk_key(r[j]@) == s[j]);
    }
}

/// A voxel object: the voxel data of its loaded chunks, and the set of
/// chunks whose mesh and collider need a rebuild.
pub struct Grid {
    voxels: HashMap<u128, Box<[u8; CHUNK_VOLUME]>>,
    dirty_chunks: HashSet<u128>,
}

impl Grid {
    /// The loaded chunks, by chunk index, each as its `CHUNK_VOLUME` voxel tags.
    pub closed spec fn chunks(self) -> Map<Pos, Seq<u8>> {
        Map::new(
            |c: Pos| in_i32(c) && self.voxels@.contains_key(chunk_key(c) as u128),
            |c: Pos| self.voxels@[chunk_key(c) as u128]@,
        )
    }

    /// The chunks marked for a mesh and collider rebuild.
    pub closed spec fn dirty(self) -> Set<Pos> {
        Set::new(|c: Pos| in_i32(c) && self.dirty_chunks@.contains(chunk_key(c) as u128))
    }

    /// The value of voxel `v`: 0 where no chunk is loaded.
    pub open spec fn voxel(self, v: Pos) -> u8 {
        voxel_in(self.chunks(), v)
    }

    /// Well-formedness: every stored key is the key of a chunk index, and
    /// every dirty chunk is loaded.
    pub closed spec fn wf(self) -> bool {
        &&& forall|k: u128| #[trigger] self.voxels@.contains_key(k) ==> valid_key(k as int)
        &&& forall|k: u128| #[trigger] self.dirty_chunks@.contains(k) ==> self.voxels@.contains_key(k)
    }

    /// What well-formedness means for the view: dirty chunks are loaded,
    /// loaded chunk indices fit in `i32`, and every chunk holds
    /// `CHUNK_VOLUME` voxels.
    pub open spec fn view_inv(self) -> bool {
        &&& self.dirty().subset_of(self.chunks().dom())
        &&& forall|c: Pos| #[trigger] self.chunks().contains_key(c) ==> in_i32(c)
        &&& chunks_sized(self.chunks())
    }

    /// The view of a well-formed grid keeps its invariant.
    pub proof fn lemma_view_inv(self)
        requires
            self.wf(),
        ensures
            self.view_inv(),
    {
        assert forall|c: Pos| #[trigger] self.chunks().contains_key(c) implies self.chunks()[c].len()
            == CHUNK_VOLUME by {
            let b = self.voxels@[chunk_key(c) as u128];
            assert(b@.len() == CHUNK_VOLUME);
        }
    }

    /// An empty grid: no chunk loaded, none dirty.
    pub fn new() -> (g: Grid)
        ensures
            g.wf(),
            g.chunks() == Map::<Pos, Seq<u8>>::empty(),
            g.dirty() == Set::<Pos>::empty(),
    {
        let g = Grid { voxels: HashMap::new(), dirty_chunks: HashSet::new() };
        assert(g.chunks() =~= Map::<Pos, Seq<u8>>::empty());
        assert(g.dirty() =~= Set::<Pos>::empty());
        g
    }

    /// Whether a chunk is loaded at `chunk_idx`.
    pub fn is_loaded(&self, chunk_idx: IVec3) -> (r: bool)
        requires
            self.wf(),
        ensures
            r == self.chunks().contains_key(chunk_idx@),
    {
        self.voxels.contains_key(&key_of(chunk_idx))
    }

    /// The voxel buffer of chunk `c`, if it is loaded.
    pub(crate) fn chunk_data(&self, c: IVec3) -> (r: Option<&[u8; CHUNK_VOLUME]>)
        requires
            self.wf(),
        ensures
            r is Some <==> self.chunks().contains_key(c@),
            r matches Some(d) ==> d@ == self.chunks()[c@],
    {
        match self.voxels.get(&key_of(c)) {
            Some(b) => Some(&**b),
            None => None,
        }
    }

    /// The value of voxel `v`; 0 if no chunk covers `v`.
    pub fn get(&self, v: IVec3) -> (r: u8)
        requires
            self.wf(),
        ensures
            r == self.voxel(v@),
            !self.chunks().contains_key(chunk_of(v@)) ==> r == 0,
    {
        let (chunk_idx, local) = split(v);
        let key = key_of(chunk_idx);
        match self.voxels.get(&key) {
            Some(c) => c[lin(local)],
            None => 0,
        }
    }

    /// Marks chunk `n` dirty if it is loaded.
    fn mark_dirty_if_loaded(&mut self, n: IVec3)
        requires
            old(self).wf(),
        ensures
            final(self).wf(),
            final(self).chunks() == old(self).chunks(),
            final(self).dirty() == (if old(self).chunks().contains_key(n@) {
                old(self).dirty().insert(n@)
            } else {
                old(self).dirty()
            }),
    {
        let k = key_of(n);
        if self.voxels.contains_key(&k) {
            self.dirty_chunks.insert(k);
            proof {
                assert forall|c: Pos| #[trigger] self.dirty().contains(c) == old(self).dirty().insert(
                    n@,
                ).contains(c) by {
                    if in_i32(c) && chunk_key(c) == chunk_key(n@) {
                        lemma_chunk_key_injective(c, n@);
                    }
                }
                assert(self.dirty() =~= old(self).dirty().insert(n@));
            }
        }
        assert(self.chunks() =~= old(self).chunks());
    }

    /// Writes `tag` at buffer index `i` of the loaded chunk `chunk_idx`
    /// (stored under `key`) and marks that chunk dirty.
    fn store_voxel(&mut self, chunk_idx: IVec3, key: u128, i: usize, tag: u8)
        requires
            old(self).wf(),
            key == chunk_key(chunk_idx@),
            old(self).chunks().contains_key(chunk_idx@),
            i < CHUNK_VOLUME,
        ensures
            final(self).wf(),
            final(self).chunks() == old(self).chunks().insert(
                chunk_idx@,
                old(self).chunks()[chunk_idx@].update(i as int, tag),
            ),
            final(self).dirty() == old(self).dirty().insert(chunk_idx@),
    {
        let mut chunk = match self.voxels.remove(&key) {
            Some(c) => c,
            None => {
                return;
            },
        };
        chunk[i] = tag;
        self.voxels.insert(key, chunk);
        self.dirty_chunks.insert(key);
        proof {
            let c = chunk_idx@;
            assert forall|d: Pos| #[trigger] self.chunks().contains_key(d) == old(
                self,
            ).chunks().contains_key(d) by {
                if in_i32(d) && chunk_key(d) == chunk_key(c) {
                    lemma_chunk_key_injective(d, c);
                }
            }
            assert forall|d: Pos| #[trigger] self.dirty().contains(d) == old(self).dirty().insert(
                c,
            ).contains(d) by {
                if in_i32(d) && chunk_key(d) == chunk_key(c) {
                    lemma_chunk_key_injective(d, c);
                }
            }
            assert forall|d: Pos| #[trigger] self.chunks().contains_key(d) implies self.chunks()[d]
                == old(self).chunks().insert(c, old(self).chunks()[c].update(i as int, tag))[d] by {
                if in_i32(d) && chunk_key(d) == chunk_key(c) {
                    lemma_chunk_key_injective(d, c);
                }
            }
            assert(self.chunks() =~= old(self).chunks().insert(
                c,
                old(self).chunks()[c].update(i as int, tag),
            ));
            assert(self.dirty() =~= old(self).dirty().insert(c));
        }
    }

    /// Marks dirty the loaded chunks across each chunk boundary that the
    /// local position `local` of chunk `chunk_idx` lies on.
    fn mark_boundary_neighbors(&mut self, chunk_idx: IVec3, local: IVec3)
        requires
            old(self).wf(),
            in_chunk(local@),
            -0x800_0000 <= chunk_idx.x < 0x800_0000,
            -0x800_0000 <= chunk_idx.y < 0x800_0000,
            -0x800_0000 <= chunk_idx.z < 0x800_0000,
        ensures
            final(self).wf(),
            final(self).chunks() == old(self).chunks(),
            final(self).dirty() == old(self).dirty().union(
                boundary_chunks(chunk_idx@, local@).intersect(old(self).chunks().dom()),
            ),
    {
        let ghost c = chunk_idx@;
        let ghost l = local@;
        let ghost dom = old(self).chunks().dom();
        let sx = boundary_step(local.x);
        if sx != 0 {
            self.mark_dirty_if_loaded(IVec3 { x: chunk_idx.x + sx, y: chunk_idx.y, z: chunk_idx.z });
        }
        let ghost d1 = self.dirty();
        let sy = boundary_step(local.y);
        if sy != 0 {
            self.mark_dirty_if_loaded(IVec3 { x: chunk_idx.x, y: chunk_idx.y + sy, z: chunk_idx.z });
        }
        let ghost d2 = self.dirty();
        let sz = boundary_step(local.z);
        if sz != 0 {
            self.mark_dirty_if_loaded(IVec3 { x: chunk_idx.x, y: chunk_idx.y, z: chunk_idx.z + sz });
        }
        proof {
            let bx = if bstep(l.0) != 0 { set![(c.0 + bstep(l.0), c.1, c.2)] } else { Set::empty() };
            let by_ = if bstep(l.1) != 0 { set![(c.0, c.1 + bstep(l.1), c.2)] } else { Set::empty() };
            let bz = if bstep(l.2) != 0 { set![(c.0, c.1, c.2 + bstep(l.2))] } else { Set::empty() };
            assert(d1 =~= old(self).dirty().union(bx.intersect(dom)));
            assert(d2 =~= d1.union(by_.intersect(dom)));
            assert(self.dirty() =~= d2.union(bz.intersect(dom)));
            assert(boundary_chunks(c, l) =~= bx.union(by_).union(bz));
            assert(self.dirty() =~= old(self).dirty().union(boundary_chunks(c, l).intersect(dom)));
        }
    }

    /// Marks the loaded face neighbours of chunk `idx` dirty.
    fn mark_face_neighbors(&mut self, idx: IVec3)
        requires
            old(self).wf(),
        ensures
            final(self).wf(),
            final(self).chunks() == old(self).chunks(),
            final(self).dirty() == old(self).dirty().union(
                face_neighbors(idx@).intersect(old(self).chunks().dom()),
            ),
    {
        let ghost c = idx@;
        let ghost dom = old(self).chunks().dom();
        let ghost d0 = self.dirty();
        self.mark_offset_if_loaded(idx, 1, 0, 0);
        let ghost d1 = self.dirty();
        self.mark_offset_if_loaded(idx, -1, 0, 0);
        let ghost d2 = self.dirty();
        self.mark_offset_if_loaded(idx, 0, 1, 0);
        let ghost d3 = self.dirty();
        self.mark_offset_if_loaded(idx, 0, -1, 0);
        let ghost d4 = self.dirty();
        self.mark_offset_if_loaded(idx, 0, 0, 1);
        let ghost d5 = self.dirty();
        self.mark_offset_if_loaded(idx, 0, 0, -1);
        proof {
            assert(self.dirty() =~= d0.union(face_neighbors(c).intersect(dom)));
        }
    }

    /// Marks chunk `idx + (dx, dy, dz)` dirty if it is loaded.
    fn mark_offset_if_loaded(&mut self, idx: IVec3, dx: i32, dy: i32, dz: i32)
        requires
            old(self).wf(),
            -1 <= dx <= 1,
            -1 <= dy <= 1,
            -1 <= dz <= 1,
        ensures
            final(self).wf(),
            final(self).chunks() == old(self).chunks(),
            final(self).dirty() == old(self).dirty().union(
                set![(idx@.0 + dx, idx@.1 + dy, idx@.2 + dz)].intersect(old(self).chunks().dom()),
            ),
    {
        let ghost n = (idx@.0 + dx, idx@.1 + dy, idx@.2 + dz);
        proof {
            self.lemma_view_inv();
        }
        match (idx.x.checked_add(dx), idx.y.checked_add(dy), idx.z.checked_add(dz)) {
            (Some(x), Some(y), Some(z)) => {
                self.mark_dirty_if_loaded(IVec3 { x, y, z });
            },
            _ => {
                assert(!in_i32(n));
            },
        }
        assert(self.dirty() =~= old(self).dirty().union(
            set![n].intersect(old(self).chunks().dom()),
        ));
    }

    /// Adds a chunk at `idx` if one isn't already loaded there, returning
    /// whether it was newly added. `tags` is invoked only on a miss, so
    /// callers can defer expensive generation. The new chunk and any loaded
    /// face neighbours are marked dirty (boundary face visibility depends on
    /// neighbours).
    pub fn add_chunk(&mut self, idx: IVec3, tags: impl FnOnce() -> Box<[u8; CHUNK_VOLUME]>) -> (added:
        bool)
        requires
            old(self).wf(),
            !old(self).chunks().contains_key(idx@) ==> call_requires(tags, ()),
        ensures
            final(self).wf(),
            added == !old(self).chunks().contains_key(idx@),
            !added ==> final(self).chunks() == old(self).chunks() && final(self).dirty() == old(
                self,
            ).dirty(),
            added ==> exists|t: Box<[u8; CHUNK_VOLUME]>|
                call_ensures(tags, (), t) && final(self).chunks() == old(self).chunks().insert(
                    idx@,
                    t@,
                ),
            added ==> final(self).dirty() == old(self).dirty().insert(idx@).union(
                face_neighbors(idx@).intersect(old(self).chunks().dom()),
            ),
    {
        let key = key_of(idx);
        if self.voxels.contains_key(&key) {
            return false;
        }
        let t = tags();
        self.voxels.insert(key, t);
        self.dirty_chunks.insert(key);
        proof {
            let c = idx@;
            assert forall|d: Pos| #[trigger] self.chunks().contains_key(d) == old(
                self,
            ).chunks().insert(c, t@).contains_key(d) by {
                if in_i32(d) && chunk_key(d) == chunk_key(c) {
                    lemma_chunk_key_injective(d, c);
                }
            }
            assert forall|d: Pos| #[trigger] self.chunks().contains_key(d) implies self.chunks()[d]
                == old(self).chunks().insert(c, t@)[d] by {
                if in_i32(d) && chunk_key(d) == chunk_key(c) {
                    lemma_chunk_key_injective(d, c);
                }
            }
            assert forall|d: Pos| #[trigger] self.dirty().contains(d) == old(self).dirty().insert(
                c,
            ).contains(d) by {
                if in_i32(d) && chunk_key(d) == chunk_key(c) {
                    lemma_chunk_key_injective(d, c);
                }
            }
            assert(self.chunks() =~= old(self).chunks().insert(c, t@));
            assert(self.dirty() =~= old(self).dirty().insert(c));
        }
        let ghost mid = *self;
        self.mark_face_neighbors(idx);
        proof {
            let c = idx@;
            assert(face_neighbors(c).intersect(mid.chunks().dom()) =~= face_neighbors(c).intersect(
                old(self).chunks().dom(),
            ));
        }
        true
    }

    /// Removes and returns the dirty chunks, each once, in no particular
    /// order; the loaded chunks stay as they are.
    pub fn take_dirty(&mut self) -> (r: Vec<IVec3>)
        requires
            old(self).wf(),
        ensures
            final(self).wf(),
            final(self).chunks() == old(self).chunks(),
            final(self).dirty() == Set::<Pos>::empty(),
            r@.map_values(|c: IVec3| c@).to_set() == old(self).dirty(),
            r@.map_values(|c: IVec3| c@).no_duplicates(),
    {
        let mut r: Vec<IVec3> = Vec::new();
        let ghost keys = self.dirty_chunks@;
        for k in it: self.dirty_chunks.iter()
            invariant
                self.wf(),
                self.dirty_chunks@ == keys,
                it.seq().unref().to_set() == keys,
                it.seq().unref().no_duplicates(),
                r.len() == it.index(),
                forall|j: int|
                    0 <= j < it.index() ==> chunk_key(#[trigger] r@[j]@) == *it.seq()[j] && in_i32(
                        r@[j]@,
                    ),
                it.index() == it.seq().len() ==> r@.map_values(|c: IVec3| c@).to_set()
                    == self.dirty() && r@.map_values(|c: IVec3| c@).no_duplicates(),
        {
            proof {
                assert(it.seq().unref()[it.index()] == *k);
                assert(it.seq().unref().to_set().contains(*k));
            }
            let c = chunk_of_key(*k);
            r.push(c);
            proof {
                lemma_key_chunk(*k as int);
                assert forall|j: int| 0 <= j < r@.len() implies chunk_key(#[trigger] r@[j]@)
                    == it.seq().unref()[j] && in_i32(r@[j]@) by {
                    if j < r@.len() - 1 {
                        assert(chunk_key(r@[j]@) == *it.seq()[j]);
                    }
                }
                lemma_decoded_keys(it.seq().unref(), r@, keys);
                assert(self.dirty() =~= Set::new(
                    |c: Pos| in_i32(c) && keys.contains(chunk_key(c) as u128),
                ));
            }
        }
        self.dirty_chunks.clear();
        proof {
            assert(self.dirty() =~= Set::<Pos>::empty());
        }
        r
    }

    /// Set voxel `v` to `tag`, returning the previous value. Marks the
    /// owning chunk dirty, and the loaded neighbour chunks across any chunk
    /// boundary that `v` touches, so their meshes rebuild. No-op (returns 0)
    /// if no chunk covers `v`; no chunk is marked when the value is unchanged.
    pub fn set(&mut self, v: IVec3, tag: u8) -> (prev: u8)
        requires
            old(self).wf(),
        ensures
            final(self).wf(),
            prev == old(self).voxel(v@),
            final(self).chunks() == chunks_after_set(old(self).chunks(), v@, tag),
            final(self).dirty() == (if old(self).chunks().contains_key(chunk_of(v@)) && prev != tag {
                old(self).dirty().union(touched_chunks(v@).intersect(old(self).chunks().dom()))
            } else {
                old(self).dirty()
            }),
    {
        let (chunk_idx, local) = split(v);
        let key = key_of(chunk_idx);
        let i = lin(local);
        let prev = match self.voxels.get(&key) {
            Some(c) => c[i],
            None => {
                return 0;
            },
        };
        if prev == tag {
            proof {
                let c = chunk_of(v@);
                assert(self.chunks()[c][lin_spec(local_of(v@))] == tag);
                assert(self.chunks()[c].update(lin_spec(local_of(v@)), tag) =~= self.chunks()[c]);
                assert(self.chunks().insert(c, self.chunks()[c].update(lin_spec(local_of(v@)), tag))
                    =~= self.chunks());
            }
            return prev;
        }
        self.store_voxel(chunk_idx, key, i, tag);
        self.mark_boundary_neighbors(chunk_idx, local);
        proof {
            lemma_touched_chunks(v@);
            assert(self.dirty() =~= old(self).dirty().union(
                touched_chunks(v@).intersect(old(self).chunks().dom()),
            ));
        }
        prev
    }
}

impl Default for Grid {
    fn default() -> (g: Grid)
        ensures
            g.wf(),
            g.chunks() == Map::<Pos, Seq<u8>>::empty(),
            g.dirty() == Set::<Pos>::empty(),
    {
        Grid::new()
    }
}

} // verus!
