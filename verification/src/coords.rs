//! Integer voxel coordinates, the split of a global voxel position into a
//! chunk index and a local position, and the linear layout of a chunk.

use vstd::prelude::*;
use vstd::arithmetic::div_mod::{lemma_fundamental_div_mod, lemma_fundamental_div_mod_converse};

verus! {

/// Side length of a chunk, in voxels.
pub const N: usize = 16;

/// Number of voxels in one chunk (`N * N * N`).
pub const CHUNK_VOLUME: usize = 4096;

/// A mathematical integer triple: a voxel position or a chunk index.
pub type Pos = (int, int, int);

/// A 3D integer vector: a global voxel position, a chunk index, or a
/// position local to a chunk.
#[derive(Clone, Copy, Debug, PartialEq, Eq, Structural, Hash)]
pub struct IVec3 {
    pub x: i32,
    pub y: i32,
    pub z: i32,
}

impl View for IVec3 {
    type V = Pos;

    open spec fn view(&self) -> Pos {
        (self.x as int, self.y as int, self.z as int)
    }
}

impl IVec3 {
    pub fn new(x: i32, y: i32, z: i32) -> (r: IVec3)
        ensures
            r@ == (x as int, y as int, z as int),
    {
        IVec3 { x, y, z }
    }
}

/// The chunk that holds the voxel at `v`: each component floor-divided by `N`.
pub open spec fn chunk_of(v: Pos) -> Pos {
    (v.0 / 16, v.1 / 16, v.2 / 16)
}

/// The position of voxel `v` inside its chunk: each component taken
/// modulo `N`, in `0..N`.
pub open spec fn local_of(v: Pos) -> Pos {
    (v.0 % 16, v.1 % 16, v.2 % 16)
}

/// Whether `l` is a position inside a chunk.
pub open spec fn in_chunk(l: Pos) -> bool {
    &&& 0 <= l.0 < 16
    &&& 0 <= l.1 < 16
    &&& 0 <= l.2 < 16
}

/// Index of local position `l` in a chunk's buffer: x fastest, then y, then z.
pub open spec fn lin_spec(l: Pos) -> int {
    l.0 + 16 * (l.1 + 16 * l.2)
}

/// Whether every component of `c` fits in an `i32`.
pub open spec fn in_i32(c: Pos) -> bool {
    &&& i32::MIN <= c.0 <= i32::MAX
    &&& i32::MIN <= c.1 <= i32::MAX
    &&& i32::MIN <= c.2 <= i32::MAX
}

/// Splits a global voxel position into its chunk index and its position
/// inside that chunk.
pub fn split(v: IVec3) -> (r: (IVec3, IVec3))
    ensures
        r.0@ == chunk_of(v@),
        r.1@ == local_of(v@),
        in_chunk(r.1@),
        -0x800_0000 <= r.0.x < 0x800_0000,
        -0x800_0000 <= r.0.y < 0x800_0000,
        -0x800_0000 <= r.0.z < 0x800_0000,
{
    let cx = v.x.checked_div_euclid(16).unwrap();
    let cy = v.y.checked_div_euclid(16).unwrap();
    let cz = v.z.checked_div_euclid(16).unwrap();
    let lx = v.x.checked_rem_euclid(16).unwrap();
    let ly = v.y.checked_rem_euclid(16).unwrap();
    let lz = v.z.checked_rem_euclid(16).unwrap();
    (IVec3 { x: cx, y: cy, z: cz }, IVec3 { x: lx, y: ly, z: lz })
}

/// Index of a local position in a chunk's buffer.
pub fn lin(local: IVec3) -> (i: usize)
    requires
        in_chunk(local@),
    ensures
        i == lin_spec(local@),
        i < CHUNK_VOLUME,
{
    local.x as usize + N * (local.y as usize + N * local.z as usize)
}

/// The offset that moves an `i32` into `0..2^32`.
pub open spec fn bias() -> int {
    0x8000_0000
}

/// The hash-map key of chunk index `c`: its three components, each moved
/// into `0..2^32`, as the digits of a base-`2^32` number.
pub open spec fn chunk_key(c: Pos) -> int {
    (c.0 + bias()) * 0x1_0000_0000_0000_0000 + (c.1 + bias()) * 0x1_0000_0000 + (c.2 + bias())
}

/// Whether `k` is a key that some chunk index has.
pub open spec fn valid_key(k: int) -> bool {
    0 <= k < 0x1_0000_0000_0000_0000_0000_0000
}

/// The chunk index whose key is `k`.
pub open spec fn key_chunk(k: int) -> Pos {
    (
        k / 0x1_0000_0000_0000_0000 - bias(),
        (k / 0x1_0000_0000) % 0x1_0000_0000 - bias(),
        k % 0x1_0000_0000 - bias(),
    )
}

/// Keys and chunk indices correspond one to one.
pub proof fn lemma_chunk_key(c: Pos)
    requires
        in_i32(c),
    ensures
        valid_key(chunk_key(c)),
        key_chunk(chunk_key(c)) == c,
{
    let k = chunk_key(c);
    let a = c.0 + bias();
    let b = c.1 + bias();
    let d = c.2 + bias();
    let q = a * 0x1_0000_0000 + b;
    assert(k == q * 0x1_0000_0000 + d);
    lemma_fundamental_div_mod_converse(k, 0x1_0000_0000, q, d);
    lemma_fundamental_div_mod_converse(q, 0x1_0000_0000, a, b);
    lemma_fundamental_div_mod_converse(k, 0x1_0000_0000_0000_0000, a, b * 0x1_0000_0000 + d);
}

/// Every valid key is the key of the chunk index it decodes to.
pub proof fn lemma_key_chunk(k: int)
    requires
        valid_key(k),
    ensures
        in_i32(key_chunk(k)),
        chunk_key(key_chunk(k)) == k,
{
    let d = k % 0x1_0000_0000;
    let q = k / 0x1_0000_0000;
    let b = q % 0x1_0000_0000;
    let a = q / 0x1_0000_0000;
    assert(k == q * 0x1_0000_0000 + d);
    assert(q == a * 0x1_0000_0000 + b);
    assert(0 <= a < 0x1_0000_0000);
    assert(k == a * 0x1_0000_0000_0000_0000 + b * 0x1_0000_0000 + d);
    lemma_fundamental_div_mod_converse(k, 0x1_0000_0000_0000_0000, a, b * 0x1_0000_0000 + d);
}

/// The key under which chunk `c` is stored.
pub fn key_of(c: IVec3) -> (k: u128)
    ensures
        k == chunk_key(c@),
        valid_key(k as int),
{
    proof {
        lemma_chunk_key(c@);
    }
    let a = (c.x as i64 + 0x8000_0000) as u128;
    let b = (c.y as i64 + 0x8000_0000) as u128;
    let d = (c.z as i64 + 0x8000_0000) as u128;
    a * 0x1_0000_0000_0000_0000 + b * 0x1_0000_0000 + d
}

/// The chunk index stored under key `k`.
pub fn chunk_of_key(k: u128) -> (c: IVec3)
    requires
        valid_key(k as int),
    ensures
        c@ == key_chunk(k as int),
        chunk_key(c@) == k,
{
    proof {
        lemma_key_chunk(k as int);
    }
    let a = (k / 0x1_0000_0000_0000_0000) as i64;
    let b = ((k / 0x1_0000_0000) % 0x1_0000_0000) as i64;
    let d = (k % 0x1_0000_0000) as i64;
    IVec3 { x: (a - 0x8000_0000) as i32, y: (b - 0x8000_0000) as i32, z: (d - 0x8000_0000) as i32 }
}

/// Stepping one voxel along an axis moves into the next chunk exactly when
/// the step leaves the current chunk through its boundary layer.
pub proof fn lemma_step_chunk(a: int)
    ensures
        (a + 1) / 16 == a / 16 + (if a % 16 == 15 { 1int } else { 0int }),
        (a + 1) % 16 == (if a % 16 == 15 { 0int } else { a % 16 + 1 }),
        (a - 1) / 16 == a / 16 - (if a % 16 == 0 { 1int } else { 0int }),
        (a - 1) % 16 == (if a % 16 == 0 { 15int } else { a % 16 - 1 }),
{
    lemma_fundamental_div_mod(a, 16);
    let q = a / 16;
    let r = a % 16;
    if r == 15 {
        lemma_fundamental_div_mod_converse(a + 1, 16, q + 1, 0);
    } else {
        lemma_fundamental_div_mod_converse(a + 1, 16, q, r + 1);
    }
    if r == 0 {
        lemma_fundamental_div_mod_converse(a - 1, 16, q - 1, 15);
    } else {
        lemma_fundamental_div_mod_converse(a - 1, 16, q, r - 1);
    }
}

/// Chunk keys of distinct chunk indices differ.
pub proof fn lemma_chunk_key_injective(c: Pos, d: Pos)
    requires
        in_i32(c),
        in_i32(d),
        chunk_key(c) == chunk_key(d),
    ensures
        c == d,
{
    lemma_chunk_key(c);
    lemma_chunk_key(d);
}

/// The global position of local position `l` of chunk `c`; `l` may lie
/// outside the chunk, naming a voxel of a neighbouring chunk.
pub open spec fn global(c: Pos, l: Pos) -> Pos {
    (16 * c.0 + l.0, 16 * c.1 + l.1, 16 * c.2 + l.2)
}

/// Along one axis, local coordinate `x` in `-1..=16` of chunk `c` lies in
/// chunk `c - 1`, `c` or `c + 1`, at the wrapped coordinate.
pub proof fn lemma_global_axis(c: int, x: int)
    requires
        -1 <= x <= 16,
    ensures
        (16 * c + x) / 16 == c + (if x < 0 {
            -1int
        } else if x >= 16 {
            1int
        } else {
            0int
        }),
        (16 * c + x) % 16 == (if x < 0 {
            15int
        } else if x >= 16 {
            0int
        } else {
            x
        }),
{
    if x < 0 {
        lemma_fundamental_div_mod_converse(16 * c + x, 16, c - 1, 15);
    } else if x >= 16 {
        lemma_fundamental_div_mod_converse(16 * c + x, 16, c + 1, 0);
    } else {
        lemma_fundamental_div_mod_converse(16 * c + x, 16, c, x);
    }
}

/// A local position inside chunk `c` names a voxel of `c`.
pub proof fn lemma_global_in_chunk(c: Pos, l: Pos)
    requires
        in_chunk(l),
    ensures
        chunk_of(global(c, l)) == c,
        local_of(global(c, l)) == l,
{
    lemma_global_axis(c.0, l.0);
    lemma_global_axis(c.1, l.1);
    lemma_global_axis(c.2, l.2);
}

/// A chunk index and a position inside it recombine to the voxel they
/// were split from.
pub proof fn lemma_split_recombines(v: Pos)
    ensures
        global(chunk_of(v), local_of(v)) == v,
        in_chunk(local_of(v)),
{
    lemma_fundamental_div_mod(v.0, 16);
    lemma_fundamental_div_mod(v.1, 16);
    lemma_fundamental_div_mod(v.2, 16);
}

} // verus!
