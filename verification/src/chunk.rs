//! Positions inside one chunk's voxel buffer.

use vstd::prelude::*;
use vstd::arithmetic::div_mod::lemma_fundamental_div_mod_converse;

use crate::coords::{in_chunk, lin_spec, IVec3, Pos, CHUNK_VOLUME};

verus! {

/// The local position stored at buffer index `i`.
pub open spec fn local_at(i: int) -> Pos {
    (i % 16, (i / 16) % 16, i / 256)
}

/// Buffer indices and local positions correspond one to one.
pub proof fn lemma_local_at_lin(l: Pos)
    requires
        in_chunk(l),
    ensures
        local_at(lin_spec(l)) == l,
        0 <= lin_spec(l) < CHUNK_VOLUME,
{
    let i = lin_spec(l);
    lemma_fundamental_div_mod_converse(i, 16, l.1 + 16 * l.2, l.0);
    lemma_fundamental_div_mod_converse(l.1 + 16 * l.2, 16, l.2, l.1);
    lemma_fundamental_div_mod_converse(i, 256, l.2, l.0 + 16 * l.1);
}

/// Every buffer index holds a local position, and maps back to itself.
pub proof fn lemma_lin_local_at(i: int)
    requires
        0 <= i < CHUNK_VOLUME,
    ensures
        in_chunk(local_at(i)),
        lin_spec(local_at(i)) == i,
{
    let q = i / 16;
    lemma_fundamental_div_mod_converse(i, 16, q, i % 16);
    vstd::arithmetic::div_mod::lemma_fundamental_div_mod(i, 16);
    vstd::arithmetic::div_mod::lemma_fundamental_div_mod(q, 16);
    vstd::arithmetic::div_mod::lemma_div_denominator(i, 16, 16);
}

/// The local positions of the non-empty voxels of `chunk`, in buffer order.
pub open spec fn solid_locals_of(chunk: Seq<u8>) -> Seq<Pos> {
    Seq::new(chunk.len(), |i: int| i).filter_map(
        |i: int|
            if chunk[i] != 0 {
                Some(local_at(i))
            } else {
                None
            },
    )
}

/// The local coordinates of the non-empty voxels of a chunk, x fastest,
/// then y, then z: the voxels a collider is built from.
pub fn solid_locals(chunk: &[u8; CHUNK_VOLUME]) -> (r: Vec<IVec3>)
    ensures
        r@.map_values(|c: IVec3| c@) == solid_locals_of(chunk@),
{
    let ghost f = |i: int|
        if chunk@[i] != 0 {
            Some(local_at(i))
        } else {
            None::<Pos>
        };
    let mut r: Vec<IVec3> = Vec::new();
    let mut i: usize = 0;
    while i < CHUNK_VOLUME
        invariant
            i <= CHUNK_VOLUME,
            chunk@.len() == CHUNK_VOLUME,
            f == (|i: int|
                if chunk@[i] != 0 {
                    Some(local_at(i))
                } else {
                    None::<Pos>
                }),
            r@.map_values(|c: IVec3| c@) == Seq::new(i as nat, |j: int| j).filter_map(f),
        decreases CHUNK_VOLUME - i,
    {
        let ghost before = r@.map_values(|c: IVec3| c@);
        let ghost s1 = Seq::new((i + 1) as nat, |j: int| j);
        proof {
            assert(s1.drop_last() =~= Seq::new(i as nat, |j: int| j));
            assert(s1.last() == i);
        }
        if chunk[i] != 0 {
            r.push(IVec3 { x: (i % 16) as i32, y: (i / 16 % 16) as i32, z: (i / 256) as i32 });
            assert(r@.map_values(|c: IVec3| c@) =~= before.push(local_at(i as int)));
            assert(f(s1.last()) == Some(local_at(i as int)));
            assert(s1.filter_map(f) == s1.drop_last().filter_map(f) + seq![local_at(i as int)]);
            assert(r@.map_values(|c: IVec3| c@) =~= s1.filter_map(f));
        } else {
            assert(r@.map_values(|c: IVec3| c@) =~= before);
            assert(f(s1.last()) == None::<Pos>);
            assert(s1.filter_map(f) == s1.drop_last().filter_map(f));
        }
        i += 1;
    }
    assert(f == (|i: int|
        if chunk@[i] != 0 {
            Some(local_at(i))
        } else {
            None::<Pos>
        }));
    r
}

} // verus!
