use voxxelmaxx::coords::{chunk_of_key, key_of, lin, split, IVec3, CHUNK_VOLUME, N};

#[test]
fn split_positive_voxel() {
    let (c, l) = split(IVec3::new(17, 5, 33));
    assert_eq!(c, IVec3::new(1, 0, 2));
    assert_eq!(l, IVec3::new(1, 5, 1));
}

#[test]
fn split_negative_voxel_floors() {
    let (c, l) = split(IVec3::new(-1, -16, -17));
    assert_eq!(c, IVec3::new(-1, -1, -2));
    assert_eq!(l, IVec3::new(15, 0, 15));
}

#[test]
fn split_extremes() {
    let (c, l) = split(IVec3::new(i32::MIN, i32::MAX, 0));
    assert_eq!(c, IVec3::new(i32::MIN / 16, i32::MAX / 16, 0));
    assert_eq!(l, IVec3::new(0, 15, 0));
}

#[test]
fn split_recombines() {
    for v in [IVec3::new(-33, 7, 100), IVec3::new(0, -1, 15), IVec3::new(16, 31, -48)] {
        let (c, l) = split(v);
        assert_eq!(c.x * N as i32 + l.x, v.x);
        assert_eq!(c.y * N as i32 + l.y, v.y);
        assert_eq!(c.z * N as i32 + l.z, v.z);
    }
}

#[test]
fn lin_layout_x_fastest() {
    assert_eq!(lin(IVec3::new(0, 0, 0)), 0);
    assert_eq!(lin(IVec3::new(1, 0, 0)), 1);
    assert_eq!(lin(IVec3::new(0, 1, 0)), 16);
    assert_eq!(lin(IVec3::new(0, 0, 1)), 256);
    assert_eq!(lin(IVec3::new(15, 15, 15)), CHUNK_VOLUME - 1);
}

#[test]
fn lin_is_a_bijection() {
    let mut seen = vec![false; CHUNK_VOLUME];
    for z in 0..16 {
        for y in 0..16 {
            for x in 0..16 {
                let i = lin(IVec3::new(x, y, z));
                assert!(!seen[i]);
                seen[i] = true;
            }
        }
    }
    assert!(seen.iter().all(|b| *b));
}

#[test]
fn chunk_keys_round_trip() {
    for c in [
        IVec3::new(0, 0, 0),
        IVec3::new(-1, 2, -3),
        IVec3::new(i32::MIN, i32::MAX, -1),
        IVec3::new(i32::MAX, i32::MIN, 0),
    ] {
        assert_eq!(chunk_of_key(key_of(c)), c);
    }
    assert_eq!(key_of(IVec3::new(-0x8000_0000, -0x8000_0000, -0x8000_0000)), 0);
    assert_eq!(key_of(IVec3::new(0, 0, 1)), (1u128 << 95) + (1u128 << 63) + (1u128 << 31) + 1);
}

#[test]
fn chunk_keys_differ() {
    assert_ne!(key_of(IVec3::new(1, 0, 0)), key_of(IVec3::new(0, 1, 0)));
    assert_ne!(key_of(IVec3::new(0, 1, 0)), key_of(IVec3::new(0, 0, 1)));
    assert_ne!(key_of(IVec3::new(-1, 0, 0)), key_of(IVec3::new(0, 0, -1)));
}
