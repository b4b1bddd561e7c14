use assets::hash::{hash_bytes, multiply_mix, FxHasher};
use assets::index_map::IndexMap;
use assets::Name;
use std::hash::Hasher;

#[test]
fn hash_bytes_known_values() {
    assert_eq!(hash_bytes(b""), 0xbc13060e2d1aac79);
    assert_eq!(hash_bytes(b"a"), 0xdfe4b1209783ba09);
    assert_eq!(hash_bytes(b"abc"), 0x800f6fadd6111505);
    assert_eq!(hash_bytes(b"abcd"), 0x5b079a5da0914541);
    assert_eq!(hash_bytes(b"abcdefgh"), 0x38bd18bea01bff12);
    assert_eq!(hash_bytes(b"librelith:stone"), 0xf51291a794b8f876);
    assert_eq!(hash_bytes(b"librelith:block/wood/oak_planks"), 0x7161551dd20e72dd);
}

#[test]
fn multiply_mix_folds_the_product() {
    assert_eq!(multiply_mix(0, 12345), 0);
    assert_eq!(multiply_mix(1, 7), 7);
    // 2^63 * 4 = 2^65: low half 0, high half 2
    assert_eq!(multiply_mix(1 << 63, 4), 2);
}

#[test]
fn hasher_state_and_finish() {
    let mut h = FxHasher::with_seed(0);
    h.write_u8(5);
    assert_eq!(h.finish(), 0x4b9fb54366d82d9a);
    let mut a = FxHasher::with_seed(0);
    a.write_u64(5);
    assert_eq!(a.finish(), h.finish());
    let mut b = FxHasher::with_seed(0);
    b.write_usize(5);
    assert_eq!(b.finish(), h.finish());
}

#[test]
fn hasher_trait_matches_inherent() {
    let mut a = FxHasher::with_seed(7);
    <FxHasher as Hasher>::write(&mut a, b"abc");
    let mut b = FxHasher::with_seed(7);
    b.write(b"abc");
    assert_eq!(<FxHasher as Hasher>::finish(&a), b.finish());
}

#[test]
fn fixed_hash_of_names() {
    let a: Name = "t:a".parse().unwrap();
    let s: Name = "librelith:stone".parse().unwrap();
    assert_eq!(IndexMap::fixed_hash_of(&a), 0x45163e3afdd5fdab);
    assert_eq!(IndexMap::fixed_hash_of(&s), 0xbe0f261f39a0bdbc);
}
