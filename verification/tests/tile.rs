use virtex::geometry::Vector2I;
use virtex::tile::{TileAddress, TileDescriptor};

#[test]
fn key_layout_is_y_x_lod() {
    assert_eq!(TileDescriptor::new(Vector2I::new(0, 0), 0).0, 0);
    assert_eq!(TileDescriptor::new(Vector2I::new(1, 0), 0).0, 1 << 6);
    assert_eq!(TileDescriptor::new(Vector2I::new(0, 1), 0).0, 1 << 19);
    assert_eq!(TileDescriptor::new(Vector2I::new(0, 0), 1).0, 1);
    assert_eq!(TileDescriptor::new(Vector2I::new(0, 0), -1).0, 0x3f);
    assert_eq!(TileDescriptor::new(Vector2I::new(5, 5), 2).0, 2621762);
    assert_eq!(TileDescriptor::new(Vector2I::new(17, 42), -3).0, 0x0150_047d);
}

#[test]
fn key_layout_at_the_limits() {
    assert_eq!(TileDescriptor::new(Vector2I::new(8191, 8191), 31).0, 4294967263);
    assert_eq!(TileDescriptor::new(Vector2I::new(8191, 8191), -32).0, 4294967264);
    assert_eq!(TileDescriptor(u32::MAX).tile_position(), Vector2I::new(8191, 8191));
    assert_eq!(TileDescriptor(u32::MAX).lod(), -1);
    assert_eq!(TileDescriptor(0x20).lod(), -32);
    assert_eq!(TileDescriptor(0x1f).lod(), 31);
}

#[test]
fn key_round_trip_over_a_grid() {
    let coordinates = [0, 1, 2, 63, 64, 1000, 4095, 4096, 8190, 8191];
    for &x in coordinates.iter() {
        for &y in coordinates.iter() {
            for lod in -32i8..32 {
                let descriptor = TileDescriptor::new(Vector2I::new(x, y), lod);
                assert_eq!(descriptor.tile_position(), Vector2I::new(x, y));
                assert_eq!(descriptor.lod(), lod);
            }
        }
    }
}

#[test]
fn distinct_tiles_have_distinct_keys() {
    let a = TileDescriptor::new(Vector2I::new(3, 4), 0);
    let b = TileDescriptor::new(Vector2I::new(4, 3), 0);
    let c = TileDescriptor::new(Vector2I::new(3, 4), 1);
    assert_ne!(a, b);
    assert_ne!(a, c);
    assert_eq!(a, TileDescriptor::new(Vector2I::new(3, 4), 0));
}

#[test]
fn hash_of_a_known_key() {
    let descriptor = TileDescriptor::new(Vector2I::new(17, 42), -3);
    assert_eq!(descriptor.hash(0x00C0_FFEE), 0x6ca4_3dc8);
}

#[test]
fn hash_of_small_keys() {
    assert_eq!(TileDescriptor(0).hash(0), 0);
    assert_eq!(TileDescriptor(1).hash(0), 0x514e_28b7);
    assert_eq!(TileDescriptor(u32::MAX).hash(0x1234_5678), 0x93c5_3941);
}

#[test]
fn hash_seed_is_mixed_in_by_xor() {
    let descriptor = TileDescriptor(0x0150_047d);
    let unseeded = descriptor.hash(0);
    for seed in [1u32, 0xffff_ffff, 0x8000_0000, 0xdead_beef] {
        assert_eq!(descriptor.hash(seed), unseeded ^ seed);
    }
}

fn shader_hash(key: u32, seed: u32) -> u32 {
    let mut h = key as u64;
    h ^= h >> 16;
    h = (h * 0x85eb_ca6b) & 0xffff_ffff;
    h ^= h >> 13;
    h = (h * 0xc2b2_ae35) & 0xffff_ffff;
    h ^= h >> 16;
    (h as u32) ^ seed
}

#[test]
fn hash_agrees_with_a_wide_integer_transliteration() {
    let mut state: u32 = 0x2545_f491;
    for _ in 0..10_000 {
        state ^= state << 13;
        state ^= state >> 17;
        state ^= state << 5;
        let key = state;
        state ^= state << 13;
        state ^= state >> 17;
        state ^= state << 5;
        let seed = state;
        assert_eq!(TileDescriptor(key).hash(seed), shader_hash(key, seed));
    }
}

#[test]
fn addresses_compare_by_value() {
    assert_eq!(TileAddress(7), TileAddress(7));
    assert_ne!(TileAddress(7), TileAddress(8));
}
