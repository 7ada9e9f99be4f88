use virtex::geometry::Vector2I;
use virtex::texture::{RequestResult, TileCacheStatus, VirtualTexture};
use virtex::tile::{TileAddress, TileDescriptor};

fn key(x: i32, y: i32, lod: i8) -> TileDescriptor {
    TileDescriptor::new(Vector2I::new(x, y), lod)
}

fn cache(tiles_across: i32, tiles_down: i32, tile_size: u32) -> VirtualTexture {
    let backing = tile_size as i32 + 2;
    VirtualTexture::new(Vector2I::new(tiles_across * backing, tiles_down * backing), tile_size, 64)
        .unwrap()
}

fn check_invariants(texture: &VirtualTexture, keys: &[TileDescriptor]) {
    let tiles = texture.tiles();
    assert_eq!(tiles.len() as u32, texture.cache_size());
    for (index, tile) in tiles.iter().enumerate() {
        assert_eq!(tile.address, TileAddress(index as u32));
        assert_eq!(tile.descriptor.is_some(), tile.status != TileCacheStatus::Empty);
    }
    for &k in keys {
        let holders: Vec<_> = tiles.iter().filter(|tile| tile.descriptor == Some(k)).collect();
        assert!(holders.len() <= 1);
    }
}

#[test]
fn single_hit() {
    let mut texture = cache(4, 4, 256);
    let k = key(0, 0, 0);
    let address = match texture.request_tile(k) {
        RequestResult::CacheMiss(address) => address,
        other => panic!("expected a miss, got {:?}", other),
    };
    assert_eq!(address, TileAddress(0));
    assert_eq!(texture.request_tile(k), RequestResult::CachePending(address));
    texture.mark_as_rasterized(address, &k);
    assert_eq!(texture.request_tile(k), RequestResult::CacheHit(address));
    check_invariants(&texture, &[k]);
}

#[test]
fn eviction_takes_the_least_recently_requested() {
    let mut texture = cache(2, 1, 256);
    assert_eq!(texture.cache_size(), 2);
    let a = key(0, 0, 0);
    let b = key(1, 0, 0);
    let c = key(2, 0, 0);
    assert_eq!(texture.request_tile(a), RequestResult::CacheMiss(TileAddress(0)));
    assert_eq!(texture.request_tile(b), RequestResult::CacheMiss(TileAddress(1)));
    texture.mark_as_rasterized(TileAddress(0), &a);
    texture.mark_as_rasterized(TileAddress(1), &b);
    assert_eq!(texture.request_tile(c), RequestResult::CacheMiss(TileAddress(0)));
    assert_eq!(texture.tiles()[0].descriptor, Some(c));
    assert_eq!(texture.tiles()[0].status, TileCacheStatus::Pending);
    assert_eq!(texture.request_tile(b), RequestResult::CacheHit(TileAddress(1)));
    // The slot of `c` is pending, so the one of `b` goes, though it was requested last.
    assert_eq!(texture.request_tile(a), RequestResult::CacheMiss(TileAddress(1)));
    assert_eq!(texture.request_tile(b), RequestResult::CacheFull);
    check_invariants(&texture, &[a, b, c]);
}

#[test]
fn a_hit_protects_a_slot_from_the_next_eviction() {
    let mut texture = cache(2, 1, 256);
    let a = key(0, 0, 0);
    let b = key(1, 0, 0);
    let c = key(2, 0, 0);
    texture.request_tile(a);
    texture.request_tile(b);
    texture.mark_as_rasterized(TileAddress(0), &a);
    texture.mark_as_rasterized(TileAddress(1), &b);
    assert_eq!(texture.request_tile(a), RequestResult::CacheHit(TileAddress(0)));
    assert_eq!(texture.request_tile(c), RequestResult::CacheMiss(TileAddress(1)));
    assert_eq!(texture.request_tile(a), RequestResult::CacheHit(TileAddress(0)));
}

#[test]
fn pending_slots_are_not_evicted() {
    let mut texture = cache(1, 1, 256);
    assert_eq!(texture.cache_size(), 1);
    let a = key(0, 0, 0);
    let b = key(1, 0, 0);
    assert_eq!(texture.request_tile(a), RequestResult::CacheMiss(TileAddress(0)));
    assert_eq!(texture.request_tile(b), RequestResult::CacheFull);
    assert_eq!(texture.tiles()[0].descriptor, Some(a));
    assert_eq!(texture.tiles()[0].status, TileCacheStatus::Pending);
    assert_eq!(texture.request_tile(a), RequestResult::CachePending(TileAddress(0)));
    texture.mark_as_rasterized(TileAddress(0), &a);
    assert_eq!(texture.request_tile(b), RequestResult::CacheMiss(TileAddress(0)));
    assert_eq!(texture.request_tile(a), RequestResult::CacheFull);
}

#[test]
fn eviction_passes_over_pending_slots() {
    let mut texture = cache(3, 1, 256);
    let a = key(0, 0, 0);
    let b = key(1, 0, 0);
    let c = key(2, 0, 0);
    let d = key(3, 0, 0);
    let e = key(4, 0, 0);
    texture.request_tile(a);
    texture.request_tile(b);
    texture.request_tile(c);
    texture.mark_as_rasterized(TileAddress(1), &b);
    texture.mark_as_rasterized(TileAddress(2), &c);
    // Least recent first: a (pending), b, c.
    assert_eq!(texture.request_tile(d), RequestResult::CacheMiss(TileAddress(1)));
    assert_eq!(texture.request_tile(e), RequestResult::CacheMiss(TileAddress(2)));
    assert_eq!(texture.request_tile(a), RequestResult::CachePending(TileAddress(0)));
    assert_eq!(texture.request_tile(b), RequestResult::CacheFull);
    check_invariants(&texture, &[a, b, c, d, e]);
}

#[test]
fn cache_capacity_fill_then_evict() {
    let n = 6u32;
    let mut texture = cache(3, 2, 64);
    assert_eq!(texture.cache_size(), n);
    let keys: Vec<_> = (0..n as i32 + 2).map(|x| key(x, 1, 0)).collect();
    for i in 0..n {
        assert_eq!(
            texture.request_tile(keys[i as usize]),
            RequestResult::CacheMiss(TileAddress(i))
        );
    }
    assert_eq!(texture.request_tile(keys[n as usize]), RequestResult::CacheFull);
    for i in 0..n {
        texture.mark_as_rasterized(TileAddress(i), &keys[i as usize]);
    }
    for i in 0..n {
        assert_eq!(
            texture.request_tile(keys[i as usize]),
            RequestResult::CacheHit(TileAddress(i))
        );
    }
    assert_eq!(texture.request_tile(keys[n as usize]), RequestResult::CacheMiss(TileAddress(0)));
    assert_eq!(
        texture.request_tile(keys[n as usize + 1]),
        RequestResult::CacheMiss(TileAddress(1))
    );
    assert_eq!(texture.request_tile(keys[0]), RequestResult::CacheMiss(TileAddress(2)));
    check_invariants(&texture, &keys);
}

#[test]
fn sizes_and_coordinates() {
    let texture = cache(4, 3, 256);
    assert_eq!(texture.tile_size(), 256);
    assert_eq!(texture.tile_backing_size(), 258);
    assert_eq!(texture.cache_texture_size(), Vector2I::new(4 * 258, 3 * 258));
    assert_eq!(texture.cache_size(), 12);
    assert_eq!(texture.bucket_size(), 64);
    assert_eq!(texture.address_to_tile_coords(TileAddress(0)), Vector2I::new(0, 0));
    assert_eq!(texture.address_to_tile_coords(TileAddress(3)), Vector2I::new(3, 0));
    assert_eq!(texture.address_to_tile_coords(TileAddress(4)), Vector2I::new(0, 1));
    assert_eq!(texture.address_to_tile_coords(TileAddress(11)), Vector2I::new(3, 2));
}

#[test]
fn capacity_rounds_down() {
    let texture = VirtualTexture::new(Vector2I::new(1000, 600), 256, 8).unwrap();
    assert_eq!(texture.cache_size(), 3 * 2);
    let texture = VirtualTexture::new(Vector2I::new(257, 257), 256, 8).unwrap();
    assert_eq!(texture.cache_size(), 0);
}

#[test]
fn a_cache_without_slots_is_always_full() {
    let mut texture = VirtualTexture::new(Vector2I::new(10, 10), 256, 8).unwrap();
    assert_eq!(texture.request_tile(key(0, 0, 0)), RequestResult::CacheFull);
}

#[test]
fn constructor_rejects_invalid_configurations() {
    assert!(VirtualTexture::new(Vector2I::new(1032, 1032), 256, 0).is_none());
    assert!(VirtualTexture::new(Vector2I::new(1032, 1032), 256, 3).is_none());
    assert!(VirtualTexture::new(Vector2I::new(-1, 1032), 256, 64).is_none());
    assert!(VirtualTexture::new(Vector2I::new(1032, -1), 256, 64).is_none());
    assert!(VirtualTexture::new(Vector2I::new(1032, 1032), u32::MAX, 64).is_none());
    assert!(VirtualTexture::new(Vector2I::new(1032, 1032), u32::MAX - 1, 64).is_none());
    assert!(VirtualTexture::new(Vector2I::new(1032, 1032), 256, 64).is_some());
}

#[test]
fn new_cache_is_empty() {
    let texture = cache(2, 2, 16);
    for (index, tile) in texture.tiles().iter().enumerate() {
        assert_eq!(tile.address, TileAddress(index as u32));
        assert_eq!(tile.descriptor, None);
        assert_eq!(tile.status, TileCacheStatus::Empty);
    }
}

#[test]
fn directory_grows_under_many_tiles() {
    let mut texture = VirtualTexture::new(Vector2I::new(18 * 16, 18 * 16), 16, 2).unwrap();
    assert_eq!(texture.cache_size(), 256);
    let mut keys = vec![];
    for y in 0..16 {
        for x in 0..16 {
            keys.push(key(x, y, 1));
        }
    }
    for (index, &k) in keys.iter().enumerate() {
        assert_eq!(texture.request_tile(k), RequestResult::CacheMiss(TileAddress(index as u32)));
    }
    for (index, &k) in keys.iter().enumerate() {
        assert_eq!(texture.request_tile(k), RequestResult::CachePending(TileAddress(index as u32)));
    }
    assert!(texture.bucket_size() > 2);
    check_invariants(&texture, &keys);
}
