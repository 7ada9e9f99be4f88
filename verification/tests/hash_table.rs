use virtex::hash_table::{TileHashInsertResult, TileHashSubtable, TileHashSubinsertResult, TileHashTable};
use virtex::tile::{TileAddress, TileDescriptor};

fn check_tile_hash(entries_to_insert: Vec<(u32, u32)>, seeds: (u32, u32), initial_bucket_size: u32) {
    if (initial_bucket_size as usize) < entries_to_insert.len() * 2 {
        return;
    }
    // A bucket count must be a power of two that is at least 2: round up,
    // and keep the tables small enough to allocate.
    let initial_bucket_size = initial_bucket_size.clamp(2, 1 << 16).next_power_of_two();
    let mut tile_hash_table =
        TileHashTable::with_seeds([seeds.0, seeds.1], initial_bucket_size).unwrap();
    for &(tile_descriptor, tile_address) in &entries_to_insert {
        tile_hash_table.insert(TileDescriptor(tile_descriptor), TileAddress(tile_address));
    }
    for &(tile_descriptor, _) in &entries_to_insert {
        assert!(tile_hash_table.get(TileDescriptor(tile_descriptor)).is_some());
    }
}

#[test]
fn test_tile_hash() {
    quickcheck::quickcheck(check_tile_hash as fn(Vec<(u32, u32)>, (u32, u32), u32));
}

fn check_round_trip(entries_to_insert: Vec<(u32, u32)>, seeds: (u32, u32), size_log: u8) {
    let initial_bucket_size = 1u32 << (1 + size_log % 8);
    let mut table = TileHashTable::with_seeds([seeds.0, seeds.1], initial_bucket_size).unwrap();
    let mut expected = std::collections::BTreeMap::new();
    for &(key, address) in &entries_to_insert {
        let result = table.insert(TileDescriptor(key), TileAddress(address));
        let previous = expected.insert(key, address);
        if previous.is_some() {
            assert_eq!(result, TileHashInsertResult::Replaced);
        } else {
            assert_eq!(result, TileHashInsertResult::Inserted);
        }
        assert!(table.bucket_size().is_power_of_two());
    }
    for (&key, &address) in &expected {
        assert_eq!(table.get(TileDescriptor(key)), Some(TileAddress(address)));
    }
    for &(key, _) in &entries_to_insert {
        let absent = key.wrapping_add(0x9e37_79b9);
        if !expected.contains_key(&absent) {
            assert_eq!(table.get(TileDescriptor(absent)), None);
        }
    }
}

#[test]
fn directory_round_trip() {
    quickcheck::quickcheck(check_round_trip as fn(Vec<(u32, u32)>, (u32, u32), u8));
}

#[test]
fn constructor_rejects_bad_bucket_counts() {
    assert!(TileHashTable::with_seeds([1, 2], 0).is_none());
    assert!(TileHashTable::with_seeds([1, 2], 1).is_none());
    assert!(TileHashTable::with_seeds([1, 2], 3).is_none());
    assert!(TileHashTable::with_seeds([1, 2], 12).is_none());
    assert!(TileHashTable::with_seeds([1, 2], u32::MAX).is_none());
    assert!(TileHashTable::new(0).is_none());
    assert!(TileHashTable::new(6).is_none());
    assert!(TileHashTable::with_seeds([1, 2], 2).is_some());
    assert!(TileHashTable::with_seeds([1, 2], 64).is_some());
    assert_eq!(TileHashTable::new(8).unwrap().bucket_size(), 8);
}

#[test]
fn random_seeds_do_not_change_what_is_stored() {
    for _ in 0..20 {
        let mut table = TileHashTable::new(4).unwrap();
        for key in 0..100u32 {
            table.insert(TileDescriptor(key * 7919), TileAddress(key));
        }
        for key in 0..100u32 {
            assert_eq!(table.get(TileDescriptor(key * 7919)), Some(TileAddress(key)));
        }
    }
}

#[test]
fn second_insert_of_a_key_wins() {
    let mut table = TileHashTable::with_seeds([11, 22], 8).unwrap();
    let key = TileDescriptor(12345);
    assert_eq!(table.insert(key, TileAddress(1)), TileHashInsertResult::Inserted);
    assert_eq!(table.insert(key, TileAddress(2)), TileHashInsertResult::Replaced);
    assert_eq!(table.get(key), Some(TileAddress(2)));
}

#[test]
fn remove_returns_the_address_and_forgets_the_key() {
    let mut table = TileHashTable::with_seeds([5, 6], 8).unwrap();
    for key in 0..6u32 {
        table.insert(TileDescriptor(key), TileAddress(100 + key));
    }
    assert_eq!(table.remove(TileDescriptor(3)), Some(TileAddress(103)));
    assert_eq!(table.get(TileDescriptor(3)), None);
    assert_eq!(table.remove(TileDescriptor(3)), None);
    for key in [0u32, 1, 2, 4, 5] {
        assert_eq!(table.get(TileDescriptor(key)), Some(TileAddress(100 + key)));
    }
}

#[test]
fn get_on_an_empty_directory_is_none() {
    let table = TileHashTable::with_seeds([0, 0], 2).unwrap();
    assert_eq!(table.get(TileDescriptor(0)), None);
    assert_eq!(table.get(TileDescriptor(u32::MAX)), None);
}

#[test]
fn cuckoo_growth_keeps_every_entry() {
    let mut table = TileHashTable::with_seeds([0x1234, 0x5678], 8).unwrap();
    for key in 0..64u32 {
        assert_eq!(
            table.insert(TileDescriptor(key << 6), TileAddress(key)),
            TileHashInsertResult::Inserted
        );
    }
    for key in 0..64u32 {
        assert_eq!(table.get(TileDescriptor(key << 6)), Some(TileAddress(key)));
    }
    assert!(table.bucket_size() >= 32);
    assert!(table.bucket_size().is_power_of_two());
}

#[test]
fn rebuild_keeps_every_entry() {
    let mut table = TileHashTable::with_seeds([3, 4], 4).unwrap();
    for key in 0..5u32 {
        table.insert(TileDescriptor(key), TileAddress(key + 10));
    }
    let before = table.bucket_size() as u32;
    table.rebuild(before * 4);
    assert!(table.bucket_size() as u32 >= before * 4);
    assert!(table.bucket_size().is_power_of_two());
    for key in 0..5u32 {
        assert_eq!(table.get(TileDescriptor(key)), Some(TileAddress(key + 10)));
    }
}

#[test]
fn every_entry_sits_in_the_bucket_of_its_key() {
    let mut table = TileHashTable::with_seeds([77, 99], 16).unwrap();
    for key in 0..40u32 {
        table.insert(TileDescriptor(key * 31), TileAddress(key));
    }
    let mut found = 0;
    for side in 0..2 {
        let subtable = table.subtable(side);
        for index in 0..subtable.bucket_size() {
            if let Some(entry) = subtable.bucket(index) {
                let hash = entry.descriptor.hash(subtable.seed());
                assert_eq!(hash as usize % subtable.bucket_size(), index);
                found += 1;
            }
        }
    }
    assert_eq!(found, 40);
}

#[test]
fn subtable_insert_reports_what_the_bucket_held() {
    let mut subtable = TileHashSubtable::new(0, 1);
    let first = TileDescriptor(1);
    let second = TileDescriptor(2);
    assert_eq!(subtable.get(first), None);
    assert_eq!(subtable.insert(first, TileAddress(10)), TileHashSubinsertResult::Inserted);
    assert_eq!(subtable.insert(first, TileAddress(11)), TileHashSubinsertResult::Replaced);
    assert_eq!(subtable.get(first), Some(TileAddress(11)));
    match subtable.insert(second, TileAddress(20)) {
        TileHashSubinsertResult::Ejected(entry) => {
            assert_eq!(entry.descriptor, first);
            assert_eq!(entry.address, TileAddress(11));
        }
        other => panic!("expected an ejection, got {:?}", other),
    }
    assert_eq!(subtable.get(first), None);
    assert_eq!(subtable.remove(first), None);
    assert_eq!(subtable.remove(second), Some(TileAddress(20)));
    assert_eq!(subtable.get(second), None);
}

fn buckets_of(table: &TileHashTable) -> Vec<Option<(u32, u32)>> {
    let mut buckets = vec![];
    for side in 0..2 {
        let subtable = table.subtable(side);
        for index in 0..subtable.bucket_size() {
            buckets.push(subtable.bucket(index).map(|entry| (entry.descriptor.0, entry.address.0)));
        }
    }
    buckets
}

#[test]
fn rebuild_with_seeds_takes_the_seeds_and_the_size() {
    let mut table = TileHashTable::with_seeds([3, 4], 4).unwrap();
    for key in 0..3u32 {
        table.insert(TileDescriptor(key * 1000), TileAddress(key + 10));
    }
    assert!(table.rebuild_with_seeds([9, 10], 32));
    assert_eq!(table.bucket_size(), 32);
    assert_eq!(table.subtable(0).seed(), 9);
    assert_eq!(table.subtable(1).seed(), 10);
    for key in 0..3u32 {
        assert_eq!(table.get(TileDescriptor(key * 1000)), Some(TileAddress(key + 10)));
    }
    let occupied = buckets_of(&table).iter().filter(|bucket| bucket.is_some()).count();
    assert_eq!(occupied, 3);
}

#[test]
fn rebuild_with_seeds_places_entries_in_order() {
    // With the seed 0 on both sides and two buckets, keys with an even hash
    // all go to bucket 0 of either subtable.
    let even: Vec<u32> = (0..200u32).filter(|&key| TileDescriptor(key).hash(0) % 2 == 0).collect();
    let mut table = TileHashTable::with_seeds([0, 0], 2).unwrap();
    // A single key sits in subtable A.
    assert_eq!(table.insert(TileDescriptor(even[0]), TileAddress(1)), TileHashInsertResult::Inserted);
    assert_eq!(buckets_of(&table), vec![Some((even[0], 1)), None, None, None]);
    // The second key takes its bucket and drives the first into subtable B.
    assert_eq!(table.insert(TileDescriptor(even[1]), TileAddress(2)), TileHashInsertResult::Inserted);
    assert_eq!(buckets_of(&table), vec![Some((even[1], 2)), None, Some((even[0], 1)), None]);
    // Rebuilt with the same seeds and size, subtable A is emptied first:
    // its key is placed, and the key of subtable B drives it out again.
    assert!(table.rebuild_with_seeds([0, 0], 2));
    assert_eq!(buckets_of(&table), vec![Some((even[0], 1)), None, Some((even[1], 2)), None]);
}

#[test]
fn rebuild_with_seeds_fails_when_an_entry_finds_no_bucket() {
    let even: Vec<u32> = (0..200u32).filter(|&key| TileDescriptor(key).hash(0) % 2 == 0).collect();
    let mut table = TileHashTable::with_seeds([1, 2], 8).unwrap();
    for (index, &key) in even.iter().take(3).enumerate() {
        table.insert(TileDescriptor(key), TileAddress(index as u32));
    }
    let before = buckets_of(&table);
    // Three keys for the same bucket on both sides, and two buckets in all.
    assert!(!table.rebuild_with_seeds([0, 0], 2));
    assert_eq!(buckets_of(&table), before);
    assert_eq!(table.bucket_size(), 8);
    assert_eq!(table.subtable(0).seed(), 1);
    for (index, &key) in even.iter().take(3).enumerate() {
        assert_eq!(table.get(TileDescriptor(key)), Some(TileAddress(index as u32)));
    }
    // Two of them fit.
    table.remove(TileDescriptor(even[2]));
    assert!(table.rebuild_with_seeds([0, 0], 2));
    assert_eq!(table.bucket_size(), 2);
}

#[test]
fn rebuild_takes_any_power_of_two() {
    for _ in 0..20 {
        let mut table = TileHashTable::new(16).unwrap();
        for key in 0..12u32 {
            table.insert(TileDescriptor(key * 97), TileAddress(key));
        }
        // Smaller than before: the directory grows again as far as it must.
        table.rebuild(2);
        assert!(table.bucket_size() >= 2);
        assert!(table.bucket_size().is_power_of_two());
        assert!(2 * table.bucket_size() >= 12);
        for key in 0..12u32 {
            assert_eq!(table.get(TileDescriptor(key * 97)), Some(TileAddress(key)));
        }
        assert_eq!(table.get(TileDescriptor(5)), None);
    }
    let mut empty = TileHashTable::new(2).unwrap();
    empty.rebuild(8);
    assert_eq!(empty.bucket_size(), 8);
}

#[test]
fn sixty_four_keys_in_order() {
    let mut table = TileHashTable::with_seeds([1, 2], 8).unwrap();
    for key in 0..64u32 {
        assert_eq!(
            table.insert(TileDescriptor(key), TileAddress(key)),
            TileHashInsertResult::Inserted
        );
    }
    for key in 0..64u32 {
        assert_eq!(table.get(TileDescriptor(key)), Some(TileAddress(key)));
    }
    assert_eq!(table.get(TileDescriptor(64)), None);
    assert!(table.bucket_size() >= 32);
}

#[test]
fn descriptors_are_ordered_by_their_key() {
    assert!(TileDescriptor(1) < TileDescriptor(2));
    assert!(TileDescriptor(u32::MAX) > TileDescriptor(0));
    let mut keys = vec![TileDescriptor(3), TileDescriptor(1), TileDescriptor(2)];
    keys.sort();
    assert_eq!(keys, vec![TileDescriptor(1), TileDescriptor(2), TileDescriptor(3)]);
}

#[test]
fn insertion_after_a_failed_chain_grows_the_directory() {
    let even: Vec<u32> = (0..200u32).filter(|&key| TileDescriptor(key).hash(0) % 2 == 0).collect();
    let mut table = TileHashTable::with_seeds([0, 0], 2).unwrap();
    for (index, &key) in even.iter().take(3).enumerate() {
        assert_eq!(
            table.insert(TileDescriptor(key), TileAddress(index as u32)),
            TileHashInsertResult::Inserted
        );
    }
    assert!(table.bucket_size() >= 4);
    for (index, &key) in even.iter().take(3).enumerate() {
        assert_eq!(table.get(TileDescriptor(key)), Some(TileAddress(index as u32)));
    }
}
