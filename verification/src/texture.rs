//! A sparse virtual texture: a fixed table of cache slots, the directory
//! from tile keys to slots, and the order in which slots were last requested.

use std::collections::VecDeque;
use vstd::prelude::*;
use crate::geometry::Vector2I;
use crate::hash_table::{is_power_of_two, TileHashTable};
use crate::tile::{TileAddress, TileDescriptor};

verus! {

#[derive(Clone, Copy, Debug, PartialEq, Eq, Structural)]
pub enum TileCacheStatus {
    Empty,
    Pending,
    Rasterized,
}

/// One physical cell of the cache.
#[derive(Clone, Copy, Debug, PartialEq, Eq, Structural)]
pub struct TileCacheEntry {
    pub address: TileAddress,
    pub descriptor: Option<TileDescriptor>,
    pub status: TileCacheStatus,
}

#[derive(Clone, Copy, Debug, PartialEq, Eq, Structural)]
pub enum RequestResult {
    CacheFull,
    CacheHit(TileAddress),
    CachePending(TileAddress),
    CacheMiss(TileAddress),
}

pub struct VirtualTexture {
    cache: TileHashTable,
    lru: VecDeque<TileAddress>,
    tiles: Vec<TileCacheEntry>,
    next_free_tile: TileAddress,
    cache_texture_size: Vector2I,
    tile_size: u32,
}

/// The side of the square that a tile takes in the cache texture: the tile
/// and a gutter of one pixel on every side.
pub open spec fn backing_size(tile_size: u32) -> int {
    tile_size + 2
}

/// How many tiles fit along `extent` pixels of the cache texture.
pub open spec fn tiles_along(extent: i32, tile_size: u32) -> int {
    extent as int / backing_size(tile_size)
}

/// The number of slots of a cache texture of the given size.
pub open spec fn capacity_of(cache_texture_size: Vector2I, tile_size: u32) -> int {
    tiles_along(cache_texture_size.x, tile_size) * tiles_along(cache_texture_size.y, tile_size)
}

/// Whether a cache can be made with these sizes: the texture has no
/// negative extent, the backing size and the number of slots fit in 32 bits
/// with the all-ones address left over, and the directory's bucket count
/// is a power of two that is at least 2.
pub open spec fn valid_configuration(
    cache_texture_size: Vector2I,
    tile_size: u32,
    initial_bucket_size: u32,
) -> bool {
    &&& cache_texture_size.x >= 0
    &&& cache_texture_size.y >= 0
    &&& backing_size(tile_size) <= u32::MAX
    &&& capacity_of(cache_texture_size, tile_size) < u32::MAX
    &&& initial_bucket_size >= 2
    &&& is_power_of_two(initial_bucket_size)
}

/// The slot at `address` when nothing is cached in it.
pub open spec fn empty_slot(address: int) -> TileCacheEntry {
    TileCacheEntry {
        address: TileAddress(address as u32),
        descriptor: None,
        status: TileCacheStatus::Empty,
    }
}

/// The index of the slot that an eviction takes: the one nearest to the
/// back of `lru` that is not pending, or -1 if every slot in `lru` is pending.
pub open spec fn last_evictable(lru: Seq<TileAddress>, slots: Seq<TileCacheEntry>) -> int
    decreases lru.len(),
{
    if lru.len() == 0 {
        -1
    } else if slots[lru.last().0 as int].status != TileCacheStatus::Pending {
        lru.len() - 1
    } else {
        last_evictable(lru.drop_last(), slots)
    }
}

/// The order that an eviction leaves behind: the slot at `victim` is gone,
/// and the pending slots that were passed over behind it follow the rest,
/// nearest to the back first. With `victim` -1 nothing is gone.
pub open spec fn lru_after_scan(lru: Seq<TileAddress>, victim: int) -> Seq<TileAddress> {
    if victim < 0 {
        lru.reverse()
    } else {
        lru.subrange(0, victim) + lru.subrange(victim + 1, lru.len() as int).reverse()
    }
}

/// The slot at `address` while the tile `key` is being rasterized for it.
pub open spec fn pending_slot(address: int, key: TileDescriptor) -> TileCacheEntry {
    TileCacheEntry {
        address: TileAddress(address as u32),
        descriptor: Some(key),
        status: TileCacheStatus::Pending,
    }
}

/// `last_evictable` is `victim` when the slot there is not pending and every slot behind it is.
proof fn lemma_last_evictable(lru: Seq<TileAddress>, slots: Seq<TileCacheEntry>, victim: int)
    requires
        -1 <= victim < lru.len(),
        forall|i: int|
            victim < i < lru.len() ==> slots[(#[trigger] lru[i]).0 as int].status
                == TileCacheStatus::Pending,
        victim >= 0 ==> slots[lru[victim].0 as int].status != TileCacheStatus::Pending,
    ensures
        last_evictable(lru, slots) == victim,
    decreases lru.len(),
{
    if lru.len() > 0 && victim < lru.len() - 1 {
        assert(lru.last() == lru[lru.len() - 1]);
        lemma_last_evictable(lru.drop_last(), slots, victim);
    }
}

/// The slot that an eviction takes is in the order of use and is not pending.
pub proof fn lemma_evictable_not_pending(lru: Seq<TileAddress>, slots: Seq<TileCacheEntry>)
    ensures
        -1 <= last_evictable(lru, slots) < lru.len(),
        last_evictable(lru, slots) >= 0 ==> slots[lru[last_evictable(lru, slots)].0 as int].status
            != TileCacheStatus::Pending,
        forall|i: int|
            last_evictable(lru, slots) < i < lru.len() ==> slots[(#[trigger] lru[i]).0 as int].status
                == TileCacheStatus::Pending,
    decreases lru.len(),
{
    if lru.len() > 0 && slots[lru.last().0 as int].status == TileCacheStatus::Pending {
        let front = lru.drop_last();
        lemma_evictable_not_pending(front, slots);
        assert forall|i: int| last_evictable(lru, slots) < i < lru.len() implies slots[(
        #[trigger] lru[i]).0 as int].status == TileCacheStatus::Pending by {
            if i < lru.len() - 1 {
                assert(front[i] == lru[i]);
            }
        }
    }
}

/// An eviction's scan keeps every address but the victim's, each once.
proof fn lemma_scan_order(lru: Seq<TileAddress>, victim: int)
    requires
        lru.no_duplicates(),
        -1 <= victim < lru.len(),
    ensures
        lru_after_scan(lru, victim).no_duplicates(),
        forall|x: TileAddress| #[trigger]
            lru_after_scan(lru, victim).contains(x) <==> lru.contains(x) && (victim < 0 || x
                != lru[victim]),
{
    let after = lru_after_scan(lru, victim);
    let len = lru.len() as int;
    let source = |i: int|
        if victim < 0 {
            len - 1 - i
        } else if i < victim {
            i
        } else {
            len - 1 - (i - victim)
        };
    assert forall|i: int| 0 <= i < after.len() implies #[trigger] after[i] == lru[source(i)] && 0
        <= source(i) < len && source(i) != victim by {}
    assert forall|i: int, j: int| 0 <= i < after.len() && 0 <= j < after.len() && i != j implies after[i]
        != after[j] by {
        assert(after[i] == lru[source(i)]);
        assert(after[j] == lru[source(j)]);
    }
    assert forall|x: TileAddress| #[trigger]
        after.contains(x) <==> lru.contains(x) && (victim < 0 || x != lru[victim]) by {
        if after.contains(x) {
            let i = choose|i: int| 0 <= i < after.len() && after[i] == x;
            assert(after[i] == lru[source(i)]);
        }
        if lru.contains(x) && (victim < 0 || x != lru[victim]) {
            let k = choose|k: int| 0 <= k < lru.len() && lru[k] == x;
            let i = if victim < 0 {
                len - 1 - k
            } else if k < victim {
                k
            } else {
                victim + (len - 1 - k)
            };
            assert(after[i] == lru[source(i)]);
            assert(after[i] == x);
        }
    }
}

/// Taking an address out of the order of use keeps every other address, each once.
proof fn lemma_removed_order(lru: Seq<TileAddress>, index: int)
    requires
        lru.no_duplicates(),
        0 <= index < lru.len(),
    ensures
        lru.remove(index).no_duplicates(),
        forall|x: TileAddress| #[trigger]
            lru.remove(index).contains(x) <==> lru.contains(x) && x != lru[index],
{
    let after = lru.remove(index);
    let source = |i: int|
        if i < index {
            i
        } else {
            i + 1
        };
    assert forall|i: int| 0 <= i < after.len() implies #[trigger] after[i] == lru[source(i)] by {}
    assert forall|i: int, j: int| 0 <= i < after.len() && 0 <= j < after.len() && i != j implies after[i]
        != after[j] by {
        assert(after[i] == lru[source(i)]);
        assert(after[j] == lru[source(j)]);
    }
    assert forall|x: TileAddress| #[trigger]
        after.contains(x) <==> lru.contains(x) && x != lru[index] by {
        if after.contains(x) {
            let i = choose|i: int| 0 <= i < after.len() && after[i] == x;
            assert(after[i] == lru[source(i)]);
        }
        if lru.contains(x) && x != lru[index] {
            let k = choose|k: int| 0 <= k < lru.len() && lru[k] == x;
            let i = if k < index {
                k
            } else {
                k - 1
            };
            assert(after[i] == lru[source(i)]);
            assert(after[i] == x);
        }
    }
}

/// Putting an address that is not in the order of use at its front, or at
/// its back, adds that address alone.
proof fn lemma_added_order(lru: Seq<TileAddress>, address: TileAddress)
    requires
        lru.no_duplicates(),
        !lru.contains(address),
    ensures
        (seq![address] + lru).no_duplicates(),
        forall|x: TileAddress| #[trigger]
            (seq![address] + lru).contains(x) <==> x == address || lru.contains(x),
        lru.push(address).no_duplicates(),
        forall|x: TileAddress| #[trigger]
            lru.push(address).contains(x) <==> x == address || lru.contains(x),
{
    let front = seq![address] + lru;
    let back = lru.push(address);
    assert forall|i: int, j: int| 0 <= i < front.len() && 0 <= j < front.len() && i != j implies front[i]
        != front[j] by {
        if i > 0 {
            assert(front[i] == lru[i - 1]);
        }
        if j > 0 {
            assert(front[j] == lru[j - 1]);
        }
    }
    assert forall|x: TileAddress| #[trigger]
        front.contains(x) <==> x == address || lru.contains(x) by {
        if front.contains(x) {
            let i = choose|i: int| 0 <= i < front.len() && front[i] == x;
            if i > 0 {
                assert(front[i] == lru[i - 1]);
            }
        }
        if x == address {
            assert(front[0] == x);
        }
        if lru.contains(x) {
            let k = choose|k: int| 0 <= k < lru.len() && lru[k] == x;
            assert(front[k + 1] == x);
        }
    }
    assert forall|x: TileAddress| #[trigger]
        back.contains(x) <==> x == address || lru.contains(x) by {
        if back.contains(x) {
            let i = choose|i: int| 0 <= i < back.len() && back[i] == x;
            if i < lru.len() {
                assert(back[i] == lru[i]);
            }
        }
        if x == address {
            assert(back[lru.len() as int] == x);
        }
        if lru.contains(x) {
            let k = choose|k: int| 0 <= k < lru.len() && lru[k] == x;
            assert(back[k] == x);
        }
    }
}

impl VirtualTexture {
    /// The directory itself, with its buckets and seeds.
    pub closed spec fn table(self) -> TileHashTable {
        self.cache
    }

    /// The directory: which key is cached at which address.
    pub open spec fn directory(self) -> Map<TileDescriptor, TileAddress> {
        self.table()@
    }

    /// The addresses in use, most recently requested first.
    pub closed spec fn lru_order(self) -> Seq<TileAddress> {
        self.lru@
    }

    /// The slot table, by address.
    pub closed spec fn slots(self) -> Seq<TileCacheEntry> {
        self.tiles@
    }

    /// The number of slots that were handed out at least once; these are the lowest addresses.
    pub closed spec fn next_unused(self) -> int {
        self.next_free_tile.0 as int
    }

    pub closed spec fn spec_tile_size(self) -> u32 {
        self.tile_size
    }

    pub closed spec fn spec_cache_texture_size(self) -> Vector2I {
        self.cache_texture_size
    }

    /// The number of buckets in each subtable of the directory.
    pub open spec fn spec_bucket_size(self) -> nat {
        self.table().spec_bucket_size()
    }

    /// The directory's own invariant.
    pub open spec fn directory_wf(self) -> bool {
        self.table().wf()
    }

    /// The number of slots.
    pub open spec fn spec_cache_size(self) -> int {
        capacity_of(self.spec_cache_texture_size(), self.spec_tile_size())
    }

    /// What holds of the sizes, the slot table and the directory at all times.
    pub open spec fn wf_slots(self) -> bool {
        &&& self.directory_wf()
        &&& self.spec_cache_texture_size().x >= 0
        &&& self.spec_cache_texture_size().y >= 0
        &&& backing_size(self.spec_tile_size()) <= u32::MAX
        &&& self.spec_cache_size() < u32::MAX
        &&& self.slots().len() == self.spec_cache_size()
        &&& 0 <= self.next_unused() <= self.spec_cache_size()
        &&& forall|a: int|
            0 <= a < self.slots().len() ==> {
                let slot = #[trigger] self.slots()[a];
                &&& slot.address.0 == a
                &&& slot.descriptor.is_some() <==> slot.status != TileCacheStatus::Empty
                &&& a >= self.next_unused() ==> slot.status == TileCacheStatus::Empty
                &&& slot.descriptor matches Some(key) ==> self.directory().contains_key(key)
                    && self.directory()[key].0 == a
            }
        &&& forall|key: TileDescriptor| #[trigger]
            self.directory().contains_key(key) ==> self.directory()[key].0 < self.slots().len()
                && self.slots()[self.directory()[key].0 as int].descriptor == Some(key)
    }

    /// What holds of the order of use while the slot at `held` is set
    /// aside: every other slot that was handed out is in it once, and is
    /// not empty.
    pub open spec fn wf_order(self, held: int) -> bool {
        &&& self.lru_order().no_duplicates()
        &&& forall|i: int|
            0 <= i < self.lru_order().len() ==> 0 <= (#[trigger] self.lru_order()[i]).0
                < self.next_unused() && self.lru_order()[i].0 != held
        &&& forall|a: int|
            0 <= a < self.next_unused() && a < self.slots().len() && a != held ==> (
            #[trigger] self.slots()[a]).status != TileCacheStatus::Empty
        &&& forall|address: TileAddress|
            address.0 < self.next_unused() && address.0 != held
                ==> #[trigger] self.lru_order().contains(address)
    }

    /// The cache's invariant. Every address is below the number of slots
    /// and is the index of its slot; a slot has a key exactly when it is not
    /// empty; the directory gives a key its address exactly when the slot at
    /// that address has the key; the slots that are not empty are those
    /// that were handed out, and each of them is once in the order of use.
    pub open spec fn wf(self) -> bool {
        self.wf_slots() && self.wf_order(-1)
    }

    /// Whether `other` has the sizes of this cache.
    pub open spec fn same_sizes(self, other: VirtualTexture) -> bool {
        &&& other.spec_tile_size() == self.spec_tile_size()
        &&& other.spec_cache_texture_size() == self.spec_cache_texture_size()
    }

    /// The index in the order of use of the slot that a miss would evict,
    /// or -1 if every slot there is pending.
    pub open spec fn victim_index(self) -> int {
        last_evictable(self.lru_order(), self.slots())
    }

    /// The address that a miss takes: the lowest one never handed out, or
    /// else that of the slot to evict, or -1 if there is neither.
    pub open spec fn free_address(self) -> int {
        if self.next_unused() < self.spec_cache_size() {
            self.next_unused()
        } else if self.victim_index() < 0 {
            -1
        } else {
            self.lru_order()[self.victim_index()].0 as int
        }
    }

    /// The order of use once a miss has looked for a free address.
    pub open spec fn lru_after_take(self) -> Seq<TileAddress> {
        if self.next_unused() < self.spec_cache_size() {
            self.lru_order()
        } else {
            lru_after_scan(self.lru_order(), self.victim_index())
        }
    }

    /// The slot table once a miss has taken its address: an evicted slot is empty.
    pub open spec fn slots_after_take(self) -> Seq<TileCacheEntry> {
        if self.next_unused() < self.spec_cache_size() || self.free_address() < 0 {
            self.slots()
        } else {
            self.slots().update(self.free_address(), empty_slot(self.free_address()))
        }
    }

    /// The directory once a miss has taken its address: the key of an evicted slot is gone.
    pub open spec fn directory_after_take(self) -> Map<TileDescriptor, TileAddress> {
        if self.next_unused() < self.spec_cache_size() || self.free_address() < 0 {
            self.directory()
        } else {
            match self.slots()[self.free_address()].descriptor {
                Some(key) => self.directory().remove(key),
                None => self.directory(),
            }
        }
    }

    /// The number of slots handed out once a miss has taken its address.
    pub open spec fn next_after_take(self) -> int {
        if self.next_unused() < self.spec_cache_size() {
            self.next_unused() + 1
        } else {
            self.next_unused()
        }
    }

    /// A cache with every slot empty, or `None` unless the sizes make a valid configuration.
    pub fn new(cache_texture_size: Vector2I, tile_size: u32, initial_bucket_size: u32) -> (texture:
        Option<VirtualTexture>)
        ensures
            texture.is_some() <==> valid_configuration(
                cache_texture_size,
                tile_size,
                initial_bucket_size,
            ),
            texture matches Some(t) ==> {
                &&& t.wf()
                &&& t.spec_cache_texture_size() == cache_texture_size
                &&& t.spec_tile_size() == tile_size
                &&& t.spec_bucket_size() == initial_bucket_size
                &&& t.directory() == Map::<TileDescriptor, TileAddress>::empty()
                &&& t.lru_order() == Seq::<TileAddress>::empty()
                &&& t.next_unused() == 0
                &&& t.slots() == Seq::new(
                    capacity_of(cache_texture_size, tile_size) as nat,
                    |a: int| empty_slot(a),
                )
            },
    {
        if cache_texture_size.x < 0 || cache_texture_size.y < 0 || tile_size > u32::MAX - 2 {
            return None;
        }
        let backing: u32 = tile_size + 2;
        let across: u32 = cache_texture_size.x as u32 / backing;
        let down: u32 = cache_texture_size.y as u32 / backing;
        assert(across * down <= u64::MAX) by (nonlinear_arith)
            requires
                across <= u32::MAX,
                down <= u32::MAX,
        ;
        let capacity: u64 = across as u64 * down as u64;
        assert(capacity == capacity_of(cache_texture_size, tile_size)) by (nonlinear_arith)
            requires
                capacity == across * down,
                across == tiles_along(cache_texture_size.x, tile_size),
                down == tiles_along(cache_texture_size.y, tile_size),
        ;
        if capacity >= u32::MAX as u64 {
            return None;
        }
        let cache = match TileHashTable::new(initial_bucket_size) {
            None => {
                return None;
            },
            Some(cache) => cache,
        };
        let cache_size: u32 = capacity as u32;
        let mut tiles: Vec<TileCacheEntry> = Vec::new();
        let mut address: u32 = 0;
        while address < cache_size
            invariant
                address <= cache_size,
                tiles@ == Seq::new(address as nat, |a: int| empty_slot(a)),
            decreases cache_size - address,
        {
            tiles.push(
                TileCacheEntry {
                    address: TileAddress(address),
                    descriptor: None,
                    status: TileCacheStatus::Empty,
                },
            );
            address = address + 1;
        }
        let texture = VirtualTexture {
            cache,
            lru: VecDeque::new(),
            tiles,
            next_free_tile: TileAddress(0),
            cache_texture_size,
            tile_size,
        };
        Some(texture)
    }

    #[inline]
    pub fn tile_size(&self) -> (size: u32)
        ensures
            size == self.spec_tile_size(),
    {
        self.tile_size
    }

    #[inline]
    pub fn tile_backing_size(&self) -> (size: u32)
        requires
            self.wf(),
        ensures
            size == backing_size(self.spec_tile_size()),
    {
        self.tile_size + 2
    }

    #[inline]
    pub fn cache_texture_size(&self) -> (size: Vector2I)
        ensures
            size == self.spec_cache_texture_size(),
    {
        self.cache_texture_size
    }

    /// The number of slots.
    #[inline]
    pub fn cache_size(&self) -> (size: u32)
        requires
            self.wf(),
        ensures
            size == self.spec_cache_size(),
    {
        self.tiles.len() as u32
    }

    fn tile_texture_tiles_across(&self) -> (across: u32)
        requires
            self.wf(),
        ensures
            across == tiles_along(self.spec_cache_texture_size().x, self.spec_tile_size()),
    {
        self.cache_texture_size.x as u32 / (self.tile_size + 2)
    }

    fn tile_texture_tiles_down(&self) -> (down: u32)
        requires
            self.wf(),
        ensures
            down == tiles_along(self.spec_cache_texture_size().y, self.spec_tile_size()),
    {
        self.cache_texture_size.y as u32 / (self.tile_size + 2)
    }

    /// The slot table, by address.
    #[inline]
    pub fn tiles(&self) -> (tiles: &[TileCacheEntry])
        ensures
            tiles@ == self.slots(),
    {
        self.tiles.as_slice()
    }

    /// The column and the row of the slot at `address` in the cache texture, in tiles.
    #[inline]
    pub fn address_to_tile_coords(&self, address: TileAddress) -> (coords: Vector2I)
        requires
            self.wf(),
            address.0 < self.spec_cache_size(),
        ensures
            coords.x == address.0 as int % tiles_along(
                self.spec_cache_texture_size().x,
                self.spec_tile_size(),
            ),
            coords.y == address.0 as int / tiles_along(
                self.spec_cache_texture_size().x,
                self.spec_tile_size(),
            ),
    {
        let tiles_across = self.tile_texture_tiles_across();
        assert(tiles_across > 0) by (nonlinear_arith)
            requires
                address.0 < tiles_across * tiles_along(
                    self.spec_cache_texture_size().y,
                    self.spec_tile_size(),
                ),
                tiles_across >= 0,
        ;
        let tiles_down = self.tile_texture_tiles_down();
        assert(address.0 / tiles_across < tiles_down) by (nonlinear_arith)
            requires
                address.0 < tiles_across * tiles_down,
                tiles_across > 0,
        ;
        Vector2I::new((address.0 % tiles_across) as i32, (address.0 / tiles_across) as i32)
    }

    /// What a request for the tile `key` makes of this cache: `after` is the
    /// cache that it leaves and `result` is its answer.
    pub open spec fn requested(
        self,
        key: TileDescriptor,
        after: VirtualTexture,
        result: RequestResult,
    ) -> bool {
        &&& after.wf()
        &&& self.same_sizes(after)
        &&& after.spec_bucket_size() >= self.spec_bucket_size()
        &&& forall|a: int|
            0 <= a < self.slots().len() && (#[trigger] self.slots()[a]).status
                == TileCacheStatus::Pending ==> after.slots()[a] == self.slots()[a]
        &&& match result {
            RequestResult::CacheFull => true,
            RequestResult::CacheHit(address) | RequestResult::CachePending(address)
            | RequestResult::CacheMiss(address) => after.lru_order()[0] == address,
        }
        &&& self.directory().contains_key(key) ==> {
            let address = self.directory()[key];
            &&& result == if self.slots()[address.0 as int].status
                == TileCacheStatus::Rasterized {
                RequestResult::CacheHit(address)
            } else {
                RequestResult::CachePending(address)
            }
            &&& after.slots() == self.slots()
            &&& after.directory() == self.directory()
            &&& after.next_unused() == self.next_unused()
            &&& after.lru_order() == seq![address] + self.lru_order().remove(
                self.lru_order().index_of(address),
            )
        }
        &&& !self.directory().contains_key(key) && self.free_address() < 0
            ==> {
            &&& result == RequestResult::CacheFull
            &&& after.slots() == self.slots()
            &&& after.directory() == self.directory()
            &&& after.next_unused() == self.next_unused()
            &&& after.lru_order() == self.lru_after_take()
        }
        &&& !self.directory().contains_key(key) && self.free_address() >= 0
            ==> {
            let address = TileAddress(self.free_address() as u32);
            &&& result == RequestResult::CacheMiss(address)
            &&& after.next_unused() == self.next_after_take()
            &&& after.slots() == self.slots_after_take().update(
                address.0 as int,
                pending_slot(address.0 as int, key),
            )
            &&& after.directory() == self.directory_after_take().insert(key, address)
            &&& after.lru_order() == seq![address] + self.lru_after_take()
        }
    }

    /// Asks for the tile `tile_descriptor`.
    ///
    /// A tile that is cached moves to the front of the order of use and is
    /// a hit if it was rasterized, else pending. Any other tile is a miss:
    /// it takes the lowest address never handed out, or else the address
    /// of the slot nearest to the back of the order of use that is not
    /// pending, which is evicted; the slot becomes pending for the tile and
    /// goes to the front of the order. The cache is full when there is no
    /// such address.
    pub fn request_tile(&mut self, tile_descriptor: TileDescriptor) -> (result: RequestResult)
        requires
            old(self).wf(),
        ensures
            old(self).requested(tile_descriptor, *final(self), result),
    {
        if let Some(tile_address) = self.cache.get(tile_descriptor) {
            let lru_index = self.lru_position(tile_address);
            proof {
                lemma_removed_order(self.lru@, lru_index as int);
                lemma_added_order(self.lru@.remove(lru_index as int), tile_address);
            }
            self.lru.remove(lru_index);
            self.lru.push_front(tile_address);
            let tile = self.tiles[tile_address.0 as usize];
            return match tile.status {
                TileCacheStatus::Rasterized => RequestResult::CacheHit(tile_address),
                _ => RequestResult::CachePending(tile_address),
            };
        }
        let tile_address = match self.get_next_free_tile() {
            None => {
                return RequestResult::CacheFull;
            },
            Some(tile_address) => tile_address,
        };
        proof {
            lemma_evictable_not_pending(old(self).lru_order(), old(self).slots());
            lemma_added_order(self.lru@, tile_address);
        }
        self.cache.insert(tile_descriptor, tile_address);
        self.tiles[tile_address.0 as usize] = TileCacheEntry {
            address: tile_address,
            descriptor: Some(tile_descriptor),
            status: TileCacheStatus::Pending,
        };
        self.lru.push_front(tile_address);
        RequestResult::CacheMiss(tile_address)
    }

    /// The place of `address` in the order of use.
    fn lru_position(&self, address: TileAddress) -> (index: usize)
        requires
            self.lru@.no_duplicates(),
            self.lru@.contains(address),
        ensures
            index < self.lru@.len(),
            self.lru@[index as int] == address,
            index == self.lru@.index_of(address),
    {
        let mut index: usize = 0;
        while index < self.lru.len() && self.lru[index] != address
            invariant
                index <= self.lru@.len(),
                forall|i: int| 0 <= i < index ==> self.lru@[i] != address,
                self.lru@.contains(address),
            decreases self.lru@.len() - index,
        {
            index = index + 1;
        }
        index
    }

    /// Takes an address for a new tile: the lowest one never handed out, or
    /// else that of the slot nearest to the back of the order of use that
    /// is not pending, which is evicted. The address is then out of the
    /// order of use and its slot is empty.
    fn get_next_free_tile(&mut self) -> (address: Option<TileAddress>)
        requires
            old(self).wf(),
        ensures
            final(self).wf_slots(),
            old(self).same_sizes(*final(self)),
            final(self).cache == old(self).cache || old(self).free_address() >= 0,
            final(self).cache.spec_bucket_size() == old(self).cache.spec_bucket_size(),
            forall|a: int|
                0 <= a < old(self).slots().len() && (#[trigger] old(self).slots()[a]).status
                    == TileCacheStatus::Pending ==> final(self).slots()[a] == old(self).slots()[a],
            final(self).lru_order() == old(self).lru_after_take(),
            final(self).slots() == old(self).slots_after_take(),
            final(self).directory() == old(self).directory_after_take(),
            match address {
                None => {
                    &&& old(self).free_address() < 0
                    &&& final(self).wf_order(-1)
                    &&& final(self).next_unused() == old(self).next_unused()
                },
                Some(taken) => {
                    &&& taken.0 == old(self).free_address()
                    &&& final(self).wf_order(taken.0 as int)
                    &&& final(self).next_unused() == old(self).next_after_take()
                    &&& taken.0 < final(self).next_unused()
                    &&& final(self).slots()[taken.0 as int] == empty_slot(taken.0 as int)
                },
            },
    {
        let tile_address = self.next_free_tile;
        let cache_size = self.cache_size();
        if tile_address.0 < cache_size {
            self.next_free_tile = TileAddress(tile_address.0 + 1);
            assert(self.slots()[tile_address.0 as int] == empty_slot(tile_address.0 as int));
            return Some(tile_address);
        }
        let ghost start = self.lru@;
        let mut pending_tile_addresses: Vec<TileAddress> = Vec::new();
        let mut candidate: Option<TileAddress> = None;
        while candidate.is_none() && self.lru.len() > 0
            invariant
                self.cache == old(self).cache,
                self.tiles == old(self).tiles,
                self.next_free_tile == old(self).next_free_tile,
                self.tile_size == old(self).tile_size,
                self.cache_texture_size == old(self).cache_texture_size,
                start == old(self).lru@,
                forall|i: int| 0 <= i < start.len() ==> (#[trigger] start[i]).0 < self.tiles@.len(),
                self.lru@.len() + pending_tile_addresses@.len() + (if candidate.is_some() {
                    1int
                } else {
                    0int
                }) == start.len(),
                self.lru@ == start.subrange(0, self.lru@.len() as int),
                pending_tile_addresses@ == Seq::new(
                    pending_tile_addresses@.len(),
                    |i: int| start[start.len() - 1 - i],
                ),
                forall|i: int|
                    start.len() - pending_tile_addresses@.len() <= i < start.len()
                        ==> self.tiles@[(#[trigger] start[i]).0 as int].status
                        == TileCacheStatus::Pending,
                candidate matches Some(found) ==> found == start[self.lru@.len() as int]
                    && self.tiles@[found.0 as int].status != TileCacheStatus::Pending,
            decreases
                    self.lru@.len() + (if candidate.is_none() {
                        1int
                    } else {
                        0int
                    }),
        {
            let ghost scanned = self.lru@;
            let ghost parked = pending_tile_addresses@;
            let popped = self.lru.pop_back();
            match popped {
                None => {},
                Some(candidate_address) => {
                    assert(candidate_address == scanned[scanned.len() - 1]);
                    assert(candidate_address == start[start.len() - 1 - parked.len()]);
                    match self.tiles[candidate_address.0 as usize].status {
                        TileCacheStatus::Pending => {
                            pending_tile_addresses.push(candidate_address);
                        },
                        _ => {
                            candidate = Some(candidate_address);
                        },
                    }
                },
            }
        }
        let ghost kept = self.lru@;
        let ghost victim: int = if candidate.is_some() {
            kept.len() as int
        } else {
            -1
        };
        proof {
            lemma_last_evictable(start, self.tiles@, victim);
        }
        let mut index: usize = 0;
        while index < pending_tile_addresses.len()
            invariant
                self.cache == old(self).cache,
                self.tiles == old(self).tiles,
                self.next_free_tile == old(self).next_free_tile,
                self.tile_size == old(self).tile_size,
                self.cache_texture_size == old(self).cache_texture_size,
                index <= pending_tile_addresses@.len(),
                self.lru@ == kept + pending_tile_addresses@.subrange(0, index as int),
            decreases pending_tile_addresses@.len() - index,
        {
            self.lru.push_back(pending_tile_addresses[index]);
            index = index + 1;
        }
        proof {
            assert(self.lru@ =~= lru_after_scan(start, victim));
            lemma_scan_order(start, victim);
        }
        let tile_address = match candidate {
            None => {
                return None;
            },
            Some(tile_address) => tile_address,
        };
        let tile = self.tiles[tile_address.0 as usize];
        match tile.descriptor {
            None => {
                assert(self.tiles@ =~= old(self).tiles@.update(
                    tile_address.0 as int,
                    empty_slot(tile_address.0 as int),
                ));
            },
            Some(evicted) => {
                self.cache.remove(evicted);
                self.tiles[tile_address.0 as usize] = TileCacheEntry {
                    address: tile_address,
                    descriptor: None,
                    status: TileCacheStatus::Empty,
                };
            },
        }
        Some(tile_address)
    }

    /// Records that the tile `tile_descriptor`, pending at `tile_address`, was rasterized.
    pub fn mark_as_rasterized(&mut self, tile_address: TileAddress, tile_descriptor: &TileDescriptor)
        requires
            old(self).wf(),
            tile_address.0 < old(self).slots().len(),
            old(self).slots()[tile_address.0 as int].descriptor == Some(*tile_descriptor),
            old(self).slots()[tile_address.0 as int].status == TileCacheStatus::Pending,
        ensures
            final(self).wf(),
            old(self).same_sizes(*final(self)),
            final(self).spec_bucket_size() == old(self).spec_bucket_size(),
            final(self).directory() == old(self).directory(),
            final(self).lru_order() == old(self).lru_order(),
            final(self).next_unused() == old(self).next_unused(),
            final(self).slots() == old(self).slots().update(
                tile_address.0 as int,
                TileCacheEntry {
                    address: tile_address,
                    descriptor: Some(*tile_descriptor),
                    status: TileCacheStatus::Rasterized,
                },
            ),
    {
        self.tiles[tile_address.0 as usize] = TileCacheEntry {
            address: tile_address,
            descriptor: Some(*tile_descriptor),
            status: TileCacheStatus::Rasterized,
        };
    }

    /// The directory, to read its buckets.
    #[inline]
    pub fn directory_table(&self) -> (table: &TileHashTable)
        requires
            self.wf(),
        ensures
            *table == self.table(),
    {
        &self.cache
    }

    /// The number of buckets in each subtable of the directory.
    #[inline]
    pub fn bucket_size(&self) -> (size: usize)
        ensures
            size == self.spec_bucket_size(),
    {
        self.cache.bucket_size()
    }
}

/// The directory and the slot table agree: the directory gives `key` the
/// address `address` exactly when the slot at `address` holds `key`, and
/// such a slot is not empty.
pub proof fn lemma_directory_matches_slots(
    texture: VirtualTexture,
    key: TileDescriptor,
    address: TileAddress,
)
    requires
        texture.wf(),
    ensures
        (texture.directory().contains_key(key) && texture.directory()[key] == address) <==> (
        address.0 < texture.slots().len() && texture.slots()[address.0 as int].descriptor == Some(
            key,
        )),
        address.0 < texture.slots().len() && texture.slots()[address.0 as int].descriptor == Some(
            key,
        ) ==> texture.slots()[address.0 as int].status != TileCacheStatus::Empty,
{
    if address.0 < texture.slots().len() {
        let slot = texture.slots()[address.0 as int];
        assert(slot.address.0 == address.0);
    }
    if texture.directory().contains_key(key) && texture.directory()[key] == address {
        assert(texture.slots()[texture.directory()[key].0 as int].descriptor == Some(key));
    }
}

/// The order of use holds the slots that are not empty and no others:
/// such a slot is in it, at one place only, and every address in it is
/// that of a slot of the cache that is not empty.
pub proof fn lemma_slots_in_order_once(texture: VirtualTexture, address: TileAddress)
    requires
        texture.wf(),
        address.0 < texture.slots().len(),
        texture.slots()[address.0 as int].status != TileCacheStatus::Empty,
    ensures
        texture.lru_order().contains(address),
        forall|i: int, j: int|
            0 <= i < texture.lru_order().len() && 0 <= j < texture.lru_order().len()
                && texture.lru_order()[i] == address && texture.lru_order()[j] == address ==> i
                == j,
        forall|i: int|
            0 <= i < texture.lru_order().len() ==> (#[trigger] texture.lru_order()[i]).0
                < texture.spec_cache_size() && texture.slots()[texture.lru_order()[i].0 as int].status
                != TileCacheStatus::Empty,
{
    let slot = texture.slots()[address.0 as int];
    assert(address.0 < texture.next_unused());
}

/// A request never evicts a pending slot: a slot that is pending before a
/// request is the same after it.
pub proof fn lemma_pending_is_kept(
    before: VirtualTexture,
    key: TileDescriptor,
    after: VirtualTexture,
    result: RequestResult,
    address: TileAddress,
)
    requires
        before.wf(),
        before.requested(key, after, result),
        address.0 < before.slots().len(),
        before.slots()[address.0 as int].status == TileCacheStatus::Pending,
    ensures
        after.slots()[address.0 as int] == before.slots()[address.0 as int],
        after.directory().contains_key(before.slots()[address.0 as int].descriptor.unwrap()),
{
    let slot = before.slots()[address.0 as int];
    assert(after.slots()[address.0 as int] == slot);
    assert(after.slots().len() == after.spec_cache_size());
    lemma_directory_matches_slots(after, slot.descriptor.unwrap(), address);
}

/// When every slot was handed out and the slot that was requested least
/// recently is not pending, a miss takes the address of that slot.
pub proof fn lemma_miss_evicts_least_recent(
    before: VirtualTexture,
    key: TileDescriptor,
    after: VirtualTexture,
    result: RequestResult,
)
    requires
        before.wf(),
        before.requested(key, after, result),
        !before.directory().contains_key(key),
        before.next_unused() == before.spec_cache_size(),
        before.lru_order().len() > 0,
        before.slots()[before.lru_order().last().0 as int].status != TileCacheStatus::Pending,
    ensures
        before.free_address() == before.lru_order().last().0,
        result == RequestResult::CacheMiss(before.lru_order().last()),
        after.lru_order() == seq![before.lru_order().last()] + before.lru_order().drop_last(),
{
    let lru = before.lru_order();
    assert(last_evictable(lru, before.slots()) == lru.len() - 1);
    let victim = lru.len() - 1;
    assert(lru.subrange(victim + 1, lru.len() as int) =~= Seq::<TileAddress>::empty());
    assert(lru.subrange(victim + 1, lru.len() as int).reverse() =~= Seq::<TileAddress>::empty());
    assert(lru_after_scan(lru, victim) =~= lru.subrange(0, victim));
}

/// The slot at `address` lies in the cache texture: its column and row
/// exist, and the square that it takes ends within the texture.
pub proof fn lemma_slot_in_texture(texture: VirtualTexture, address: int)
    requires
        texture.wf(),
        0 <= address < texture.spec_cache_size(),
    ensures
        ({
            let backing = backing_size(texture.spec_tile_size());
            let across = tiles_along(texture.spec_cache_texture_size().x, texture.spec_tile_size());
            let down = tiles_along(texture.spec_cache_texture_size().y, texture.spec_tile_size());
            let column = address % across;
            let line = address / across;
            &&& across > 0
            &&& 0 <= column < across
            &&& 0 <= line < down
            &&& 0 <= column * backing
            &&& column * backing + backing <= texture.spec_cache_texture_size().x
            &&& 0 <= line * backing
            &&& line * backing + backing <= texture.spec_cache_texture_size().y
        }),
{
    let backing = backing_size(texture.spec_tile_size());
    let across = tiles_along(texture.spec_cache_texture_size().x, texture.spec_tile_size());
    let down = tiles_along(texture.spec_cache_texture_size().y, texture.spec_tile_size());
    let column = address % across;
    let line = address / across;
    assert(across > 0 && line < down && line >= 0) by (nonlinear_arith)
        requires
            0 <= address < across * down,
            across >= 0,
            line == address / across,
    ;
    assert(0 <= column < across);
    assert((column + 1) * backing <= across * backing <= texture.spec_cache_texture_size().x)
        by (nonlinear_arith)
        requires
            0 <= column < across,
            backing > 0,
            across == texture.spec_cache_texture_size().x as int / backing,
            texture.spec_cache_texture_size().x >= 0,
    ;
    assert((line + 1) * backing <= down * backing <= texture.spec_cache_texture_size().y)
        by (nonlinear_arith)
        requires
            0 <= line < down,
            backing > 0,
            down == texture.spec_cache_texture_size().y as int / backing,
            texture.spec_cache_texture_size().y >= 0,
    ;
    assert((column + 1) * backing == column * backing + backing) by (nonlinear_arith);
    assert((line + 1) * backing == line * backing + backing) by (nonlinear_arith);
    assert(column * backing >= 0 && line * backing >= 0) by (nonlinear_arith)
        requires
            column >= 0,
            line >= 0,
            backing > 0,
    ;
}

/// A miss finds an address exactly when a slot was never handed out or
/// some slot is rasterized; the address is then one of the cache.
pub proof fn lemma_free_address(texture: VirtualTexture)
    requires
        texture.wf(),
    ensures
        texture.free_address() >= 0 <==> texture.next_unused() < texture.spec_cache_size()
            || exists|a: int|
            0 <= a < texture.slots().len() && (#[trigger] texture.slots()[a]).status
                == TileCacheStatus::Rasterized,
        texture.free_address() < texture.slots().len(),
{
    let lru = texture.lru_order();
    let slots = texture.slots();
    lemma_evictable_not_pending(lru, slots);
    let victim = texture.victim_index();
    if texture.next_unused() >= texture.spec_cache_size() {
        if victim >= 0 {
            let a = lru[victim].0 as int;
            assert(slots[a].status != TileCacheStatus::Empty);
            assert(slots[a].status == TileCacheStatus::Rasterized);
        }
        if exists|a: int|
            0 <= a < slots.len() && (#[trigger] slots[a]).status == TileCacheStatus::Rasterized {
            let a = choose|a: int|
                0 <= a < slots.len() && (#[trigger] slots[a]).status
                    == TileCacheStatus::Rasterized;
            let address = TileAddress(a as u32);
            assert(slots[a].address.0 == a);
            assert(lru.contains(address));
            let i = choose|i: int| 0 <= i < lru.len() && lru[i] == address;
            assert(slots[lru[i].0 as int].status != TileCacheStatus::Pending);
            assert(i <= victim);
        }
    }
}

} // verus!
