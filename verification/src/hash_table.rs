//! The tile directory: a cuckoo hash table from tile keys to cache addresses.
//!
//! Two subtables of equal size, each hashing with a seed of its own. A key
//! lives in at most one of them, in the bucket that the subtable's hash
//! gives it. When a new key finds no home after a bounded chain of
//! displacements, the table is rebuilt with twice the buckets and new seeds.

use vstd::prelude::*;
use crate::tile::{hash_key, TileAddress, TileDescriptor};

verus! {

/// The largest bucket count of a subtable: the largest power of two in 32 bits.
pub const MAX_BUCKET_SIZE: u32 = 0x8000_0000;

/// Whether `n` is a power of two.
pub open spec fn is_power_of_two(n: u32) -> bool {
    n > 0 && n & ((n - 1) as u32) == 0
}

#[derive(Clone, Copy, Debug, PartialEq, Eq, Structural)]
pub struct TileHashEntry {
    pub descriptor: TileDescriptor,
    pub address: TileAddress,
}

/// What became of an entry handed to a subtable.
#[derive(Clone, Copy, Debug, PartialEq, Eq, Structural)]
pub enum TileHashSubinsertResult {
    /// The bucket was empty.
    Inserted,
    /// The bucket held the same key; its address was overwritten.
    Replaced,
    /// The bucket held this entry of another key, which has lost its place.
    Ejected(TileHashEntry),
}

pub struct TileHashSubtable {
    buckets: Vec<Option<TileHashEntry>>,
    seed: u32,
}

impl TileHashSubtable {
    /// The buckets, in order.
    pub closed spec fn slots(self) -> Seq<Option<TileHashEntry>> {
        self.buckets@
    }

    /// The seed that this subtable hashes with.
    pub closed spec fn spec_seed(self) -> u32 {
        self.seed
    }

    /// The bucket that `key` hashes to.
    pub open spec fn bucket_of(self, key: TileDescriptor) -> int {
        hash_key(key.0, self.spec_seed()) as int % self.slots().len() as int
    }

    /// There is at least one bucket, and every entry sits in the bucket of its key.
    pub open spec fn wf(self) -> bool {
        &&& 0 < self.slots().len() <= u32::MAX
        &&& forall|i: int|
            0 <= i < self.slots().len() ==> match #[trigger] self.slots()[i] {
                Some(entry) => self.bucket_of(entry.descriptor) == i,
                None => true,
            }
    }

    /// Whether the bucket of `key` holds `key`.
    pub open spec fn holds(self, key: TileDescriptor) -> bool {
        match self.slots()[self.bucket_of(key)] {
            Some(entry) => entry.descriptor == key,
            None => false,
        }
    }

    /// The address stored in the bucket of `key`.
    pub open spec fn address_of(self, key: TileDescriptor) -> TileAddress {
        self.slots()[self.bucket_of(key)].unwrap().address
    }

    /// The keys held, each with its address.
    pub open spec fn view(self) -> Map<TileDescriptor, TileAddress> {
        Map::new(|key: TileDescriptor| self.holds(key), |key: TileDescriptor| self.address_of(key))
    }

    /// A subtable of `bucket_size` empty buckets.
    pub fn new(seed: u32, bucket_size: u32) -> (subtable: TileHashSubtable)
        requires
            bucket_size > 0,
        ensures
            subtable.wf(),
            subtable.spec_seed() == seed,
            subtable.slots() == Seq::new(bucket_size as nat, |i: int| None::<TileHashEntry>),
    {
        let mut buckets: Vec<Option<TileHashEntry>> = Vec::new();
        let mut count: u32 = 0;
        while count < bucket_size
            invariant
                count <= bucket_size,
                buckets@ == Seq::new(count as nat, |i: int| None::<TileHashEntry>),
            decreases bucket_size - count,
        {
            buckets.push(None);
            count = count + 1;
        }
        TileHashSubtable { buckets, seed }
    }

    /// The seed that this subtable hashes with.
    #[inline]
    pub fn seed(&self) -> (seed: u32)
        ensures
            seed == self.spec_seed(),
    {
        self.seed
    }

    /// The number of buckets.
    #[inline]
    pub fn bucket_size(&self) -> (size: usize)
        ensures
            size == self.slots().len(),
    {
        self.buckets.len()
    }

    /// The content of bucket `index`.
    #[inline]
    pub fn bucket(&self, index: usize) -> (entry: Option<TileHashEntry>)
        requires
            index < self.slots().len(),
        ensures
            entry == self.slots()[index as int],
    {
        self.buckets[index]
    }

    fn bucket_index(&self, descriptor: TileDescriptor) -> (index: usize)
        requires
            self.wf(),
        ensures
            index == self.bucket_of(descriptor),
            index < self.slots().len(),
    {
        descriptor.hash(self.seed) as usize % self.buckets.len()
    }

    /// The address stored for `descriptor`, if this subtable holds it.
    pub fn get(&self, descriptor: TileDescriptor) -> (address: Option<TileAddress>)
        requires
            self.wf(),
        ensures
            address == if self.holds(descriptor) {
                Some(self.address_of(descriptor))
            } else {
                None
            },
    {
        let bucket_index = self.bucket_index(descriptor);
        match self.buckets[bucket_index] {
            Some(bucket) => {
                if bucket.descriptor == descriptor {
                    Some(bucket.address)
                } else {
                    None
                }
            },
            None => None,
        }
    }

    /// Puts `(descriptor, address)` into the bucket of `descriptor`, whatever it held.
    pub fn insert(&mut self, descriptor: TileDescriptor, address: TileAddress) -> (result:
        TileHashSubinsertResult)
        requires
            old(self).wf(),
        ensures
            final(self).wf(),
            final(self).spec_seed() == old(self).spec_seed(),
            final(self).slots() == old(self).slots().update(
                old(self).bucket_of(descriptor),
                Some(TileHashEntry { descriptor, address }),
            ),
            result == match old(self).slots()[old(self).bucket_of(descriptor)] {
                None => TileHashSubinsertResult::Inserted,
                Some(entry) => if entry.descriptor == descriptor {
                    TileHashSubinsertResult::Replaced
                } else {
                    TileHashSubinsertResult::Ejected(entry)
                },
            },
    {
        let bucket_index = self.bucket_index(descriptor);
        let previous = self.buckets[bucket_index];
        self.buckets[bucket_index] = Some(TileHashEntry { descriptor, address });
        assert(final(self).bucket_of(descriptor) == bucket_index) by {
            assert(self.slots().len() == old(self).slots().len());
        }
        match previous {
            None => TileHashSubinsertResult::Inserted,
            Some(entry) => {
                if entry.descriptor == descriptor {
                    TileHashSubinsertResult::Replaced
                } else {
                    TileHashSubinsertResult::Ejected(entry)
                }
            },
        }
    }

    /// Empties the bucket of `descriptor` if it holds `descriptor`.
    pub fn remove(&mut self, descriptor: TileDescriptor) -> (address: Option<TileAddress>)
        requires
            old(self).wf(),
        ensures
            final(self).wf(),
            final(self).spec_seed() == old(self).spec_seed(),
            old(self).holds(descriptor) ==> address == Some(old(self).address_of(descriptor))
                && final(self).slots() == old(self).slots().update(
                old(self).bucket_of(descriptor),
                None,
            ),
            !old(self).holds(descriptor) ==> address.is_none() && final(self).slots() == old(
                self,
            ).slots(),
    {
        let bucket_index = self.bucket_index(descriptor);
        let found = match self.buckets[bucket_index] {
            None => false,
            Some(bucket) => bucket.descriptor == descriptor,
        };
        if found {
            let bucket = self.buckets[bucket_index];
            self.buckets[bucket_index] = None;
            Some(bucket.unwrap().address)
        } else {
            None
        }
    }
}

/// What became of a key handed to the directory.
#[derive(Clone, Copy, Debug, PartialEq, Eq, Structural)]
pub enum TileHashInsertResult {
    /// The key was new and has a bucket now.
    Inserted,
    /// The key was there; its address was overwritten.
    Replaced,
}

pub struct TileHashTable {
    first: TileHashSubtable,
    second: TileHashSubtable,
}

/// A 32-bit seed from `rand::thread_rng()`, drawn with `Rng::gen`. The
/// generator is seeded by the system, so nothing is claimed of the value.
#[verifier::external_body]
fn random_seed() -> u32 {
    rand::Rng::gen(&mut rand::thread_rng())
}

/// Whether two subtables have the same seed and the same buckets.
pub open spec fn same_subtable(a: TileHashSubtable, b: TileHashSubtable) -> bool {
    a.spec_seed() == b.spec_seed() && a.slots() == b.slots()
}

/// One displacement within a subtable: `entry` took the bucket of its key
/// in `before` and drove out `ejected`.
spec fn displaced(
    before: TileHashSubtable,
    entry: TileHashEntry,
    after: TileHashSubtable,
    ejected: TileHashEntry,
) -> bool {
    let index = before.bucket_of(entry.descriptor);
    &&& before.wf()
    &&& after.spec_seed() == before.spec_seed()
    &&& before.slots()[index] == Some(ejected)
    &&& ejected.descriptor != entry.descriptor
    &&& after.slots() == before.slots().update(index, Some(entry))
}

/// One displacement within a directory: it happened in subtable A for
/// side 0 and in subtable B for side 1, and the other subtable stayed as it was.
spec fn stepped(
    before: TileHashTable,
    entry: TileHashEntry,
    after: TileHashTable,
    ejected: TileHashEntry,
    side: int,
) -> bool {
    &&& displaced(before.side(side), entry, after.side(side), ejected)
    &&& same_subtable(after.side(1 - side), before.side(1 - side))
}

/// Step `j` of a chain of displacements led from a well-formed directory
/// to the next one of the chain, in subtable A if `j` is even and in B if
/// it is odd.
spec fn linked(tables: Seq<TileHashTable>, entries: Seq<TileHashEntry>, j: int) -> bool {
    &&& tables[j].wf()
    &&& stepped(tables[j], entries[j], tables[j + 1], entries[j + 1], j % 2)
}

/// A chain of displacements stays one when a directory is added at its end.
proof fn lemma_chain_grows(
    tables: Seq<TileHashTable>,
    entries: Seq<TileHashEntry>,
    steps: int,
    table: TileHashTable,
    entry: TileHashEntry,
)
    requires
        0 <= steps,
        tables.len() == steps + 1,
        entries.len() == steps + 1,
        forall|j: int| 0 <= j < steps ==> #[trigger] linked(tables, entries, j),
        tables[steps].wf(),
        stepped(tables[steps], entries[steps], table, entry, steps % 2),
    ensures
        forall|j: int|
            0 <= j < steps + 1 ==> #[trigger] linked(tables.push(table), entries.push(entry), j),
{
    assert forall|j: int| 0 <= j < steps + 1 implies #[trigger] linked(
        tables.push(table),
        entries.push(entry),
        j,
    ) by {
        if j < steps {
            assert(linked(tables, entries, j));
        }
    }
}

/// Two subtables with the same seed and as many buckets hash a key to the
/// same bucket, and that bucket exists.
proof fn lemma_bucket_shared(a: TileHashSubtable, b: TileHashSubtable, key: TileDescriptor)
    requires
        a.spec_seed() == b.spec_seed(),
        a.slots().len() == b.slots().len(),
        a.slots().len() > 0,
    ensures
        a.bucket_of(key) == b.bucket_of(key),
        0 <= a.bucket_of(key) < a.slots().len(),
{
    vstd::arithmetic::div_mod::lemma_mod_bound(
        hash_key(key.0, a.spec_seed()) as int,
        a.slots().len() as int,
    );
}

/// A power of two in 32 bits is at most the largest bucket count.
pub proof fn lemma_power_of_two_bound(n: u32)
    requires
        is_power_of_two(n),
    ensures
        n <= MAX_BUCKET_SIZE,
{
    assert(n <= 0x8000_0000u32) by (bit_vector)
        requires
            is_power_of_two(n),
    ;
}

/// What a subtable holds after an entry was written into the bucket of its key.
proof fn lemma_written(before: TileHashSubtable, after: TileHashSubtable, entry: TileHashEntry)
    requires
        before.wf(),
        after.spec_seed() == before.spec_seed(),
        after.slots() == before.slots().update(before.bucket_of(entry.descriptor), Some(entry)),
    ensures
        after.wf(),
        after.holds(entry.descriptor),
        after.address_of(entry.descriptor) == entry.address,
        forall|key: TileDescriptor|
            key != entry.descriptor ==> (#[trigger] after.holds(key) <==> before.holds(key)
                && before.bucket_of(key) != before.bucket_of(entry.descriptor)),
        forall|key: TileDescriptor|
            key != entry.descriptor && #[trigger] after.holds(key) ==> after.address_of(key)
                == before.address_of(key),
{
    lemma_bucket_shared(after, before, entry.descriptor);
    assert forall|key: TileDescriptor| key != entry.descriptor implies (#[trigger] after.holds(key)
        <==> before.holds(key) && before.bucket_of(key) != before.bucket_of(
        entry.descriptor,
    )) by {
        lemma_bucket_shared(after, before, key);
    }
    assert forall|key: TileDescriptor|
        key != entry.descriptor && #[trigger] after.holds(key) implies after.address_of(key)
        == before.address_of(key) by {
        lemma_bucket_shared(after, before, key);
    }
}

/// Directories with the same seeds and buckets are alike in all that the contracts speak of.
proof fn lemma_same_content(a: TileHashTable, b: TileHashTable)
    requires
        a.wf(),
        a.same_content(b),
    ensures
        b.wf(),
        b@ == a@,
        b.spec_bucket_size() == a.spec_bucket_size(),
{
    assert forall|key: TileDescriptor|
        (#[trigger] b.first_table().holds(key) <==> a.first_table().holds(key)) && (
        #[trigger] b.second_table().holds(key) <==> a.second_table().holds(key)) by {}
    assert(b@ =~= a@);
}

/// What a directory is made of: the buckets of subtable A, those of
/// subtable B, and the seed of each.
pub struct Buckets {
    pub first: Seq<Option<TileHashEntry>>,
    pub second: Seq<Option<TileHashEntry>>,
    pub seed_a: u32,
    pub seed_b: u32,
}

/// The bucket that `key` hashes to among `bucket_count` buckets with `seed`.
pub open spec fn bucket_at(seed: u32, bucket_count: nat, key: TileDescriptor) -> int {
    hash_key(key.0, seed) as int % bucket_count as int
}

impl Buckets {
    /// What the bucket of `key` holds, in subtable B if `second` is set, else in A.
    pub open spec fn occupant(self, second: bool, key: TileDescriptor) -> Option<TileHashEntry> {
        if second {
            self.second[bucket_at(self.seed_b, self.second.len(), key)]
        } else {
            self.first[bucket_at(self.seed_a, self.first.len(), key)]
        }
    }

    /// These buckets with `entry` written into the bucket of its key, in
    /// subtable B if `second` is set, else in A.
    pub open spec fn put(self, second: bool, entry: TileHashEntry) -> Buckets {
        if second {
            Buckets {
                second: self.second.update(
                    bucket_at(self.seed_b, self.second.len(), entry.descriptor),
                    Some(entry),
                ),
                ..self
            }
        } else {
            Buckets {
                first: self.first.update(
                    bucket_at(self.seed_a, self.first.len(), entry.descriptor),
                    Some(entry),
                ),
                ..self
            }
        }
    }
}

/// Where a chain of displacements ends. At each step the entry at hand
/// is written into the bucket of its key, in subtable A at an even step
/// and in B at an odd one; the chain ends there if the bucket was empty,
/// and goes on with the entry that the bucket held if not. `None` if the
/// chain has not ended before step `limit`.
#[verifier::opaque]
pub open spec fn chain(buckets: Buckets, entry: TileHashEntry, step: nat, limit: nat) -> Option<
    Buckets,
>
    decreases limit - step,
{
    if step >= limit {
        None
    } else {
        match buckets.occupant(step % 2 == 1, entry.descriptor) {
            None => Some(buckets.put(step % 2 == 1, entry)),
            Some(loser) => chain(buckets.put(step % 2 == 1, entry), loser, step + 1, limit),
        }
    }
}

/// One step of a chain of displacements.
pub proof fn lemma_chain_step(buckets: Buckets, entry: TileHashEntry, step: nat, limit: nat)
    ensures
        step >= limit ==> chain(buckets, entry, step, limit).is_none(),
        step < limit ==> chain(buckets, entry, step, limit) == match buckets.occupant(
            step % 2 == 1,
            entry.descriptor,
        ) {
            None => Some(buckets.put(step % 2 == 1, entry)),
            Some(loser) => chain(buckets.put(step % 2 == 1, entry), loser, step + 1, limit),
        },
{
    reveal(chain);
}

/// The number of steps that a chain of displacements may take in a
/// directory of `bucket_count` buckets to the subtable: two for each
/// round, and as many rounds as the base-2 logarithm of the bucket count,
/// rounded down.
pub open spec fn chain_limit(bucket_count: nat) -> nat {
    (2 * (31 - vstd::std_specs::bits::u32_leading_zeros(bucket_count as u32))) as nat
}

/// A directory of `bucket_count` empty buckets to the subtable.
pub open spec fn empty_buckets(seed_a: u32, seed_b: u32, bucket_count: nat) -> Buckets {
    Buckets {
        first: Seq::new(bucket_count, |i: int| None::<TileHashEntry>),
        second: Seq::new(bucket_count, |i: int| None::<TileHashEntry>),
        seed_a,
        seed_b,
    }
}

/// What `buckets` become when the entries in `entries` are placed in
/// them, one after the other, each by a chain of displacements of fewer
/// than `limit` steps. `None` if one of the chains does not end in time.
pub open spec fn filled(
    buckets: Buckets,
    entries: Seq<Option<TileHashEntry>>,
    limit: nat,
) -> Option<Buckets>
    decreases entries.len(),
{
    if entries.len() == 0 {
        Some(buckets)
    } else {
        match filled(buckets, entries.drop_last(), limit) {
            None => None,
            Some(earlier) => match entries.last() {
                None => Some(earlier),
                Some(entry) => chain(earlier, entry, 0, limit),
            },
        }
    }
}

/// What a directory becomes when its entries, those of subtable A first
/// and bucket by bucket, are placed in empty subtables of `bucket_count`
/// buckets with the seeds `seed_a` and `seed_b`. `None` if an entry finds
/// no bucket there.
pub open spec fn refilled(old_buckets: Buckets, seed_a: u32, seed_b: u32, bucket_count: nat) -> Option<
    Buckets,
> {
    filled(
        empty_buckets(seed_a, seed_b, bucket_count),
        old_buckets.first + old_buckets.second,
        chain_limit(bucket_count),
    )
}

/// What the entry at `position` adds to the entries before it.
proof fn lemma_filled_next(
    buckets: Buckets,
    entries: Seq<Option<TileHashEntry>>,
    position: int,
    limit: nat,
)
    requires
        0 <= position < entries.len(),
    ensures
        filled(buckets, entries.subrange(0, position + 1), limit) == match filled(
            buckets,
            entries.subrange(0, position),
            limit,
        ) {
            None => None,
            Some(earlier) => match entries[position] {
                None => Some(earlier),
                Some(entry) => chain(earlier, entry, 0, limit),
            },
        },
{
    let more = entries.subrange(0, position + 1);
    assert(more.drop_last() =~= entries.subrange(0, position));
    assert(more.last() == entries[position]);
}

/// Once an entry has found no bucket, the entries after it change nothing.
proof fn lemma_filled_fails(
    buckets: Buckets,
    entries: Seq<Option<TileHashEntry>>,
    done: int,
    limit: nat,
)
    requires
        0 <= done <= entries.len(),
        filled(buckets, entries.subrange(0, done), limit).is_none(),
    ensures
        filled(buckets, entries, limit).is_none(),
    decreases entries.len() - done,
{
    if done < entries.len() {
        assert(entries.subrange(0, done + 1).drop_last() =~= entries.subrange(0, done));
        lemma_filled_fails(buckets, entries, done + 1, limit);
    } else {
        assert(entries.subrange(0, done) =~= entries);
    }
}

/// With 2^31 buckets to the subtable, the entry that a new key drives
/// out of subtable A finds its bucket in subtable B empty: else three keys
/// would share a bucket.
proof fn lemma_no_third_key(table: TileHashTable, key: TileDescriptor)
    requires
        table.wf(),
        table.spec_bucket_size() == MAX_BUCKET_SIZE,
        !table@.contains_key(key),
    ensures
        table.content().occupant(false, key) matches Some(loser) ==> table.content().occupant(
            true,
            loser.descriptor,
        ).is_none(),
{
    let first = table.first_table();
    let second = table.second_table();
    lemma_bucket_shared(first, first, key);
    if let Some(loser) = table.content().occupant(false, key) {
        lemma_bucket_shared(second, second, loser.descriptor);
        assert(first.slots()[first.bucket_of(key)] == Some(loser));
        assert(first.bucket_of(loser.descriptor) == first.bucket_of(key));
        assert(first.holds(loser.descriptor));
        if let Some(other) = table.content().occupant(true, loser.descriptor) {
            assert(second.slots()[second.bucket_of(loser.descriptor)] == Some(other));
            assert(second.bucket_of(other.descriptor) == second.bucket_of(loser.descriptor));
            assert(second.holds(other.descriptor));
            assert(other.descriptor != loser.descriptor);
            assert(table@.contains_key(loser.descriptor));
            assert(table@.contains_key(other.descriptor));
            crate::tile::lemma_no_three_in_a_bucket(
                key.0,
                loser.descriptor.0,
                other.descriptor.0,
                first.spec_seed(),
                second.spec_seed(),
            );
        }
    }
}

/// The number of rounds of displacements that an insertion tries: the
/// base-2 logarithm of the bucket count, rounded down.
fn chain_bound(bucket_size: u32) -> (rounds: u32)
    requires
        bucket_size >= 2,
    ensures
        1 <= rounds <= 31,
        rounds == 31 - vstd::std_specs::bits::u32_leading_zeros(bucket_size),
{
    proof {
        vstd::std_specs::bits::axiom_u32_leading_zeros(bucket_size);
        assert(bucket_size >> 1u32 == 0 ==> bucket_size < 2) by (bit_vector);
    }
    31 - bucket_size.leading_zeros()
}

impl TileHashTable {
    /// Subtable A.
    pub closed spec fn first_table(self) -> TileHashSubtable {
        self.first
    }

    /// Subtable B.
    pub closed spec fn second_table(self) -> TileHashSubtable {
        self.second
    }

    /// The buckets and the seeds.
    pub open spec fn content(self) -> Buckets {
        Buckets {
            first: self.first_table().slots(),
            second: self.second_table().slots(),
            seed_a: self.first_table().spec_seed(),
            seed_b: self.second_table().spec_seed(),
        }
    }

    /// Subtable A for side 0, subtable B for any other side.
    pub open spec fn side(self, side: int) -> TileHashSubtable {
        if side == 0 {
            self.first_table()
        } else {
            self.second_table()
        }
    }

    /// Whether both directories have the same seeds and the same buckets.
    pub open spec fn same_content(self, other: TileHashTable) -> bool {
        &&& same_subtable(self.first_table(), other.first_table())
        &&& same_subtable(self.second_table(), other.second_table())
    }

    /// The number of buckets in each subtable.
    pub open spec fn spec_bucket_size(self) -> nat {
        self.first_table().slots().len()
    }

    /// Both subtables are well formed and of one size, a power of two that
    /// is at least 2, and no key is held by both.
    pub open spec fn wf(self) -> bool {
        &&& self.first_table().wf()
        &&& self.second_table().wf()
        &&& self.second_table().slots().len() == self.spec_bucket_size()
        &&& self.spec_bucket_size() >= 2
        &&& is_power_of_two(self.spec_bucket_size() as u32)
        &&& forall|key: TileDescriptor|
            !(#[trigger] self.first_table().holds(key) && #[trigger] self.second_table().holds(
                key,
            ))
    }

    /// The keys held by either subtable, each with its address.
    pub open spec fn view(self) -> Map<TileDescriptor, TileAddress> {
        Map::new(
            |key: TileDescriptor|
                self.first_table().holds(key) || self.second_table().holds(key),
            |key: TileDescriptor|
                if self.first_table().holds(key) {
                    self.first_table().address_of(key)
                } else {
                    self.second_table().address_of(key)
                },
        )
    }

    /// An empty directory with seeds from the thread's random number
    /// generator, or `None` unless `initial_bucket_size` is a power of two
    /// and at least 2.
    pub fn new(initial_bucket_size: u32) -> (table: Option<TileHashTable>)
        ensures
            table.is_some() <==> initial_bucket_size >= 2 && is_power_of_two(initial_bucket_size),
            table matches Some(t) ==> t.wf() && t@ == Map::<TileDescriptor, TileAddress>::empty()
                && t.spec_bucket_size() == initial_bucket_size,
    {
        let seed_a = random_seed();
        let seed_b = random_seed();
        TileHashTable::with_seeds([seed_a, seed_b], initial_bucket_size)
    }

    /// An empty directory with the given seeds, or `None` unless
    /// `initial_bucket_size` is a power of two and at least 2.
    pub fn with_seeds(seeds: [u32; 2], initial_bucket_size: u32) -> (table: Option<TileHashTable>)
        ensures
            table.is_some() <==> initial_bucket_size >= 2 && is_power_of_two(initial_bucket_size),
            table matches Some(t) ==> t.wf() && t@ == Map::<TileDescriptor, TileAddress>::empty()
                && t.spec_bucket_size() == initial_bucket_size && t.first_table().spec_seed()
                == seeds[0] && t.second_table().spec_seed() == seeds[1] && t.content()
                == empty_buckets(seeds[0], seeds[1], initial_bucket_size as nat),
    {
        let below: u32 = if initial_bucket_size > 0 {
            initial_bucket_size - 1
        } else {
            0
        };
        if initial_bucket_size < 2 || initial_bucket_size & below != 0 {
            return None;
        }
        let table = TileHashTable {
            first: TileHashSubtable::new(seeds[0], initial_bucket_size),
            second: TileHashSubtable::new(seeds[1], initial_bucket_size),
        };
        assert(table@ =~= Map::<TileDescriptor, TileAddress>::empty());
        Some(table)
    }

    /// The number of buckets in each subtable.
    #[inline]
    pub fn bucket_size(&self) -> (size: usize)
        ensures
            size == self.spec_bucket_size(),
    {
        self.first.bucket_size()
    }

    /// Subtable A for index 0, subtable B for index 1.
    #[inline]
    pub fn subtable(&self, index: usize) -> (subtable: &TileHashSubtable)
        requires
            index < 2,
        ensures
            *subtable == if index == 0 {
                self.first_table()
            } else {
                self.second_table()
            },
    {
        if index == 0 {
            &self.first
        } else {
            &self.second
        }
    }

    /// The address stored for `descriptor`, in subtable A or else in B.
    pub fn get(&self, descriptor: TileDescriptor) -> (address: Option<TileAddress>)
        requires
            self.wf(),
        ensures
            address == if self@.contains_key(descriptor) {
                Some(self@[descriptor])
            } else {
                None
            },
    {
        match self.first.get(descriptor) {
            Some(address) => Some(address),
            None => self.second.get(descriptor),
        }
    }

    /// What a rebuild has copied so far: the keys of subtable A in buckets
    /// below `done_first` and those of subtable B in buckets below
    /// `done_second`.
    pub open spec fn copied(self, done_first: int, done_second: int) -> Map<
        TileDescriptor,
        TileAddress,
    > {
        Map::new(
            |key: TileDescriptor|
                (self.first_table().holds(key) && self.first_table().bucket_of(key) < done_first)
                    || (self.second_table().holds(key) && self.second_table().bucket_of(key)
                    < done_second),
            |key: TileDescriptor|
                if self.first_table().holds(key) {
                    self.first_table().address_of(key)
                } else {
                    self.second_table().address_of(key)
                },
        )
    }

    /// Writes `entry`, whose key the directory does not hold, into the
    /// bucket of its key in subtable A, or in B if `second` is set, and
    /// returns the entry that it drove out, if any.
    fn place(&mut self, second: bool, entry: TileHashEntry) -> (ejected: Option<TileHashEntry>)
        requires
            old(self).wf(),
            !old(self)@.contains_key(entry.descriptor),
        ensures
            final(self).wf(),
            final(self).spec_bucket_size() == old(self).spec_bucket_size(),
            ejected == old(self).content().occupant(second, entry.descriptor),
            final(self).content() == old(self).content().put(second, entry),
            ({
                let side = if second {
                    1int
                } else {
                    0int
                };
                let bucket = old(self).side(side).slots()[old(self).side(side).bucket_of(
                    entry.descriptor,
                )];
                match ejected {
                    None => {
                        &&& bucket.is_none()
                        &&& final(self)@ == old(self)@.insert(entry.descriptor, entry.address)
                    },
                    Some(loser) => {
                        &&& bucket.is_some()
                        &&& stepped(*old(self), entry, *final(self), loser, side)
                        &&& !final(self)@.contains_key(loser.descriptor)
                        &&& final(self)@.insert(loser.descriptor, loser.address) == old(
                            self,
                        )@.insert(entry.descriptor, entry.address)
                    },
                }
            }),
    {
        let ghost before = *self;
        let result = if second {
            self.second.insert(entry.descriptor, entry.address)
        } else {
            self.first.insert(entry.descriptor, entry.address)
        };
        proof {
            if second {
                lemma_written(before.second, self.second, entry);
            } else {
                lemma_written(before.first, self.first, entry);
            }
        }
        match result {
            TileHashSubinsertResult::Inserted => {
                assert(self@ =~= before@.insert(entry.descriptor, entry.address));
                None
            },
            TileHashSubinsertResult::Replaced => {
                assert(false);
                None
            },
            TileHashSubinsertResult::Ejected(loser) => {
                proof {
                    let side = if second {
                        1int
                    } else {
                        0int
                    };
                    let index = before.side(side).bucket_of(entry.descriptor);
                    lemma_bucket_shared(before.side(side), before.side(side), entry.descriptor);
                    assert(before.side(side).slots()[index] == Some(loser));
                    assert(before.side(side).bucket_of(loser.descriptor) == index);
                    assert(before.side(side).holds(loser.descriptor));
                    assert(!before.side(1 - side).holds(loser.descriptor));
                    assert(self@.insert(loser.descriptor, loser.address) =~= before@.insert(
                        entry.descriptor,
                        entry.address,
                    ));
                }
                Some(loser)
            },
        }
    }

    /// Takes one displacement back: writes `entry`, the entry that the
    /// displacement drove out, where it was, and returns the entry that had
    /// taken its bucket.
    fn take_back(
        &mut self,
        second: bool,
        entry: TileHashEntry,
        Ghost(before): Ghost<TileHashTable>,
        Ghost(before_entry): Ghost<TileHashEntry>,
        Ghost(after): Ghost<TileHashTable>,
    ) -> (returned: TileHashEntry)
        requires
            before.wf(),
            stepped(
                before,
                before_entry,
                after,
                entry,
                if second {
                    1int
                } else {
                    0int
                },
            ),
            old(self).same_content(after),
        ensures
            final(self).same_content(before),
            returned == before_entry,
    {
        let ghost side = if second {
            1int
        } else {
            0int
        };
        proof {
            let index = before.side(side).bucket_of(before_entry.descriptor);
            lemma_bucket_shared(before.side(side), self.side(side), before_entry.descriptor);
            lemma_bucket_shared(before.side(side), self.side(side), entry.descriptor);
            assert(before.side(side).slots()[index] == Some(entry));
            assert(before.side(side).bucket_of(entry.descriptor) == index);
            lemma_written(before.side(side), self.side(side), before_entry);
        }
        let result = if second {
            self.second.insert(entry.descriptor, entry.address)
        } else {
            self.first.insert(entry.descriptor, entry.address)
        };
        proof {
            assert(self.side(side).slots() =~= before.side(side).slots());
        }
        match result {
            TileHashSubinsertResult::Ejected(returned) => returned,
            _ => {
                assert(false);
                entry
            },
        }
    }

    /// Stores `address` for `descriptor`.
    ///
    /// A key that is there keeps its bucket and gets the new address. A new
    /// key is placed in subtable A; an entry that it drives out moves to
    /// subtable B, and so on in turn, for as many rounds as the base-2
    /// logarithm of the bucket count. When an entry is still homeless then,
    /// the displacements are taken back, the directory is rebuilt with twice
    /// the buckets, and the key is inserted anew. With 2^31 buckets to the
    /// subtable no three keys share a bucket, so every chain ends there.
    pub fn insert(&mut self, descriptor: TileDescriptor, address: TileAddress) -> (result:
        TileHashInsertResult)
        requires
            old(self).wf(),
        ensures
            final(self).wf(),
            final(self)@ == old(self)@.insert(descriptor, address),
            result == if old(self)@.contains_key(descriptor) {
                TileHashInsertResult::Replaced
            } else {
                TileHashInsertResult::Inserted
            },
            final(self).spec_bucket_size() >= old(self).spec_bucket_size(),
            old(self)@.contains_key(descriptor) ==> final(self).spec_bucket_size() == old(
                self,
            ).spec_bucket_size(),
            !old(self)@.contains_key(descriptor) ==> match chain(
                old(self).content(),
                TileHashEntry { descriptor, address },
                0,
                chain_limit(old(self).spec_bucket_size()),
            ) {
                Some(placed) => final(self).content() == placed,
                None => final(self).spec_bucket_size() >= 2 * old(self).spec_bucket_size(),
            },
        decreases MAX_BUCKET_SIZE - old(self).spec_bucket_size(),
    {
        if self.overwrite(descriptor, address) {
            return TileHashInsertResult::Replaced;
        }
        if self.displace(descriptor, address) {
            return TileHashInsertResult::Inserted;
        }
        let bucket_size: u32 = self.first.bucket_size() as u32;
        proof {
            lemma_power_of_two_bound(bucket_size);
            assert(bucket_size <= 0x4000_0000 && is_power_of_two((2 * bucket_size) as u32))
                by (bit_vector)
                requires
                    is_power_of_two(bucket_size),
                    bucket_size < 0x8000_0000u32,
            ;
        }
        self.rebuild(bucket_size * 2);
        proof {
            lemma_power_of_two_bound(self.spec_bucket_size() as u32);
        }
        self.insert(descriptor, address)
    }

    /// Tries to place a key that the directory does not hold by a bounded
    /// chain of displacements, and reports whether it has a bucket now. When
    /// it has none, the displacements were taken back and the directory is
    /// as it was.
    fn displace(&mut self, descriptor: TileDescriptor, address: TileAddress) -> (placed: bool)
        requires
            old(self).wf(),
            !old(self)@.contains_key(descriptor),
        ensures
            final(self).wf(),
            final(self).spec_bucket_size() == old(self).spec_bucket_size(),
            placed ==> final(self)@ == old(self)@.insert(descriptor, address),
            !placed ==> final(self)@ == old(self)@,
            old(self).spec_bucket_size() == MAX_BUCKET_SIZE ==> placed,
            placed <==> chain(
                old(self).content(),
                TileHashEntry { descriptor, address },
                0,
                chain_limit(old(self).spec_bucket_size()),
            ).is_some(),
            placed ==> Some(final(self).content()) == chain(
                old(self).content(),
                TileHashEntry { descriptor, address },
                0,
                chain_limit(old(self).spec_bucket_size()),
            ),
            !placed ==> final(self).content() == old(self).content(),
    {
        let bucket_size: u32 = self.first.bucket_size() as u32;
        let max_chain: u32 = chain_bound(bucket_size);
        let ghost limit = chain_limit(old(self).spec_bucket_size());
        let ghost goal = chain(
            old(self).content(),
            TileHashEntry { descriptor, address },
            0,
            limit,
        );
        let ghost target = old(self)@.insert(descriptor, address);
        let mut entry = TileHashEntry { descriptor, address };
        let ghost mut tables: Seq<TileHashTable> = seq![*self];
        let ghost mut entries: Seq<TileHashEntry> = seq![entry];
        let mut steps: u32 = 0;
        let mut placed = false;
        let mut round: u32 = 0;
        while round < max_chain && !placed
            invariant
                1 <= max_chain <= 31,
                round <= max_chain,
                self.wf(),
                self.spec_bucket_size() == bucket_size,
                placed ==> self@ == target,
                bucket_size == MAX_BUCKET_SIZE && round >= 1 ==> placed,
                round == 0 ==> *self == *old(self) && entry == (TileHashEntry {
                    descriptor,
                    address,
                }),
                steps <= 2 * round,
                tables.len() == steps + 1,
                entries.len() == steps + 1,
                tables[0] == *old(self),
                forall|j: int| 0 <= j < steps ==> #[trigger] linked(tables, entries, j),
                limit == 2 * max_chain,
                placed ==> goal == Some(self.content()),
                !placed ==> goal == chain(self.content(), entry, steps as nat, limit),
                !placed ==> {
                    &&& steps == 2 * round
                    &&& !self@.contains_key(entry.descriptor)
                    &&& self@.insert(entry.descriptor, entry.address) == target
                    &&& tables[steps as int] == *self
                    &&& entries[steps as int] == entry
                },
            decreases max_chain - round,
        {
            proof {
                lemma_chain_step(self.content(), entry, steps as nat, limit);
            }
            match self.place(false, entry) {
                None => {
                    placed = true;
                },
                Some(loser) => {
                    proof {
                        if round == 0 && bucket_size == MAX_BUCKET_SIZE {
                            lemma_no_third_key(*old(self), descriptor);
                        }
                        lemma_chain_step(self.content(), loser, (steps + 1) as nat, limit);
                        lemma_chain_grows(tables, entries, steps as int, *self, loser);
                        tables = tables.push(*self);
                        entries = entries.push(loser);
                    }
                    steps = steps + 1;
                    entry = loser;
                    match self.place(true, entry) {
                        None => {
                            placed = true;
                        },
                        Some(loser_again) => {
                            proof {
                                lemma_chain_grows(
                                    tables,
                                    entries,
                                    steps as int,
                                    *self,
                                    loser_again,
                                );
                                tables = tables.push(*self);
                                entries = entries.push(loser_again);
                            }
                            steps = steps + 1;
                            entry = loser_again;
                        },
                    }
                },
            }
            round = round + 1;
        }
        if placed {
            return true;
        }
        proof {
            lemma_chain_step(self.content(), entry, steps as nat, limit);
        }
        // No home within the bound: take the displacements back, last first.
        while steps > 0
            invariant
                steps < tables.len(),
                tables.len() == entries.len(),
                self.same_content(tables[steps as int]),
                entry == entries[steps as int],
                forall|j: int| 0 <= j < steps ==> #[trigger] linked(tables, entries, j),
            decreases steps,
        {
            steps = steps - 1;
            assert(linked(tables, entries, steps as int));
            entry =
            self.take_back(
                steps % 2 == 1,
                entry,
                Ghost(tables[steps as int]),
                Ghost(entries[steps as int]),
                Ghost(tables[steps as int + 1]),
            );
        }
        proof {
            assert(old(self).same_content(*self));
            lemma_same_content(*old(self), *self);
        }
        false
    }

    /// Gives the key `descriptor` the address `address` if the directory
    /// holds the key, and reports whether it does.
    fn overwrite(&mut self, descriptor: TileDescriptor, address: TileAddress) -> (found: bool)
        requires
            old(self).wf(),
        ensures
            found == old(self)@.contains_key(descriptor),
            found ==> final(self).wf() && final(self)@ == old(self)@.insert(descriptor, address)
                && final(self).spec_bucket_size() == old(self).spec_bucket_size(),
            !found ==> *final(self) == *old(self),
    {
        let ghost before = *self;
        if self.first.get(descriptor).is_some() {
            self.first.insert(descriptor, address);
            proof {
                lemma_written(before.first, self.first, TileHashEntry { descriptor, address });
                assert(self@ =~= before@.insert(descriptor, address));
            }
            true
        } else if self.second.get(descriptor).is_some() {
            self.second.insert(descriptor, address);
            proof {
                lemma_written(before.second, self.second, TileHashEntry { descriptor, address });
                assert(self@ =~= before@.insert(descriptor, address));
            }
            true
        } else {
            false
        }
    }

    /// Moves every entry into new subtables with new random seeds. The new
    /// subtables have `new_bucket_size` buckets, or twice as many as often
    /// as an entry found no bucket; with 2^31 buckets every entry finds one.
    pub fn rebuild(&mut self, new_bucket_size: u32)
        requires
            old(self).wf(),
            new_bucket_size >= 2,
            is_power_of_two(new_bucket_size),
        ensures
            final(self).wf(),
            final(self)@ == old(self)@,
            final(self).spec_bucket_size() >= new_bucket_size,
            exists|seed_a: u32, seed_b: u32| #[trigger]
                refilled(
                    old(self).content(),
                    seed_a,
                    seed_b,
                    final(self).spec_bucket_size(),
                ) == Some(final(self).content()),
    {
        let mut bucket_size: u32 = new_bucket_size;
        loop
            invariant
                *self == *old(self),
                self.wf(),
                bucket_size >= new_bucket_size,
                bucket_size >= 2,
                is_power_of_two(bucket_size),
            decreases MAX_BUCKET_SIZE - bucket_size,
        {
            let seed_a = random_seed();
            let seed_b = random_seed();
            if self.rebuild_with_seeds([seed_a, seed_b], bucket_size) {
                assert(refilled(old(self).content(), seed_a, seed_b, self.spec_bucket_size())
                    == Some(self.content()));
                return ;
            }
            proof {
                lemma_power_of_two_bound(bucket_size);
                assert(bucket_size <= 0x4000_0000 && is_power_of_two((2 * bucket_size) as u32))
                    by (bit_vector)
                    requires
                        is_power_of_two(bucket_size),
                        bucket_size < 0x8000_0000u32,
                ;
            }
            bucket_size = bucket_size * 2;
        }
    }

    /// Moves every entry into new subtables of `new_bucket_size` buckets
    /// with the seeds `seeds`, and reports whether that was done. The
    /// entries of subtable A go first, bucket by bucket, then those of B;
    /// each is placed by a bounded chain of displacements. When one of
    /// them finds no bucket, the directory stays as it was.
    pub fn rebuild_with_seeds(&mut self, seeds: [u32; 2], new_bucket_size: u32) -> (rebuilt: bool)
        requires
            old(self).wf(),
            new_bucket_size >= 2,
            is_power_of_two(new_bucket_size),
        ensures
            final(self).wf(),
            final(self)@ == old(self)@,
            rebuilt <==> refilled(
                old(self).content(),
                seeds[0],
                seeds[1],
                new_bucket_size as nat,
            ).is_some(),
            rebuilt ==> Some(final(self).content()) == refilled(
                old(self).content(),
                seeds[0],
                seeds[1],
                new_bucket_size as nat,
            ),
            rebuilt ==> final(self).spec_bucket_size() == new_bucket_size,
            !rebuilt ==> *final(self) == *old(self),
            new_bucket_size == MAX_BUCKET_SIZE ==> rebuilt,
    {
        let made = TileHashTable::with_seeds(seeds, new_bucket_size);
        let mut fresh = made.unwrap();
        let ghost start = fresh.content();
        let ghost limit = chain_limit(new_bucket_size as nat);
        let ghost entries = self.first.slots() + self.second.slots();
        let bucket_count = self.first.bucket_size();
        let mut index: usize = 0;
        proof {
            assert(entries.subrange(0, 0) =~= Seq::<Option<TileHashEntry>>::empty());
        }
        while index < bucket_count
            invariant
                *self == *old(self),
                self.wf(),
                bucket_count == self.spec_bucket_size(),
                index <= bucket_count,
                fresh.wf(),
                fresh.spec_bucket_size() == new_bucket_size,
                fresh@ == self.copied(index as int, 0),
                entries == self.first.slots() + self.second.slots(),
                entries.len() == 2 * bucket_count,
                start == empty_buckets(seeds[0], seeds[1], new_bucket_size as nat),
                limit == chain_limit(new_bucket_size as nat),
                filled(start, entries.subrange(0, index as int), limit) == Some(fresh.content()),
            decreases bucket_count - index,
        {
            let ghost fresh_before = fresh@;
            let bucket = self.first.bucket(index);
            proof {
                assert(entries[index as int] == bucket);
                lemma_filled_next(start, entries, index as int, limit);
            }
            match bucket {
                Some(entry) => {
                    assert(self.first.bucket_of(entry.descriptor) == index);
                    assert(self.first.holds(entry.descriptor));
                    assert(entry == (TileHashEntry {
                        descriptor: entry.descriptor,
                        address: entry.address,
                    }));
                    if !fresh.displace(entry.descriptor, entry.address) {
                        proof {
                            lemma_filled_fails(start, entries, index + 1, limit);
                        }
                        return false;
                    }
                    assert(self.copied(index + 1, 0) =~= fresh_before.insert(
                        entry.descriptor,
                        entry.address,
                    ));
                },
                None => {
                    assert(self.copied(index + 1, 0) =~= fresh_before);
                },
            }
            index = index + 1;
        }
        index = 0;
        while index < bucket_count
            invariant
                *self == *old(self),
                self.wf(),
                bucket_count == self.spec_bucket_size(),
                index <= bucket_count,
                fresh.wf(),
                fresh.spec_bucket_size() == new_bucket_size,
                fresh@ == self.copied(bucket_count as int, index as int),
                entries == self.first.slots() + self.second.slots(),
                entries.len() == 2 * bucket_count,
                start == empty_buckets(seeds[0], seeds[1], new_bucket_size as nat),
                limit == chain_limit(new_bucket_size as nat),
                filled(start, entries.subrange(0, bucket_count + index), limit) == Some(
                    fresh.content(),
                ),
            decreases bucket_count - index,
        {
            let ghost fresh_before = fresh@;
            let bucket = self.second.bucket(index);
            proof {
                assert(self.first.slots().len() == bucket_count);
                assert(entries[bucket_count + index] == bucket);
                lemma_filled_next(start, entries, bucket_count + index, limit);
            }
            match bucket {
                Some(entry) => {
                    assert(self.second.bucket_of(entry.descriptor) == index);
                    assert(self.second.holds(entry.descriptor));
                    assert(entry == (TileHashEntry {
                        descriptor: entry.descriptor,
                        address: entry.address,
                    }));
                    if !fresh.displace(entry.descriptor, entry.address) {
                        proof {
                            lemma_filled_fails(start, entries, bucket_count + index + 1, limit);
                        }
                        return false;
                    }
                    assert(self.copied(bucket_count as int, index + 1) =~= fresh_before.insert(
                        entry.descriptor,
                        entry.address,
                    ));
                },
                None => {
                    assert(self.copied(bucket_count as int, index + 1) =~= fresh_before);
                },
            }
            index = index + 1;
        }
        proof {
            assert(self.copied(bucket_count as int, bucket_count as int) =~= self@);
            assert(entries.subrange(0, bucket_count + bucket_count) =~= entries);
        }
        *self = fresh;
        true
    }

    /// Removes `descriptor` and returns the address it had.
    pub fn remove(&mut self, descriptor: TileDescriptor) -> (address: Option<TileAddress>)
        requires
            old(self).wf(),
        ensures
            final(self).wf(),
            final(self)@ == old(self)@.remove(descriptor),
            final(self).spec_bucket_size() == old(self).spec_bucket_size(),
            final(self).first_table().spec_seed() == old(self).first_table().spec_seed(),
            final(self).second_table().spec_seed() == old(self).second_table().spec_seed(),
            address == if old(self)@.contains_key(descriptor) {
                Some(old(self)@[descriptor])
            } else {
                None
            },
    {
        let removed = match self.first.remove(descriptor) {
            Some(address) => Some(address),
            None => self.second.remove(descriptor),
        };
        proof {
            let before = *old(self);
            let after = *self;
            assert forall|key: TileDescriptor|
                (#[trigger] after.first_table().holds(key) <==> key != descriptor
                    && before.first_table().holds(key)) && (after.first_table().holds(key)
                    ==> after.first_table().address_of(key) == before.first_table().address_of(
                    key,
                )) by {}
            assert forall|key: TileDescriptor|
                (#[trigger] after.second_table().holds(key) <==> key != descriptor
                    && before.second_table().holds(key)) && (after.second_table().holds(key)
                    ==> after.second_table().address_of(key) == before.second_table().address_of(
                    key,
                )) by {}
            assert(after@ =~= before@.remove(descriptor));
        }
        removed
    }
}

/// Whether `tables` are the states of a directory through a run of
/// insertions: `tables[i + 1]` holds what `tables[i]` held and the entry
/// `entries[i]`, as `insert` leaves it.
pub open spec fn inserted_in_turn(tables: Seq<TileHashTable>, entries: Seq<TileHashEntry>) -> bool {
    &&& tables.len() == entries.len() + 1
    &&& forall|i: int|
        0 <= i < entries.len() ==> (#[trigger] tables[i + 1])@ == tables[i]@.insert(
            entries[i].descriptor,
            entries[i].address,
        )
}

/// The place in `entries` of the last insertion of `key`, or -1 if `key`
/// is not inserted.
pub open spec fn last_insertion(entries: Seq<TileHashEntry>, key: TileDescriptor) -> int
    decreases entries.len(),
{
    if entries.len() == 0 {
        -1
    } else if entries.last().descriptor == key {
        entries.len() - 1
    } else {
        last_insertion(entries.drop_last(), key)
    }
}

/// `last_insertion` is the place of an insertion of `key` that no
/// insertion of `key` follows.
pub proof fn lemma_last_insertion(entries: Seq<TileHashEntry>, key: TileDescriptor)
    ensures
        -1 <= last_insertion(entries, key) < entries.len(),
        last_insertion(entries, key) >= 0 ==> entries[last_insertion(entries, key)].descriptor
            == key,
        forall|j: int|
            last_insertion(entries, key) < j < entries.len() ==> (#[trigger] entries[j]).descriptor
                != key,
    decreases entries.len(),
{
    if entries.len() > 0 && entries.last().descriptor != key {
        let front = entries.drop_last();
        lemma_last_insertion(front, key);
        assert forall|j: int| last_insertion(entries, key) < j < entries.len() implies (
        #[trigger] entries[j]).descriptor != key by {
            if j < front.len() {
                assert(front[j] == entries[j]);
            }
        }
    }
}

/// After a run of insertions into an empty directory, `get` finds a key
/// that was inserted at the address of its last insertion, and finds no
/// key that never was inserted.
pub proof fn lemma_directory_round_trip(
    tables: Seq<TileHashTable>,
    entries: Seq<TileHashEntry>,
    key: TileDescriptor,
)
    requires
        inserted_in_turn(tables, entries),
        tables[0]@ == Map::<TileDescriptor, TileAddress>::empty(),
    ensures
        tables.last()@.contains_key(key) <==> last_insertion(entries, key) >= 0,
        last_insertion(entries, key) >= 0 ==> tables.last()@[key] == entries[last_insertion(
            entries,
            key,
        )].address,
    decreases entries.len(),
{
    if entries.len() > 0 {
        let front = entries.drop_last();
        let earlier = tables.drop_last();
        assert forall|i: int| 0 <= i < front.len() implies (#[trigger] earlier[i + 1])@
            == earlier[i]@.insert(front[i].descriptor, front[i].address) by {
            assert(tables[i + 1]@ == tables[i]@.insert(entries[i].descriptor, entries[i].address));
        }
        lemma_directory_round_trip(earlier, front, key);
        lemma_last_insertion(front, key);
        let last = entries.len() - 1;
        assert(tables[last + 1]@ == tables[last]@.insert(
            entries[last].descriptor,
            entries[last].address,
        ));
        assert(earlier.last() == tables[last]);
        if entries.last().descriptor != key && last_insertion(front, key) >= 0 {
            assert(front[last_insertion(front, key)] == entries[last_insertion(front, key)]);
        }
    }
}

} // verus!
