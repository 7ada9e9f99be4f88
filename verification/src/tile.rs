//! Tile keys and cache addresses.
//!
//! A key packs a tile position and a level of detail into 32 bits:
//!
//! ```text
//! 0123456789abcdef0123456789abcdef
//! yyyyyyyyyyyyyxxxxxxxxxxxxxLlllll
//! ```
//!
//! thirteen bits of Y, thirteen bits of X, and the level of detail as a
//! six-bit two's-complement number.

use vstd::prelude::*;
use crate::geometry::Vector2I;

verus! {

/// One more than the largest tile coordinate a key can hold.
pub const TILE_COORD_LIMIT: i32 = 8192;

/// The smallest level of detail a key can hold.
pub const MIN_LOD: i8 = -32;

/// The largest level of detail a key can hold.
pub const MAX_LOD: i8 = 31;

/// The six low bits that stand for `lod` in two's complement.
pub open spec fn lod_bits(lod: int) -> int {
    if lod < 0 {
        lod + 64
    } else {
        lod
    }
}

/// The 32-bit key of the tile at `(x, y)` on level `lod`.
pub open spec fn encode_key(x: int, y: int, lod: int) -> int {
    y * 524288 + x * 64 + lod_bits(lod)
}

/// Whether `(x, y, lod)` is a tile that a key can name.
pub open spec fn valid_tile(x: int, y: int, lod: int) -> bool {
    &&& 0 <= x < TILE_COORD_LIMIT
    &&& 0 <= y < TILE_COORD_LIMIT
    &&& MIN_LOD <= lod <= MAX_LOD
}

/// The multiplicative finaliser that spreads the bits of a key, before the seed is mixed in.
pub open spec fn mix_key(key: u32) -> u32 {
    let a = key ^ (key >> 16);
    let b = a.wrapping_mul(0x85ebca6bu32);
    let c = b ^ (b >> 13);
    let d = c.wrapping_mul(0xc2b2ae35u32);
    d ^ (d >> 16)
}

/// The seeded hash of a key: the finaliser's output, xor the seed.
pub open spec fn hash_key(key: u32, seed: u32) -> u32 {
    mix_key(key) ^ seed
}

#[derive(Clone, Copy, Debug, PartialEq, Eq, PartialOrd, Ord, Hash, Structural)]
pub struct TileDescriptor(pub u32);

#[derive(Clone, Copy, Debug, PartialEq, Eq, Structural)]
pub struct TileAddress(pub u32);

impl TileDescriptor {
    /// The X coordinate held in bits 6 to 18.
    pub open spec fn spec_tile_x(self) -> int {
        (self.0 as int / 64) % 8192
    }

    /// The Y coordinate held in bits 19 to 31.
    pub open spec fn spec_tile_y(self) -> int {
        self.0 as int / 524288
    }

    /// The level of detail held in the six low bits, sign-extended.
    pub open spec fn spec_lod(self) -> int {
        let low = self.0 as int % 64;
        if low >= 32 {
            low - 64
        } else {
            low
        }
    }

    /// Packs a tile position and a level of detail into a key.
    #[inline]
    pub fn new(tile_position: Vector2I, lod: i8) -> (descriptor: TileDescriptor)
        requires
            valid_tile(tile_position.x as int, tile_position.y as int, lod as int),
        ensures
            descriptor.0 == encode_key(tile_position.x as int, tile_position.y as int, lod as int),
            descriptor.spec_tile_x() == tile_position.x,
            descriptor.spec_tile_y() == tile_position.y,
            descriptor.spec_lod() == lod,
    {
        let x: u32 = tile_position.x as u32;
        let y: u32 = tile_position.y as u32;
        let low: u32 = if lod < 0 {
            (lod as i32 + 64) as u32
        } else {
            lod as u32
        };
        let bits: u32 = (y << 19) | (x << 6) | (low & 0x3f);
        proof {
            assert(bits == y * 524288 + x * 64 + low) by (bit_vector)
                requires
                    x < 8192,
                    y < 8192,
                    low < 64,
                    bits == (y << 19) | (x << 6) | (low & 0x3f),
            ;
            lemma_encode_decode(tile_position.x as int, tile_position.y as int, lod as int);
        }
        TileDescriptor(bits)
    }

    /// The tile position that the key holds.
    #[inline]
    pub fn tile_position(self) -> (position: Vector2I)
        ensures
            position.x == self.spec_tile_x(),
            position.y == self.spec_tile_y(),
            0 <= position.x < 8192,
            0 <= position.y < 8192,
    {
        let key: u32 = self.0;
        let x: u32 = (key >> 6) & 0x1fff;
        let y: u32 = key >> 19;
        proof {
            assert(x == (key / 64) % 8192 && y == key / 524288 && x < 8192 && y < 8192)
                by (bit_vector)
                requires
                    x == (key >> 6) & 0x1fff,
                    y == key >> 19,
            ;
        }
        Vector2I::new(x as i32, y as i32)
    }

    /// The level of detail that the key holds.
    #[inline]
    pub fn lod(self) -> (lod: i8)
        ensures
            lod == self.spec_lod(),
            -32 <= lod < 32,
    {
        let key: u32 = self.0;
        let low: u32 = key & 0x3f;
        proof {
            assert(low == key % 64 && low < 64) by (bit_vector)
                requires
                    low == key & 0x3f,
            ;
        }
        if low >= 32 {
            (low as i32 - 64) as i8
        } else {
            low as i8
        }
    }

    /// The seeded hash of the key, with wrap-around multiplies.
    #[inline]
    pub fn hash(self, seed: u32) -> (h: u32)
        ensures
            h == hash_key(self.0, seed),
    {
        let mut h: u32 = self.0;
        h = h ^ (h >> 16);
        h = h.wrapping_mul(0x85ebca6b);
        h = h ^ (h >> 13);
        h = h.wrapping_mul(0xc2b2ae35);
        h = h ^ (h >> 16);
        h ^ seed
    }
}

/// Decoding the key of a valid tile gives the tile back.
pub proof fn lemma_encode_decode(x: int, y: int, lod: int)
    requires
        valid_tile(x, y, lod),
    ensures
        0 <= encode_key(x, y, lod) <= u32::MAX,
        TileDescriptor(encode_key(x, y, lod) as u32).spec_tile_x() == x,
        TileDescriptor(encode_key(x, y, lod) as u32).spec_tile_y() == y,
        TileDescriptor(encode_key(x, y, lod) as u32).spec_lod() == lod,
{
    let low = lod_bits(lod);
    let key = encode_key(x, y, lod);
    assert(0 <= low < 64);
    assert(key == (y * 8192 + x) * 64 + low);
    assert(key / 64 == y * 8192 + x && key % 64 == low) by (nonlinear_arith)
        requires
            key == (y * 8192 + x) * 64 + low,
            0 <= low < 64,
    ;
    let upper = y * 8192 + x;
    assert(upper / 8192 == y && upper % 8192 == x) by (nonlinear_arith)
        requires
            upper == y * 8192 + x,
            0 <= x < 8192,
    ;
    assert(key / 524288 == (key / 64) / 8192) by (nonlinear_arith)
        requires
            key >= 0,
    ;
}

/// `x ^ (x >> 16)` gives different results for different `x`.
proof fn lemma_fold_16_injective(a: u32, b: u32)
    requires
        a ^ (a >> 16) == b ^ (b >> 16),
    ensures
        a == b,
{
    assert(a ^ (a >> 16) == b ^ (b >> 16) ==> a == b) by (bit_vector);
}

/// `x ^ (x >> 13)` gives different results for different `x`.
proof fn lemma_fold_13_injective(a: u32, b: u32)
    requires
        a ^ (a >> 13) == b ^ (b >> 13),
    ensures
        a == b,
{
    assert(a ^ (a >> 13) == b ^ (b >> 13) ==> a == b) by (bit_vector);
}

/// The first multiplier of the finaliser is odd, so the wrap-around
/// product with it is undone by the product with its inverse.
proof fn lemma_first_product_injective(a: u32, b: u32)
    requires
        a.wrapping_mul(0x85ebca6bu32) == b.wrapping_mul(0x85ebca6bu32),
    ensures
        a == b,
{
    assert(a.wrapping_mul(0x85ebca6bu32).wrapping_mul(0xa5cb9243u32) == a) by (bit_vector);
    assert(b.wrapping_mul(0x85ebca6bu32).wrapping_mul(0xa5cb9243u32) == b) by (bit_vector);
}

/// The same for the second multiplier.
proof fn lemma_second_product_injective(a: u32, b: u32)
    requires
        a.wrapping_mul(0xc2b2ae35u32) == b.wrapping_mul(0xc2b2ae35u32),
    ensures
        a == b,
{
    assert(a.wrapping_mul(0xc2b2ae35u32).wrapping_mul(0x7ed1b41du32) == a) by (bit_vector);
    assert(b.wrapping_mul(0xc2b2ae35u32).wrapping_mul(0x7ed1b41du32) == b) by (bit_vector);
}

/// Different keys have different hashes under one seed: every step of the
/// finaliser can be undone.
pub proof fn lemma_hash_injective(a: u32, b: u32, seed: u32)
    requires
        hash_key(a, seed) == hash_key(b, seed),
    ensures
        a == b,
{
    assert(mix_key(a) ^ seed == mix_key(b) ^ seed ==> mix_key(a) == mix_key(b)) by (bit_vector);
    let a1 = a ^ (a >> 16);
    let a2 = a1.wrapping_mul(0x85ebca6bu32);
    let a3 = a2 ^ (a2 >> 13);
    let a4 = a3.wrapping_mul(0xc2b2ae35u32);
    let b1 = b ^ (b >> 16);
    let b2 = b1.wrapping_mul(0x85ebca6bu32);
    let b3 = b2 ^ (b2 >> 13);
    let b4 = b3.wrapping_mul(0xc2b2ae35u32);
    lemma_fold_16_injective(a4, b4);
    lemma_second_product_injective(a3, b3);
    lemma_fold_13_injective(a2, b2);
    lemma_first_product_injective(a1, b1);
    lemma_fold_16_injective(a, b);
}

/// Among 2^31 buckets no three keys share a bucket: two keys that hash
/// to one bucket under some seed differ in the top bit of their hashes
/// alone, and so do under every seed.
pub proof fn lemma_no_three_in_a_bucket(a: u32, b: u32, c: u32, seed_a: u32, seed_b: u32)
    requires
        hash_key(a, seed_a) % 0x8000_0000u32 == hash_key(b, seed_a) % 0x8000_0000u32,
        hash_key(b, seed_b) % 0x8000_0000u32 == hash_key(c, seed_b) % 0x8000_0000u32,
    ensures
        a == b || b == c || a == c,
{
    let x = mix_key(a);
    let y = mix_key(b);
    let z = mix_key(c);
    assert((x ^ seed_a) % 0x8000_0000u32 == (y ^ seed_a) % 0x8000_0000u32 && (y ^ seed_b)
        % 0x8000_0000u32 == (z ^ seed_b) % 0x8000_0000u32 ==> x == y || y == z || x == z)
        by (bit_vector);
    if x == y {
        lemma_hash_injective(a, b, 0);
        assert(x ^ 0u32 == y ^ 0u32);
    } else if y == z {
        lemma_hash_injective(b, c, 0);
    } else {
        lemma_hash_injective(a, c, 0);
    }
}

} // verus!
