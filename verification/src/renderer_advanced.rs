//! What the sampling path reads back from the GPU and what it sends there:
//! the tiles that a feedback pass saw, and the directory laid out as the
//! texels of a metadata texture.

use vstd::prelude::*;
use crate::geometry::{RectI, Vector2I};
use crate::hash_table::{TileHashEntry, TileHashTable};
use crate::manager2d::{
    is_trace, miss_requests, misses, requested_all, TileRequest, VirtualTextureManager2D,
};
use crate::texture::{tiles_along, RequestResult, VirtualTexture};
use crate::tile::{encode_key, valid_tile, TileDescriptor};

verus! {

/// One texel of the feedback pass, as integers: the tile that the fragment
/// sampled, and whether the fragment was covered at all.
#[derive(Clone, Copy, Debug, PartialEq, Eq, Structural)]
pub struct FeedbackTexel {
    pub tile_x: i32,
    pub tile_y: i32,
    pub lod: i8,
    pub covered: bool,
}

impl FeedbackTexel {
    /// Whether the texel asks for a tile: it is covered and its tile has no negative coordinate.
    pub open spec fn asks(self) -> bool {
        self.covered && self.tile_x >= 0 && self.tile_y >= 0
    }

    /// The key of the tile that the texel asks for.
    pub open spec fn key(self) -> TileDescriptor {
        TileDescriptor(encode_key(self.tile_x as int, self.tile_y as int, self.lod as int) as u32)
    }
}

/// The keys that the texels ask for, in the order of the texels.
pub open spec fn feedback_keys(texels: Seq<FeedbackTexel>) -> Seq<TileDescriptor>
    decreases texels.len(),
{
    if texels.len() == 0 {
        Seq::empty()
    } else if texels.last().asks() {
        feedback_keys(texels.drop_last()).push(texels.last().key())
    } else {
        feedback_keys(texels.drop_last())
    }
}

/// Requests the tile of every texel that asks for one, in order, and
/// appends a request to `needed_tiles` for each miss.
pub fn request_feedback_tiles(
    texture: &mut VirtualTexture,
    texels: &Vec<FeedbackTexel>,
    needed_tiles: &mut Vec<TileRequest>,
)
    requires
        old(texture).wf(),
        forall|i: int|
            0 <= i < texels@.len() && (#[trigger] texels@[i]).asks() ==> valid_tile(
                texels@[i].tile_x as int,
                texels@[i].tile_y as int,
                texels@[i].lod as int,
            ),
    ensures
        final(texture).wf(),
        final(needed_tiles)@.len() >= old(needed_tiles)@.len(),
        final(needed_tiles)@.subrange(0, old(needed_tiles)@.len() as int) == old(needed_tiles)@,
        requested_all(
            *old(texture),
            feedback_keys(texels@),
            *final(texture),
            final(needed_tiles)@.subrange(
                old(needed_tiles)@.len() as int,
                final(needed_tiles)@.len() as int,
            ),
        ),
{
    let ghost start = needed_tiles@.len() as int;
    let ghost mut states: Seq<VirtualTexture> = seq![*texture];
    let ghost mut results: Seq<RequestResult> = Seq::empty();
    let mut index: usize = 0;
    proof {
        assert(texels@.subrange(0, 0) =~= Seq::<FeedbackTexel>::empty());
        assert(needed_tiles@.subrange(start, start) =~= Seq::<TileRequest>::empty());
        assert(needed_tiles@.subrange(0, start) =~= needed_tiles@);
    }
    while index < texels.len()
        invariant
            index <= texels@.len(),
            texture.wf(),
            forall|i: int|
                0 <= i < texels@.len() && (#[trigger] texels@[i]).asks() ==> valid_tile(
                    texels@[i].tile_x as int,
                    texels@[i].tile_y as int,
                    texels@[i].lod as int,
                ),
            start == old(needed_tiles)@.len(),
            needed_tiles@.len() >= start,
            needed_tiles@.subrange(0, start) == old(needed_tiles)@,
            is_trace(states, feedback_keys(texels@.subrange(0, index as int)), results),
            states[0] == *old(texture),
            states.last() == *texture,
            needed_tiles@.subrange(start, needed_tiles@.len() as int) == misses(
                feedback_keys(texels@.subrange(0, index as int)),
                results,
            ),
        decreases texels@.len() - index,
    {
        let pixel = texels[index];
        let ghost done = texels@.subrange(0, index as int);
        let ghost more = texels@.subrange(0, index + 1);
        proof {
            assert(more.drop_last() =~= done);
            assert(more.last() == pixel);
        }
        if pixel.covered && pixel.tile_x >= 0 && pixel.tile_y >= 0 {
            let tile_origin = Vector2I::new(pixel.tile_x, pixel.tile_y);
            let descriptor = TileDescriptor::new(tile_origin, pixel.lod);
            let ghost earlier = needed_tiles@;
            let result = texture.request_tile(descriptor);
            if let RequestResult::CacheMiss(address) = result {
                needed_tiles.push(TileRequest { descriptor, address });
            }
            proof {
                crate::manager2d::lemma_trace_grows(
                    states,
                    feedback_keys(done),
                    results,
                    descriptor,
                    *texture,
                    result,
                );
                assert(needed_tiles@.subrange(start, needed_tiles@.len() as int)
                    =~= earlier.subrange(start, earlier.len() as int) + miss_requests(
                    descriptor,
                    result,
                ));
                assert(needed_tiles@.subrange(0, start) =~= earlier.subrange(0, start));
                states = states.push(*texture);
                results = results.push(result);
            }
        }
        index = index + 1;
    }
    proof {
        assert(texels@.subrange(0, texels@.len() as int) =~= texels@);
    }
}

/// The quotient of `a` by `b`, rounded toward zero.
pub open spec fn quotient_toward_zero(a: int, b: int) -> int {
    let magnitude = (if a < 0 {
        -a
    } else {
        a
    }) / (if b < 0 {
        -b
    } else {
        b
    });
    if (a < 0) == (b < 0) {
        magnitude
    } else {
        -magnitude
    }
}

/// The viewport of the feedback pass: the viewport, smaller by `scale_factor` along each axis.
pub fn derivatives_viewport(viewport_size: Vector2I, scale_factor: i32) -> (viewport: RectI)
    requires
        scale_factor != 0,
        scale_factor == -1 ==> viewport_size.x > i32::MIN && viewport_size.y > i32::MIN,
    ensures
        viewport.origin == (Vector2I { x: 0, y: 0 }),
        viewport.size.x == quotient_toward_zero(viewport_size.x as int, scale_factor as int),
        viewport.size.y == quotient_toward_zero(viewport_size.y as int, scale_factor as int),
{
    let derivatives_viewport_size = Vector2I::new(
        divide_toward_zero(viewport_size.x, scale_factor),
        divide_toward_zero(viewport_size.y, scale_factor),
    );
    RectI::new(Vector2I::splat(0), derivatives_viewport_size)
}

/// The quotient of `a` by `b`, rounded toward zero.
fn divide_toward_zero(a: i32, b: i32) -> (quotient: i32)
    requires
        b != 0,
        b == -1 ==> a > i32::MIN,
    ensures
        quotient == quotient_toward_zero(a as int, b as int),
{
    let dividend: i64 = if a < 0 {
        -(a as i64)
    } else {
        a as i64
    };
    let divisor: i64 = if b < 0 {
        -(b as i64)
    } else {
        b as i64
    };
    let magnitude: i64 = dividend / divisor;
    assert(magnitude <= dividend && (divisor >= 2 ==> 2 * magnitude <= dividend))
        by (nonlinear_arith)
        requires
            magnitude == dividend / divisor,
            dividend >= 0,
            divisor >= 1,
    ;
    if (a < 0) == (b < 0) {
        magnitude as i32
    } else {
        (-magnitude) as i32
    }
}

/// The directory as the texels of the metadata texture, and the range of
/// the levels of detail in it.
pub struct Metadata {
    /// Four rows of as many texels as a subtable has buckets, four
    /// channels each, row by row.
    pub texels: Vec<i32>,
    /// The least level of detail in the directory, 127 if it is empty.
    pub min_lod: i8,
    /// The greatest level of detail in the directory, -128 if it is empty.
    pub max_lod: i8,
}

/// One channel of the texel of a bucket. In the rows of kind 0 the texel
/// of an entry holds the tile's X, Y and level of detail, and zero; in the
/// rows of kind 1 it holds the rectangle of the tile in the cache texture,
/// in pixels and without the gutter: left, top, right, bottom. The texels
/// of an empty bucket are zero.
pub open spec fn texel_channel(
    bucket: Option<TileHashEntry>,
    kind: int,
    channel: int,
    tiles_across: int,
    tile_size: int,
) -> int {
    match bucket {
        None => 0,
        Some(entry) => {
            let left = (entry.address.0 as int % tiles_across) * (tile_size + 2) + 1;
            let top = (entry.address.0 as int / tiles_across) * (tile_size + 2) + 1;
            if kind == 0 {
                if channel == 0 {
                    entry.descriptor.spec_tile_x()
                } else if channel == 1 {
                    entry.descriptor.spec_tile_y()
                } else if channel == 2 {
                    entry.descriptor.spec_lod()
                } else {
                    0
                }
            } else {
                if channel == 0 {
                    left
                } else if channel == 1 {
                    top
                } else if channel == 2 {
                    left + tile_size
                } else {
                    top + tile_size
                }
            }
        },
    }
}

/// The value at `index` of the metadata of a directory with the subtables
/// `first` and `second`: rows 0 and 1 are for `first`, rows 2 and 3 for
/// `second`; an even row is of kind 0, an odd row of kind 1.
pub open spec fn metadata_value(
    first: Seq<Option<TileHashEntry>>,
    second: Seq<Option<TileHashEntry>>,
    tiles_across: int,
    tile_size: int,
    index: int,
) -> int {
    let stride = 4 * first.len() as int;
    let row = index / stride;
    let bucket = (index % stride) / 4;
    let side = if row < 2 {
        first
    } else {
        second
    };
    texel_channel(side[bucket], row % 2, index % 4, tiles_across, tile_size)
}

/// The least level of detail among the entries of `buckets`, at most `bound`.
pub open spec fn least_lod(buckets: Seq<Option<TileHashEntry>>, bound: int) -> int
    decreases buckets.len(),
{
    if buckets.len() == 0 {
        bound
    } else {
        let rest = least_lod(buckets.drop_last(), bound);
        match buckets.last() {
            Some(entry) => if entry.descriptor.spec_lod() < rest {
                entry.descriptor.spec_lod()
            } else {
                rest
            },
            None => rest,
        }
    }
}

/// The greatest level of detail among the entries of `buckets`, at least `bound`.
pub open spec fn greatest_lod(buckets: Seq<Option<TileHashEntry>>, bound: int) -> int
    decreases buckets.len(),
{
    if buckets.len() == 0 {
        bound
    } else {
        let rest = greatest_lod(buckets.drop_last(), bound);
        match buckets.last() {
            Some(entry) => if entry.descriptor.spec_lod() > rest {
                entry.descriptor.spec_lod()
            } else {
                rest
            },
            None => rest,
        }
    }
}

/// Where the channel `channel` of the texel of bucket `bucket` in row `row` lies.
proof fn lemma_texel_index(buckets: int, row: int, bucket: int, channel: int)
    requires
        0 <= row,
        0 <= bucket < buckets,
        0 <= channel < 4,
    ensures
        ({
            let stride = 4 * buckets;
            let index = row * stride + 4 * bucket + channel;
            &&& index / stride == row
            &&& (index % stride) / 4 == bucket
            &&& index % 4 == channel
            &&& index < (row + 1) * stride
        }),
{
    let stride = 4 * buckets;
    let within = 4 * bucket + channel;
    let index = row * stride + within;
    assert(0 <= within < stride);
    vstd::arithmetic::div_mod::lemma_fundamental_div_mod_converse(index, stride, row, within);
    vstd::arithmetic::div_mod::lemma_fundamental_div_mod_converse(within, 4, bucket, channel);
    assert(index == 4 * (row * buckets + bucket) + channel) by (nonlinear_arith)
        requires
            index == row * (4 * buckets) + (4 * bucket + channel),
    ;
    vstd::arithmetic::div_mod::lemma_fundamental_div_mod_converse(
        index,
        4,
        row * buckets + bucket,
        channel,
    );
    assert((row + 1) * stride == row * stride + stride) by (nonlinear_arith);
}

/// An entry of the directory of a well-formed cache has an address of the cache.
proof fn lemma_bucket_address(
    texture: VirtualTexture,
    table: TileHashTable,
    side: int,
    bucket: int,
    entry: TileHashEntry,
)
    requires
        texture.wf(),
        table.wf(),
        table@ == texture.directory(),
        side == 0 || side == 1,
        0 <= bucket < table.spec_bucket_size(),
        table.side(side).slots()[bucket] == Some(entry),
    ensures
        entry.address.0 < texture.spec_cache_size(),
{
    assert(table.side(side).bucket_of(entry.descriptor) == bucket);
    assert(table.side(side).holds(entry.descriptor));
    assert(table@.contains_key(entry.descriptor));
    assert(table@[entry.descriptor] == entry.address);
}

/// The four channels of the texel of bucket `bucket_index` of a subtable
/// of the directory, in a row of kind `kind`.
fn texel_of(
    texture: &VirtualTexture,
    table: &TileHashTable,
    side: usize,
    kind: usize,
    bucket_index: usize,
) -> (channels: [i32; 4])
    requires
        texture.wf(),
        table.wf(),
        table@ == texture.directory(),
        side < 2,
        kind < 2,
        bucket_index < table.spec_bucket_size(),
    ensures
        forall|channel: int|
            0 <= channel < 4 ==> #[trigger] channels[channel] == texel_channel(
                table.side(side as int).slots()[bucket_index as int],
                kind as int,
                channel,
                tiles_along(texture.spec_cache_texture_size().x, texture.spec_tile_size()),
                texture.spec_tile_size() as int,
            ),
{
    let tile_size: u32 = texture.tile_size();
    let backing: u32 = texture.tile_backing_size();
    match table.subtable(side).bucket(bucket_index) {
        None => [0, 0, 0, 0],
        Some(entry) => {
            if kind == 0 {
                let tile_position = entry.descriptor.tile_position();
                let tile_lod = entry.descriptor.lod();
                [tile_position.x, tile_position.y, tile_lod as i32, 0]
            } else {
                proof {
                    lemma_bucket_address(*texture, *table, side as int, bucket_index as int, entry);
                }
                let coords = texture.address_to_tile_coords(entry.address);
                proof {
                    crate::texture::lemma_slot_in_texture(*texture, entry.address.0 as int);
                }
                let left: i32 = coords.x * (backing as i32) + 1;
                let top: i32 = coords.y * (backing as i32) + 1;
                [left, top, left + tile_size as i32, top + tile_size as i32]
            }
        },
    }
}

/// The least and the greatest level of detail in the directory.
fn lod_range(table: &TileHashTable) -> (range: (i8, i8))
    requires
        table.wf(),
    ensures
        range.0 == least_lod(table.first_table().slots() + table.second_table().slots(), 127),
        range.1 == greatest_lod(
            table.first_table().slots() + table.second_table().slots(),
            -128,
        ),
{
    let bucket_count: usize = table.bucket_size();
    let ghost joined = table.first_table().slots() + table.second_table().slots();
    let mut min_lod: i8 = i8::MAX;
    let mut max_lod: i8 = i8::MIN;
    let mut side: usize = 0;
    proof {
        assert(joined.subrange(0, 0) =~= Seq::<Option<TileHashEntry>>::empty());
    }
    while side < 2
        invariant
            side <= 2,
            table.wf(),
            bucket_count == table.spec_bucket_size(),
            joined == table.first_table().slots() + table.second_table().slots(),
            joined.len() == 2 * bucket_count,
            min_lod == least_lod(joined.subrange(0, side * bucket_count), 127),
            max_lod == greatest_lod(joined.subrange(0, side * bucket_count), -128),
        decreases 2 - side,
    {
        let subtable = table.subtable(side);
        let mut bucket_index: usize = 0;
        while bucket_index < bucket_count
            invariant
                side < 2,
                bucket_index <= bucket_count,
                table.wf(),
                bucket_count == table.spec_bucket_size(),
                *subtable == table.side(side as int),
                joined == table.first_table().slots() + table.second_table().slots(),
                joined.len() == 2 * bucket_count,
                min_lod == least_lod(
                    joined.subrange(0, side * bucket_count + bucket_index),
                    127,
                ),
                max_lod == greatest_lod(
                    joined.subrange(0, side * bucket_count + bucket_index),
                    -128,
                ),
            decreases bucket_count - bucket_index,
        {
            let bucket = subtable.bucket(bucket_index);
            proof {
                let position = side * bucket_count + bucket_index;
                assert(position == if side == 0 {
                    bucket_index as int
                } else {
                    bucket_count + bucket_index
                }) by (nonlinear_arith)
                    requires
                        position == side * bucket_count + bucket_index,
                        side == 0 || side == 1,
                ;
                assert(table.first_table().slots().len() == bucket_count);
                assert(table.second_table().slots().len() == bucket_count);
                assert(joined[position] == bucket);
                let longer = joined.subrange(0, position + 1);
                assert(longer.drop_last() =~= joined.subrange(0, position));
                assert(longer.last() == bucket);
            }
            if let Some(entry) = bucket {
                let tile_lod = entry.descriptor.lod();
                if tile_lod < min_lod {
                    min_lod = tile_lod;
                }
                if tile_lod > max_lod {
                    max_lod = tile_lod;
                }
            }
            bucket_index = bucket_index + 1;
        }
        proof {
            assert(side * bucket_count + bucket_count == (side + 1) * bucket_count)
                by (nonlinear_arith);
        }
        side = side + 1;
    }
    proof {
        assert(joined.subrange(0, 2 * bucket_count) =~= joined);
    }
    (min_lod, max_lod)
}

/// Packs the directory of `texture` for the metadata texture.
pub fn pack_metadata(texture: &VirtualTexture) -> (metadata: Metadata)
    requires
        texture.wf(),
        16 * texture.spec_bucket_size() <= usize::MAX,
    ensures
        metadata.texels@.len() == 16 * texture.spec_bucket_size(),
        forall|index: int|
            0 <= index < metadata.texels@.len() ==> #[trigger] metadata.texels@[index]
                == metadata_value(
                texture.table().first_table().slots(),
                texture.table().second_table().slots(),
                tiles_along(texture.spec_cache_texture_size().x, texture.spec_tile_size()),
                texture.spec_tile_size() as int,
                index,
            ),
        metadata.min_lod == least_lod(
            texture.table().first_table().slots() + texture.table().second_table().slots(),
            127,
        ),
        metadata.max_lod == greatest_lod(
            texture.table().first_table().slots() + texture.table().second_table().slots(),
            -128,
        ),
{
    let table = texture.directory_table();
    let bucket_count: usize = table.bucket_size();
    let ghost first = table.first_table().slots();
    let ghost second = table.second_table().slots();
    let ghost across = tiles_along(texture.spec_cache_texture_size().x, texture.spec_tile_size());
    let ghost tile_size = texture.spec_tile_size() as int;
    let ghost stride = 4 * bucket_count as int;
    let mut texels: Vec<i32> = Vec::new();
    let mut row: usize = 0;
    while row < 4
        invariant
            row <= 4,
            texture.wf(),
            table.wf(),
            table@ == texture.directory(),
            bucket_count == table.spec_bucket_size(),
            first == table.first_table().slots(),
            second == table.second_table().slots(),
            first.len() == bucket_count,
            16 * bucket_count <= usize::MAX,
            tile_size == texture.spec_tile_size(),
            across == tiles_along(texture.spec_cache_texture_size().x, texture.spec_tile_size()),
            stride == 4 * bucket_count,
            texels@.len() == row * stride,
            forall|index: int|
                0 <= index < texels@.len() ==> #[trigger] texels@[index] == metadata_value(
                    first,
                    second,
                    across,
                    tile_size,
                    index,
                ),
        decreases 4 - row,
    {
        let mut bucket_index: usize = 0;
        proof {
            assert(row * stride + stride == (row + 1) * stride) by (nonlinear_arith);
        }
        while bucket_index < bucket_count
            invariant
                row < 4,
                bucket_index <= bucket_count,
                texture.wf(),
                table.wf(),
                table@ == texture.directory(),
                bucket_count == table.spec_bucket_size(),
                first == table.first_table().slots(),
                second == table.second_table().slots(),
                first.len() == bucket_count,
                16 * bucket_count <= usize::MAX,
                tile_size == texture.spec_tile_size(),
                across == tiles_along(
                    texture.spec_cache_texture_size().x,
                    texture.spec_tile_size(),
                ),
                stride == 4 * bucket_count,
                texels@.len() == row * stride + 4 * bucket_index,
                forall|index: int|
                    0 <= index < texels@.len() ==> #[trigger] texels@[index] == metadata_value(
                        first,
                        second,
                        across,
                        tile_size,
                        index,
                    ),
            decreases bucket_count - bucket_index,
        {
            let channels = texel_of(texture, table, row / 2, row % 2, bucket_index);
            let ghost base = row * stride + 4 * bucket_index;
            let ghost before = texels@;
            texels.push(channels[0]);
            texels.push(channels[1]);
            texels.push(channels[2]);
            texels.push(channels[3]);
            proof {
                assert forall|index: int| 0 <= index < texels@.len() implies #[trigger] texels@[index]
                    == metadata_value(first, second, across, tile_size, index) by {
                    if index < base {
                        assert(texels@[index] == before[index]);
                    } else {
                        let channel = index - base;
                        lemma_texel_index(
                            bucket_count as int,
                            row as int,
                            bucket_index as int,
                            channel,
                        );
                        assert(texels@[index] == channels[channel]);
                    }
                }
            }
            bucket_index = bucket_index + 1;
        }
        row = row + 1;
    }
    let range = lod_range(table);
    Metadata { texels, min_lod: range.0, max_lod: range.1 }
}

/// The integer that the shader gets for an unsigned 32-bit value, such as
/// a seed: the value read as a two's-complement number.
pub open spec fn signed_value(value: u32) -> int {
    if value >= 0x8000_0000 {
        value - 0x1_0000_0000
    } else {
        value as int
    }
}

/// What the sampling shader needs in order to look a tile up as the directory does.
#[derive(Clone, Copy, Debug, PartialEq, Eq, Structural)]
pub struct RenderUniformValues {
    pub cache_seed_a: i32,
    pub cache_seed_b: i32,
    pub cache_size: i32,
    pub tile_size: u32,
    pub min_lod: i8,
    pub max_lod: i8,
}

/// The part of the sampling path that needs no GPU: the cache, the scale
/// of the feedback pass, and the range of the levels of detail that the
/// metadata held when it was last packed.
pub struct AdvancedRenderer {
    pub manager: VirtualTextureManager2D,
    pub derivatives_viewport_scale_factor: i32,
    pub min_lod: i8,
    pub max_lod: i8,
}

impl AdvancedRenderer {
    pub fn new(manager: VirtualTextureManager2D, derivatives_viewport_scale_factor: i32) -> (renderer:
        AdvancedRenderer)
        ensures
            renderer.manager == manager,
            renderer.derivatives_viewport_scale_factor == derivatives_viewport_scale_factor,
            renderer.min_lod == 127,
            renderer.max_lod == -128,
    {
        AdvancedRenderer {
            manager,
            derivatives_viewport_scale_factor,
            min_lod: i8::MAX,
            max_lod: i8::MIN,
        }
    }

    #[inline]
    pub fn manager(&self) -> (manager: &VirtualTextureManager2D)
        ensures
            *manager == self.manager,
    {
        &self.manager
    }

    #[inline]
    pub fn manager_mut(&mut self) -> (manager: &mut VirtualTextureManager2D)
        ensures
            *manager == old(self).manager,
            final(self).manager == *final(manager),
            final(self).derivatives_viewport_scale_factor == old(
                self,
            ).derivatives_viewport_scale_factor,
            final(self).min_lod == old(self).min_lod,
            final(self).max_lod == old(self).max_lod,
    {
        &mut self.manager
    }

    /// Requests the tile of every texel of the feedback pass that asks for
    /// one, in order, and appends a request to `needed_tiles` for each miss.
    pub fn request_needed_tiles(
        &mut self,
        texels: &Vec<FeedbackTexel>,
        needed_tiles: &mut Vec<TileRequest>,
    )
        requires
            old(self).manager.texture.wf(),
            forall|i: int|
                0 <= i < texels@.len() && (#[trigger] texels@[i]).asks() ==> valid_tile(
                    texels@[i].tile_x as int,
                    texels@[i].tile_y as int,
                    texels@[i].lod as int,
                ),
        ensures
            final(self).manager.texture.wf(),
            final(self).manager.viewport_size == old(self).manager.viewport_size,
            final(self).derivatives_viewport_scale_factor == old(
                self,
            ).derivatives_viewport_scale_factor,
            final(self).min_lod == old(self).min_lod,
            final(self).max_lod == old(self).max_lod,
            final(needed_tiles)@.len() >= old(needed_tiles)@.len(),
            final(needed_tiles)@.subrange(0, old(needed_tiles)@.len() as int) == old(
                needed_tiles,
            )@,
            requested_all(
                old(self).manager.texture,
                feedback_keys(texels@),
                final(self).manager.texture,
                final(needed_tiles)@.subrange(
                    old(needed_tiles)@.len() as int,
                    final(needed_tiles)@.len() as int,
                ),
            ),
    {
        request_feedback_tiles(&mut self.manager.texture, texels, needed_tiles);
    }

    /// Packs the directory for the metadata texture and keeps the range of
    /// the levels of detail in it.
    pub fn update_metadata(&mut self) -> (texels: Vec<i32>)
        requires
            old(self).manager.texture.wf(),
            16 * old(self).manager.texture.spec_bucket_size() <= usize::MAX,
        ensures
            final(self).manager == old(self).manager,
            final(self).derivatives_viewport_scale_factor == old(
                self,
            ).derivatives_viewport_scale_factor,
            texels@.len() == 16 * old(self).manager.texture.spec_bucket_size(),
            forall|index: int|
                0 <= index < texels@.len() ==> #[trigger] texels@[index] == metadata_value(
                    old(self).manager.texture.table().first_table().slots(),
                    old(self).manager.texture.table().second_table().slots(),
                    tiles_along(
                        old(self).manager.texture.spec_cache_texture_size().x,
                        old(self).manager.texture.spec_tile_size(),
                    ),
                    old(self).manager.texture.spec_tile_size() as int,
                    index,
                ),
            final(self).min_lod == least_lod(
                old(self).manager.texture.table().first_table().slots() + old(
                    self,
                ).manager.texture.table().second_table().slots(),
                127,
            ),
            final(self).max_lod == greatest_lod(
                old(self).manager.texture.table().first_table().slots() + old(
                    self,
                ).manager.texture.table().second_table().slots(),
                -128,
            ),
    {
        let metadata = pack_metadata(&self.manager.texture);
        self.min_lod = metadata.min_lod;
        self.max_lod = metadata.max_lod;
        metadata.texels
    }

    /// What the sampling shader gets: the seeds and the bucket count of the
    /// directory, the tile size, and the range of the levels of detail.
    pub fn render_uniforms(&self) -> (values: RenderUniformValues)
        requires
            self.manager.texture.wf(),
        ensures
            values.cache_seed_a == signed_value(
                self.manager.texture.table().first_table().spec_seed(),
            ),
            values.cache_seed_b == signed_value(
                self.manager.texture.table().second_table().spec_seed(),
            ),
            values.cache_size == signed_value(self.manager.texture.spec_bucket_size() as u32),
            values.tile_size == self.manager.texture.spec_tile_size(),
            values.min_lod == self.min_lod,
            values.max_lod == self.max_lod,
    {
        let table = self.manager.texture.directory_table();
        let bucket_size: usize = table.bucket_size();
        proof {
            crate::hash_table::lemma_power_of_two_bound(bucket_size as u32);
        }
        RenderUniformValues {
            cache_seed_a: to_signed(table.subtable(0).seed()),
            cache_seed_b: to_signed(table.subtable(1).seed()),
            cache_size: to_signed(bucket_size as u32),
            tile_size: self.manager.texture.tile_size(),
            min_lod: self.min_lod,
            max_lod: self.max_lod,
        }
    }

    /// The viewport of the feedback pass: the viewport, smaller by the
    /// scale factor along each axis.
    pub fn derivatives_viewport(&self) -> (viewport: RectI)
        requires
            self.derivatives_viewport_scale_factor != 0,
            self.derivatives_viewport_scale_factor == -1 ==> self.manager.viewport_size.x
                > i32::MIN && self.manager.viewport_size.y > i32::MIN,
        ensures
            viewport.origin == (Vector2I { x: 0, y: 0 }),
            viewport.size.x == quotient_toward_zero(
                self.manager.viewport_size.x as int,
                self.derivatives_viewport_scale_factor as int,
            ),
            viewport.size.y == quotient_toward_zero(
                self.manager.viewport_size.y as int,
                self.derivatives_viewport_scale_factor as int,
            ),
    {
        derivatives_viewport(self.manager.viewport_size(), self.derivatives_viewport_scale_factor)
    }
}

/// An unsigned 32-bit value read as a two's-complement number.
fn to_signed(value: u32) -> (signed: i32)
    ensures
        signed == signed_value(value),
{
    if value >= 0x8000_0000 {
        (value as i64 - 0x1_0000_0000) as i32
    } else {
        value as i32
    }
}

} // verus!
