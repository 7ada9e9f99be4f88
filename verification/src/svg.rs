//! What a rasterizer worker and the thread that feeds it compute around
//! the rasterizer itself: where a tile's pixels go in the cache texture,
//! the transform that brings a tile under the rasterizer, and the copy of
//! the rasterizer's pixels into the byte order that the cache texture has.

use vstd::prelude::*;
use crate::geometry::{RectI, Vector2I};
use crate::manager2d::TileRequest;
use crate::stack::ConcurrentStack;
use crate::texture::{backing_size, tiles_along, TileCacheStatus, VirtualTexture};
use crate::tile::TileDescriptor;

verus! {

/// A tile to rasterize, and the column and row of its slot in the cache texture.
#[derive(Clone, Copy, Debug, PartialEq, Eq, Structural)]
pub struct TileRasterRequest {
    pub tile_request: TileRequest,
    pub tile_origin: Vector2I,
}

/// A tile that a worker has rasterized: the request and its pixels, four bytes each.
pub struct RasterizedTile {
    pub tile_request: TileRequest,
    pub tile_origin: Vector2I,
    pub new_tile_pixels: Vec<u8>,
}

/// The transform that brings a tile under the rasterizer: scale by two to
/// the power of `lod`, then move by `(offset_x, offset_y)`.
#[derive(Clone, Copy, Debug, PartialEq, Eq, Structural)]
pub struct TileTransform {
    pub lod: i8,
    pub offset_x: i64,
    pub offset_y: i64,
}

/// The transform for the tile `descriptor`: the scene is scaled to the
/// tile's level of detail and moved so that the tile's corner comes to lie
/// at (1, 1), behind the gutter.
pub fn transform_for_tile_descriptor(descriptor: &TileDescriptor, tile_size: u32) -> (transform:
    TileTransform)
    ensures
        transform.lod == descriptor.spec_lod(),
        transform.offset_x == 1 - descriptor.spec_tile_x() * tile_size,
        transform.offset_y == 1 - descriptor.spec_tile_y() * tile_size,
{
    let position = descriptor.tile_position();
    assert(position.x * tile_size <= 8191 * 0xffff_ffff && position.y * tile_size <= 8191
        * 0xffff_ffff) by (nonlinear_arith)
        requires
            0 <= position.x <= 8191,
            0 <= position.y <= 8191,
            0 <= tile_size <= 0xffff_ffff,
    ;
    assert(position.x * tile_size >= 0 && position.y * tile_size >= 0) by (nonlinear_arith)
        requires
            0 <= position.x,
            0 <= position.y,
            0 <= tile_size,
    ;
    TileTransform {
        lod: descriptor.lod(),
        offset_x: 1 - position.x as i64 * tile_size as i64,
        offset_y: 1 - position.y as i64 * tile_size as i64,
    }
}

/// The channel of the source pixel that goes to channel `channel` of the
/// destination: red and blue change places.
pub open spec fn source_channel(channel: int) -> int {
    if channel == 0 {
        2
    } else if channel == 2 {
        0
    } else {
        channel
    }
}

/// Whether the images are large enough for the copy: both rectangles lie
/// in their image, with every row inside the stride.
pub open spec fn blit_fits(
    dest_len: int,
    dest_stride: int,
    dest_rect: RectI,
    src_len: int,
    src_stride: int,
    src_origin: Vector2I,
) -> bool {
    dest_rect.columns() == 0 || dest_rect.rows() == 0 || {
        &&& dest_rect.origin.x >= 0
        &&& dest_rect.origin.y >= 0
        &&& src_origin.x >= 0
        &&& src_origin.y >= 0
        &&& (dest_rect.origin.x + dest_rect.size.x) * 4 <= dest_stride
        &&& (dest_rect.origin.y + dest_rect.size.y) * dest_stride <= dest_len
        &&& (src_origin.x + dest_rect.size.x) * 4 <= src_stride
        &&& (src_origin.y + dest_rect.size.y) * src_stride <= src_len
    }
}

/// Whether byte `index` of the destination lies in one of the first
/// `rows` rows of the rectangle, or in row `rows` among its first `pixels` pixels.
pub open spec fn blit_covers(
    index: int,
    dest_stride: int,
    dest_rect: RectI,
    rows: int,
    pixels: int,
) -> bool {
    let row = index / dest_stride - dest_rect.origin.y;
    let byte = index % dest_stride - dest_rect.origin.x * 4;
    &&& 0 <= byte < dest_rect.columns() * 4
    &&& 0 <= row < rows || (row == rows && byte < pixels * 4)
}

/// The byte of the source that the copy puts at byte `index` of the destination.
pub open spec fn blit_source(
    index: int,
    dest_stride: int,
    dest_rect: RectI,
    src_stride: int,
    src_origin: Vector2I,
) -> int {
    let row = index / dest_stride - dest_rect.origin.y;
    let byte = index % dest_stride - dest_rect.origin.x * 4;
    (src_origin.y + row) * src_stride + (src_origin.x + byte / 4) * 4 + source_channel(byte % 4)
}

/// The destination after the first `rows` rows of the rectangle and the
/// first `pixels` pixels of the next were copied.
pub open spec fn blitted(
    dest: Seq<u8>,
    dest_stride: int,
    dest_rect: RectI,
    src: Seq<u8>,
    src_stride: int,
    src_origin: Vector2I,
    rows: int,
    pixels: int,
) -> Seq<u8> {
    Seq::new(
        dest.len(),
        |index: int|
            if blit_covers(index, dest_stride, dest_rect, rows, pixels) {
                src[blit_source(index, dest_stride, dest_rect, src_stride, src_origin)]
            } else {
                dest[index]
            },
    )
}

/// Byte `channel` of pixel `column` in row `row` of an image lies in that row.
proof fn lemma_pixel_index(stride: int, row: int, column: int, channel: int)
    requires
        0 <= row,
        0 <= column,
        0 <= channel < 4,
        column * 4 + channel < stride,
    ensures
        (row * stride + column * 4 + channel) / stride == row,
        (row * stride + column * 4 + channel) % stride == column * 4 + channel,
        (column * 4 + channel) / 4 == column,
        (column * 4 + channel) % 4 == channel,
{
    let within = column * 4 + channel;
    vstd::arithmetic::div_mod::lemma_fundamental_div_mod_converse(
        row * stride + within,
        stride,
        row,
        within,
    );
    vstd::arithmetic::div_mod::lemma_fundamental_div_mod_converse(within, 4, column, channel);
}

/// Copies the pixels of a rectangle of `src` into the rectangle
/// `dest_rect` of `dest`, four bytes each, with the first and the third
/// byte of every pixel changing places. The rectangle of `src` has its
/// corner at `src_origin` and the size of `dest_rect`; the strides are in bytes.
pub fn blit(
    dest: &mut Vec<u8>,
    dest_stride: usize,
    dest_rect: RectI,
    src: &[u8],
    src_stride: usize,
    src_origin: Vector2I,
)
    requires
        blit_fits(
            old(dest)@.len() as int,
            dest_stride as int,
            dest_rect,
            src@.len() as int,
            src_stride as int,
            src_origin,
        ),
    ensures
        final(dest)@ == blitted(
            old(dest)@,
            dest_stride as int,
            dest_rect,
            src@,
            src_stride as int,
            src_origin,
            dest_rect.rows(),
            0,
        ),
{
    let ghost initial = dest@;
    let dest_len: usize = dest.len();
    let src_len: usize = src.len();
    if dest_rect.size.x <= 0 || dest_rect.size.y <= 0 {
        proof {
            assert(dest@ =~= blitted(
                initial,
                dest_stride as int,
                dest_rect,
                src@,
                src_stride as int,
                src_origin,
                dest_rect.rows(),
                0,
            )) by {
                assert(dest_rect.columns() * 4 == 0 || dest_rect.rows() == 0);
            }
        }
        return ;
    }
    let width: usize = dest_rect.size.x as usize;
    let height: usize = dest_rect.size.y as usize;
    let dest_x: usize = dest_rect.origin.x as usize;
    let dest_y: usize = dest_rect.origin.y as usize;
    let src_x: usize = src_origin.x as usize;
    let src_y: usize = src_origin.y as usize;
    proof {
        assert(dest_stride > 0 && src_stride > 0);
        assert(dest_y + height <= initial.len()) by (nonlinear_arith)
            requires
                (dest_y + height) * dest_stride <= initial.len(),
                dest_stride >= 1,
                dest_y + height >= 0,
        ;
        assert(src_y + height <= src@.len()) by (nonlinear_arith)
            requires
                (src_y + height) * src_stride <= src@.len(),
                src_stride >= 1,
                src_y + height >= 0,
        ;
    }
    let mut y: usize = 0;
    while y < height
        invariant
            y <= height,
            width == dest_rect.size.x,
            height == dest_rect.size.y,
            width > 0,
            dest_x == dest_rect.origin.x,
            dest_y == dest_rect.origin.y,
            src_x == src_origin.x,
            src_y == src_origin.y,
            dest@.len() == initial.len(),
            initial.len() == dest_len,
            src@.len() == src_len,
            (dest_x + width) * 4 <= dest_stride,
            (dest_y + height) * dest_stride <= initial.len(),
            (src_x + width) * 4 <= src_stride,
            (src_y + height) * src_stride <= src@.len(),
            dest_y + height <= initial.len(),
            src_y + height <= src@.len(),
            dest@ == blitted(
                initial,
                dest_stride as int,
                dest_rect,
                src@,
                src_stride as int,
                src_origin,
                y as int,
                0,
            ),
        decreases height - y,
    {
        proof {
            assert((dest_y + y) * dest_stride + dest_stride <= (dest_y + height) * dest_stride)
                by (nonlinear_arith)
                requires
                    y < height,
                    dest_stride >= 0,
            ;
            assert((src_y + y) * src_stride + src_stride <= (src_y + height) * src_stride)
                by (nonlinear_arith)
                requires
                    y < height,
                    src_stride >= 0,
            ;
            assert((dest_y + y) * dest_stride >= 0 && (src_y + y) * src_stride >= 0)
                by (nonlinear_arith)
                requires
                    dest_y + y >= 0,
                    src_y + y >= 0,
                    dest_stride >= 0,
                    src_stride >= 0,
            ;
        }
        let dest_start: usize = (dest_y + y) * dest_stride + dest_x * 4;
        let src_start: usize = (src_y + y) * src_stride + src_x * 4;
        let mut x: usize = 0;
        while x < width
            invariant
                y < height,
                x <= width,
                width == dest_rect.size.x,
                height == dest_rect.size.y,
                dest_x == dest_rect.origin.x,
                dest_y == dest_rect.origin.y,
                src_x == src_origin.x,
                src_y == src_origin.y,
                dest@.len() == initial.len(),
            initial.len() == dest_len,
            src@.len() == src_len,
                (dest_x + width) * 4 <= dest_stride,
                (src_x + width) * 4 <= src_stride,
                dest_start == (dest_y + y) * dest_stride + dest_x * 4,
                src_start == (src_y + y) * src_stride + src_x * 4,
                (dest_y + y) * dest_stride + dest_stride <= initial.len(),
                (src_y + y) * src_stride + src_stride <= src@.len(),
                (dest_y + y) * dest_stride >= 0,
                (src_y + y) * src_stride >= 0,
                dest@ == blitted(
                    initial,
                    dest_stride as int,
                    dest_rect,
                    src@,
                    src_stride as int,
                    src_origin,
                    y as int,
                    x as int,
                ),
            decreases width - x,
        {
            let dest_offset: usize = dest_start + x * 4;
            let src_offset: usize = src_start + x * 4;
            let ghost before = dest@;
            let blue: u8 = src[src_offset + 2];
            let green: u8 = src[src_offset + 1];
            let red: u8 = src[src_offset];
            let alpha: u8 = src[src_offset + 3];
            dest[dest_offset] = blue;
            dest[dest_offset + 1] = green;
            dest[dest_offset + 2] = red;
            dest[dest_offset + 3] = alpha;
            proof {
                let stride = dest_stride as int;
                let after = blitted(
                    initial,
                    stride,
                    dest_rect,
                    src@,
                    src_stride as int,
                    src_origin,
                    y as int,
                    x + 1,
                );
                assert forall|index: int| 0 <= index < dest@.len() implies dest@[index]
                    == after[index] by {
                    vstd::arithmetic::div_mod::lemma_fundamental_div_mod(index, stride);
                    vstd::arithmetic::div_mod::lemma_mod_bound(index, stride);
                    if dest_offset <= index < dest_offset + 4 {
                        let channel = index - dest_offset;
                        lemma_pixel_index(stride, dest_y + y, dest_x + x, channel);
                        assert(index == (dest_y + y) * stride + (dest_x + x) * 4 + channel);
                        lemma_pixel_index(4, x as int, 0, channel);
                        assert((x * 4 + channel) / 4 == x && (x * 4 + channel) % 4 == channel) by {
                            vstd::arithmetic::div_mod::lemma_fundamental_div_mod_converse(
                                x * 4 + channel,
                                4,
                                x as int,
                                channel,
                            );
                        }
                        assert(blit_source(index, stride, dest_rect, src_stride as int, src_origin)
                            == src_offset + source_channel(channel));
                        assert(blit_covers(index, stride, dest_rect, y as int, x + 1));
                    } else {
                        assert(dest@[index] == before[index]);
                        let row = index / stride - dest_rect.origin.y;
                        let byte = index % stride - dest_rect.origin.x * 4;
                        if row == y && x * 4 <= byte < x * 4 + 4 {
                            assert(index == stride * (index / stride) + index % stride);
                            assert(stride * (index / stride) == (dest_y + y) * stride)
                                by (nonlinear_arith)
                                requires
                                    index / stride == dest_y + y,
                            ;
                            assert(false);
                        }
                        assert(blit_covers(index, stride, dest_rect, y as int, x + 1)
                            == blit_covers(index, stride, dest_rect, y as int, x as int));
                    }
                }
                assert(dest@ =~= after);
            }
            x = x + 1;
        }
        proof {
            let stride = dest_stride as int;
            assert forall|index: int|
                blit_covers(index, stride, dest_rect, y as int, width as int) == blit_covers(
                    index,
                    stride,
                    dest_rect,
                    y + 1,
                    0,
                ) by {}
            assert(blitted(
                initial,
                stride,
                dest_rect,
                src@,
                src_stride as int,
                src_origin,
                y as int,
                width as int,
            ) =~= blitted(
                initial,
                stride,
                dest_rect,
                src@,
                src_stride as int,
                src_origin,
                y + 1,
                0,
            ));
        }
        y = y + 1;
    }
}

/// The pixels of a rasterized tile in the byte order of the cache texture.
///
/// `surface` holds the rasterizer's image of the tile with its gutter, row
/// by row and four bytes to the pixel. `None` if the image is smaller than
/// that, or if its size does not fit the machine's addresses.
pub fn copy_tile_pixels(surface: &[u8], tile_size: u32) -> (pixels: Option<Vec<u8>>)
    ensures
        pixels.is_some() <==> backing_size(tile_size) <= i32::MAX && backing_size(tile_size)
            * backing_size(tile_size) * 4 <= usize::MAX && surface@.len() >= backing_size(
            tile_size,
        ) * backing_size(tile_size) * 4,
        pixels matches Some(copied) ==> {
            let side = backing_size(tile_size);
            &&& copied@.len() == side * side * 4
            &&& forall|index: int|
                0 <= index < copied@.len() ==> #[trigger] copied@[index] == surface@[index - index
                    % 4 + source_channel(index % 4)]
        },
{
    if tile_size > 0x7fff_fffd {
        return None;
    }
    let side: usize = tile_size as usize + 2;
    let row_bytes: usize = match side.checked_mul(4) {
        None => {
            assert(side * side * 4 > usize::MAX) by (nonlinear_arith)
                requires
                    side * 4 > usize::MAX,
                    side >= 1,
            ;
            return None;
        },
        Some(row_bytes) => row_bytes,
    };
    let length: usize = match row_bytes.checked_mul(side) {
        None => {
            assert(side * side * 4 == row_bytes * side) by (nonlinear_arith)
                requires
                    row_bytes == side * 4,
            ;
            return None;
        },
        Some(length) => length,
    };
    assert(side * side * 4 == length) by (nonlinear_arith)
        requires
            row_bytes == side * 4,
            length == row_bytes * side,
    ;
    if surface.len() < length {
        return None;
    }
    let mut pixels: Vec<u8> = Vec::new();
    let mut filled: usize = 0;
    while filled < length
        invariant
            filled <= length,
            pixels@.len() == filled,
        decreases length - filled,
    {
        pixels.push(0);
        filled = filled + 1;
    }
    let rect = RectI::new(Vector2I::splat(0), Vector2I::splat(side as i32));
    let ghost blank = pixels@;
    proof {
        assert((0 + side) * row_bytes == length) by (nonlinear_arith)
            requires
                length == row_bytes * side,
        ;
    }
    blit(&mut pixels, row_bytes, rect, surface, row_bytes, Vector2I::splat(0));
    proof {
        let stride = row_bytes as int;
        let origin = Vector2I { x: 0, y: 0 };
        assert forall|index: int| 0 <= index < pixels@.len() implies #[trigger] pixels@[index]
            == surface@[index - index % 4 + source_channel(index % 4)] by {
            vstd::arithmetic::div_mod::lemma_fundamental_div_mod(index, stride);
            vstd::arithmetic::div_mod::lemma_mod_bound(index, stride);
            let row = index / stride;
            let byte = index % stride;
            assert(row < side) by (nonlinear_arith)
                requires
                    index == stride * row + byte,
                    0 <= byte,
                    index < stride * side,
                    stride > 0,
            ;
            assert(index >= 0 ==> row >= 0) by (nonlinear_arith)
                requires
                    index == stride * row + byte,
                    byte < stride,
                    stride > 0,
                    index >= 0,
            ;
            assert(stride * side == length) by (nonlinear_arith)
                requires
                    length == row_bytes * side,
                    stride == row_bytes,
            ;
            assert(blit_covers(index, stride, rect, side as int, 0));
            vstd::arithmetic::div_mod::lemma_fundamental_div_mod(byte, 4);
            vstd::arithmetic::div_mod::lemma_mod_bound(byte, 4);
            assert(index % 4 == byte % 4) by {
                assert(stride * row == 4 * (side * row)) by (nonlinear_arith)
                    requires
                        stride == side * 4,
                ;
                vstd::arithmetic::div_mod::lemma_fundamental_div_mod_converse(
                    index,
                    4,
                    side * row + byte / 4,
                    byte % 4,
                );
            }
            assert(row * stride == stride * row) by (nonlinear_arith);
            assert(blit_source(index, stride, rect, stride, origin) == index - index % 4
                + source_channel(index % 4));
        }
    }
    Some(pixels)
}

/// The pixels of a tile that could not be rasterized: every pixel of the
/// tile and its gutter has the colour `rgba`. `None` if the size of the
/// tile does not fit the machine's addresses.
pub fn background_tile(tile_size: u32, rgba: [u8; 4]) -> (pixels: Option<Vec<u8>>)
    ensures
        pixels.is_some() <==> backing_size(tile_size) * backing_size(tile_size) * 4 <= usize::MAX,
        pixels matches Some(filled) ==> {
            let side = backing_size(tile_size);
            &&& filled@.len() == side * side * 4
            &&& forall|index: int|
                0 <= index < filled@.len() ==> #[trigger] filled@[index] == rgba[index % 4]
        },
{
    let side: u64 = tile_size as u64 + 2;
    assert(side * side <= 0x1_0000_0001 * 0x1_0000_0001) by (nonlinear_arith)
        requires
            0 <= side <= 0x1_0000_0001,
    ;
    let count: u128 = side as u128 * side as u128;
    if count * 4 > usize::MAX as u128 {
        return None;
    }
    let pixel_count: usize = count as usize;
    let mut pixels: Vec<u8> = Vec::new();
    let mut pixel: usize = 0;
    while pixel < pixel_count
        invariant
            pixel <= pixel_count,
            pixel_count * 4 <= usize::MAX,
            pixels@.len() == pixel * 4,
            forall|index: int|
                0 <= index < pixels@.len() ==> #[trigger] pixels@[index] == rgba[index % 4],
        decreases pixel_count - pixel,
    {
        let ghost before = pixels@;
        pixels.push(rgba[0]);
        pixels.push(rgba[1]);
        pixels.push(rgba[2]);
        pixels.push(rgba[3]);
        proof {
            assert forall|index: int| 0 <= index < pixels@.len() implies #[trigger] pixels@[index]
                == rgba[index % 4] by {
                if index < before.len() {
                    assert(pixels@[index] == before[index]);
                } else {
                    let channel = index - pixel * 4;
                    vstd::arithmetic::div_mod::lemma_fundamental_div_mod_converse(
                        index,
                        4,
                        pixel as int,
                        channel,
                    );
                }
            }
        }
        pixel = pixel + 1;
    }
    Some(pixels)
}

/// The rectangle of the cache texture that the slot in column
/// `tile_origin.x` and row `tile_origin.y` takes, gutter and all.
pub open spec fn slot_rect(tile_origin: Vector2I, tile_size: u32) -> RectI {
    RectI {
        origin: Vector2I {
            x: (tile_origin.x * backing_size(tile_size)) as i32,
            y: (tile_origin.y * backing_size(tile_size)) as i32,
        },
        size: Vector2I { x: backing_size(tile_size) as i32, y: backing_size(tile_size) as i32 },
    }
}

impl VirtualTexture {
    /// The column and the row of the slot at `address`, in tiles.
    pub open spec fn spec_tile_coords(self, address: int) -> Vector2I {
        Vector2I {
            x: (address % tiles_along(
                self.spec_cache_texture_size().x,
                self.spec_tile_size(),
            )) as i32,
            y: (address / tiles_along(
                self.spec_cache_texture_size().x,
                self.spec_tile_size(),
            )) as i32,
        }
    }

    /// Whether the cache waits for the rasterized tile `tile`: its address
    /// is one of the cache, the slot there is pending with the tile's key,
    /// and the tile names the slot's column and row.
    pub open spec fn awaits(self, tile: RasterizedTile) -> bool {
        let address = tile.tile_request.address.0 as int;
        &&& address < self.slots().len()
        &&& self.slots()[address].descriptor == Some(tile.tile_request.descriptor)
        &&& self.slots()[address].status == TileCacheStatus::Pending
        &&& tile.tile_origin == self.spec_tile_coords(address)
    }
}

/// Takes delivery of a rasterized tile: marks its slot as rasterized and
/// returns the rectangle of the cache texture to upload the pixels to.
/// `None`, with the cache as it was, for a tile that the cache does not wait for.
pub fn complete_tile(texture: &mut VirtualTexture, tile: &RasterizedTile) -> (upload: Option<RectI>)
    requires
        old(texture).wf(),
    ensures
        final(texture).wf(),
        upload.is_some() <==> old(texture).awaits(*tile),
        upload.is_none() ==> *final(texture) == *old(texture),
        upload matches Some(rect) ==> {
            &&& rect == slot_rect(tile.tile_origin, old(texture).spec_tile_size())
            &&& old(texture).same_sizes(*final(texture))
            &&& final(texture).spec_bucket_size() == old(texture).spec_bucket_size()
            &&& final(texture).directory() == old(texture).directory()
            &&& final(texture).lru_order() == old(texture).lru_order()
            &&& final(texture).next_unused() == old(texture).next_unused()
            &&& final(texture).slots() == old(texture).slots().update(
                tile.tile_request.address.0 as int,
                crate::texture::TileCacheEntry {
                    address: tile.tile_request.address,
                    descriptor: Some(tile.tile_request.descriptor),
                    status: TileCacheStatus::Rasterized,
                },
            )
        },
{
    let address = tile.tile_request.address;
    if address.0 >= texture.cache_size() {
        return None;
    }
    let slot = texture.tiles()[address.0 as usize];
    let waiting = match slot.descriptor {
        Some(descriptor) => descriptor == tile.tile_request.descriptor && slot.status
            == TileCacheStatus::Pending,
        None => false,
    };
    if !waiting {
        return None;
    }
    let coords = texture.address_to_tile_coords(address);
    if coords != tile.tile_origin {
        return None;
    }
    let backing: u32 = texture.tile_backing_size();
    proof {
        crate::texture::lemma_slot_in_texture(*texture, address.0 as int);
    }
    let rect = RectI::new(
        Vector2I::new(coords.x * backing as i32, coords.y * backing as i32),
        Vector2I::splat(backing as i32),
    );
    texture.mark_as_rasterized(address, &tile.tile_request.descriptor);
    Some(rect)
}

/// The requests for the rasterizer that `needed_tiles` stand for, each
/// with the column and the row of its slot; `needed_tiles` is empty afterwards.
pub fn raster_requests(texture: &VirtualTexture, needed_tiles: &mut Vec<TileRequest>) -> (requests:
    Vec<TileRasterRequest>)
    requires
        texture.wf(),
        forall|i: int|
            0 <= i < old(needed_tiles)@.len() ==> (#[trigger] old(needed_tiles)@[i]).address.0
                < texture.spec_cache_size(),
    ensures
        final(needed_tiles)@.len() == 0,
        requests@.len() == old(needed_tiles)@.len(),
        forall|i: int|
            0 <= i < requests@.len() ==> (#[trigger] requests@[i]).tile_request == old(
                needed_tiles,
            )@[i] && requests@[i].tile_origin == texture.spec_tile_coords(
                old(needed_tiles)@[i].address.0 as int,
            ),
{
    let mut requests: Vec<TileRasterRequest> = Vec::new();
    let mut index: usize = 0;
    while index < needed_tiles.len()
        invariant
            index <= needed_tiles@.len(),
            needed_tiles@ == old(needed_tiles)@,
            texture.wf(),
            forall|i: int|
                0 <= i < needed_tiles@.len() ==> (#[trigger] needed_tiles@[i]).address.0
                    < texture.spec_cache_size(),
            requests@.len() == index,
            forall|i: int|
                0 <= i < requests@.len() ==> (#[trigger] requests@[i]).tile_request
                    == needed_tiles@[i] && requests@[i].tile_origin == texture.spec_tile_coords(
                    needed_tiles@[i].address.0 as int,
                ),
        decreases needed_tiles@.len() - index,
    {
        let tile_request = needed_tiles[index];
        let tile_origin = texture.address_to_tile_coords(tile_request.address);
        requests.push(TileRasterRequest { tile_request, tile_origin });
        index = index + 1;
    }
    needed_tiles.clear();
    requests
}

/// Hands every needed tile to the workers: pushes a request for each onto
/// `stack`, in order, so that the last one is served first; `needed_tiles`
/// is empty afterwards.
pub fn submit_needed_tiles(
    texture: &VirtualTexture,
    stack: &ConcurrentStack<TileRasterRequest>,
    needed_tiles: &mut Vec<TileRequest>,
)
    requires
        texture.wf(),
        forall|i: int|
            0 <= i < old(needed_tiles)@.len() ==> (#[trigger] old(needed_tiles)@[i]).address.0
                < texture.spec_cache_size(),
    ensures
        final(needed_tiles)@.len() == 0,
{
    let requests = raster_requests(texture, needed_tiles);
    let mut index: usize = 0;
    while index < requests.len()
        invariant
            index <= requests@.len(),
        decreases requests@.len() - index,
    {
        stack.push(requests[index]);
        index = index + 1;
    }
}

} // verus!
