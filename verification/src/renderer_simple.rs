//! The blits of the simple path: one textured quad for each rasterized
//! tile of each level of detail that is shown.

use vstd::prelude::*;
use crate::geometry::Vector2I;
use crate::manager2d::VirtualTextureManager2D;
use crate::texture::{backing_size, tiles_along, TileCacheEntry, TileCacheStatus, VirtualTexture};
use crate::tile::{TileAddress, TileDescriptor};

verus! {

/// One quad to draw: a tile, where its pixels lie in the cache texture
/// without the gutter, and how to draw it.
#[derive(Clone, Copy, Debug, PartialEq, Eq, Structural)]
pub struct TileDraw {
    pub descriptor: TileDescriptor,
    pub address: TileAddress,
    /// The corner of the tile's pixels in the cache texture.
    pub tex_origin: Vector2I,
    /// The extent of the tile's pixels in the cache texture.
    pub tex_size: Vector2I,
    /// Which of the levels shown the tile belongs to: 0 for the first,
    /// drawn opaque; the others are blended over it.
    pub lod_index: usize,
    /// Whether the target is cleared before this quad: true of the first quad only.
    pub clear: bool,
}

/// The quad for the slot `slot`, which holds the rasterized tile `descriptor`.
pub open spec fn draw_of(
    slot: TileCacheEntry,
    descriptor: TileDescriptor,
    lod_index: int,
    tiles_across: int,
    tile_size: u32,
) -> TileDraw {
    TileDraw {
        descriptor,
        address: slot.address,
        tex_origin: Vector2I {
            x: (1 + (slot.address.0 as int % tiles_across) * backing_size(tile_size)) as i32,
            y: (1 + (slot.address.0 as int / tiles_across) * backing_size(tile_size)) as i32,
        },
        tex_size: Vector2I { x: tile_size as i32, y: tile_size as i32 },
        lod_index: lod_index as usize,
        clear: false,
    }
}

/// Whether `slot` holds a rasterized tile of level `lod`.
pub open spec fn shows(slot: TileCacheEntry, lod: i8) -> bool {
    slot.status == TileCacheStatus::Rasterized && slot.descriptor.is_some()
        && slot.descriptor.unwrap().spec_lod() == lod
}

/// The quads of level `lod`: one for each slot that holds a rasterized
/// tile of that level, by address.
pub open spec fn lod_draws(
    slots: Seq<TileCacheEntry>,
    lod: i8,
    lod_index: int,
    tiles_across: int,
    tile_size: u32,
) -> Seq<TileDraw>
    decreases slots.len(),
{
    if slots.len() == 0 {
        Seq::empty()
    } else {
        let rest = lod_draws(slots.drop_last(), lod, lod_index, tiles_across, tile_size);
        if shows(slots.last(), lod) {
            rest.push(
                draw_of(
                    slots.last(),
                    slots.last().descriptor.unwrap(),
                    lod_index,
                    tiles_across,
                    tile_size,
                ),
            )
        } else {
            rest
        }
    }
}

/// The quads of every level in `lods`, level by level.
pub open spec fn all_draws(
    slots: Seq<TileCacheEntry>,
    lods: Seq<i8>,
    tiles_across: int,
    tile_size: u32,
) -> Seq<TileDraw>
    decreases lods.len(),
{
    if lods.len() == 0 {
        Seq::empty()
    } else {
        all_draws(slots, lods.drop_last(), tiles_across, tile_size) + lod_draws(
            slots,
            lods.last(),
            lods.len() - 1,
            tiles_across,
            tile_size,
        )
    }
}

/// The quad `draw`, with the target cleared before it if `clear` is set.
pub open spec fn with_clear(draw: TileDraw, clear: bool) -> TileDraw {
    TileDraw { clear, ..draw }
}

/// The part of the simple path that needs no GPU.
pub struct SimpleRenderer {
    pub manager: VirtualTextureManager2D,
}

impl SimpleRenderer {
    pub fn new(manager: VirtualTextureManager2D) -> (renderer: SimpleRenderer)
        ensures
            renderer.manager == manager,
    {
        SimpleRenderer { manager }
    }

    #[inline]
    pub fn manager_mut(&mut self) -> (manager: &mut VirtualTextureManager2D)
        ensures
            *manager == old(self).manager,
            final(self).manager == *final(manager),
    {
        &mut self.manager
    }

    /// The quads to draw for the levels of detail `lods`, in order: level
    /// by level, and within a level by the address of the slot. The target
    /// is cleared before the first quad.
    pub fn render(&self, lods: &Vec<i8>) -> (draws: Vec<TileDraw>)
        requires
            self.manager.texture.wf(),
        ensures
            draws@.len() == texture_draws(self.manager.texture, lods@).len(),
            forall|i: int|
                0 <= i < draws@.len() ==> #[trigger] draws@[i] == with_clear(
                    texture_draws(self.manager.texture, lods@)[i],
                    i == 0,
                ),
    {
        draw_list(&self.manager.texture, lods)
    }
}

/// The quads of every level in `lods` for the slots of `texture`, level by level.
pub open spec fn texture_draws(texture: VirtualTexture, lods: Seq<i8>) -> Seq<TileDraw> {
    all_draws(
        texture.slots(),
        lods,
        tiles_along(texture.spec_cache_texture_size().x, texture.spec_tile_size()),
        texture.spec_tile_size(),
    )
}

/// The quads to draw for the levels of detail `lods`, in order: level by
/// level, and within a level by the address of the slot. The target is
/// cleared before the first quad.
pub fn draw_list(texture: &VirtualTexture, lods: &Vec<i8>) -> (draws: Vec<TileDraw>)
    requires
        texture.wf(),
    ensures
        draws@.len() == texture_draws(*texture, lods@).len(),
        forall|i: int|
            0 <= i < draws@.len() ==> #[trigger] draws@[i] == with_clear(
                texture_draws(*texture, lods@)[i],
                i == 0,
            ),
{
    let tile_size = texture.tile_size();
    let tile_backing_size = texture.tile_backing_size();
    let tiles = texture.tiles();
    let ghost slots = texture.slots();
    let ghost across = tiles_along(
        texture.spec_cache_texture_size().x,
        texture.spec_tile_size(),
    );
    let mut draws: Vec<TileDraw> = Vec::new();
    let mut render_lod_index: usize = 0;
    proof {
        assert(lods@.subrange(0, 0) =~= Seq::<i8>::empty());
    }
    while render_lod_index < lods.len()
        invariant
            render_lod_index <= lods@.len(),
            texture.wf(),
            tiles@ == slots,
            slots == texture.slots(),
            tile_size == texture.spec_tile_size(),
            tile_backing_size == tile_size + 2,
            across == tiles_along(
                texture.spec_cache_texture_size().x,
                texture.spec_tile_size(),
            ),
            draws@.len() == all_draws(
                slots,
                lods@.subrange(0, render_lod_index as int),
                across,
                tile_size,
            ).len(),
            forall|i: int|
                0 <= i < draws@.len() ==> #[trigger] draws@[i] == with_clear(
                    all_draws(
                        slots,
                        lods@.subrange(0, render_lod_index as int),
                        across,
                        tile_size,
                    )[i],
                    i == 0,
                ),
        decreases lods@.len() - render_lod_index,
    {
        let render_lod = lods[render_lod_index];
        let ghost earlier = all_draws(
            slots,
            lods@.subrange(0, render_lod_index as int),
            across,
            tile_size,
        );
        let mut slot_index: usize = 0;
        proof {
            assert(slots.subrange(0, 0) =~= Seq::<TileCacheEntry>::empty());
        }
        while slot_index < tiles.len()
            invariant
                render_lod_index < lods@.len(),
                render_lod == lods@[render_lod_index as int],
                slot_index <= slots.len(),
                texture.wf(),
                tiles@ == slots,
                slots == texture.slots(),
                tile_size == texture.spec_tile_size(),
                tile_backing_size == tile_size + 2,
                across == tiles_along(
                    texture.spec_cache_texture_size().x,
                    texture.spec_tile_size(),
                ),
                earlier == all_draws(
                    slots,
                    lods@.subrange(0, render_lod_index as int),
                    across,
                    tile_size,
                ),
                draws@.len() == (earlier + lod_draws(
                    slots.subrange(0, slot_index as int),
                    render_lod,
                    render_lod_index as int,
                    across,
                    tile_size,
                )).len(),
                forall|i: int|
                    0 <= i < draws@.len() ==> #[trigger] draws@[i] == with_clear(
                        (earlier + lod_draws(
                            slots.subrange(0, slot_index as int),
                            render_lod,
                            render_lod_index as int,
                            across,
                            tile_size,
                        ))[i],
                        i == 0,
                    ),
            decreases slots.len() - slot_index,
        {
            let tile_cache_entry = tiles[slot_index];
            let ghost done = slots.subrange(0, slot_index as int);
            let ghost more = slots.subrange(0, slot_index + 1);
            let ghost before = draws@;
            proof {
                assert(more.drop_last() =~= done);
                assert(more.last() == tile_cache_entry);
            }
            let shown = match tile_cache_entry.descriptor {
                Some(descriptor) => tile_cache_entry.status == TileCacheStatus::Rasterized
                    && descriptor.lod() == render_lod,
                None => false,
            };
            if shown {
                let descriptor = tile_cache_entry.descriptor.unwrap();
                let address = tile_cache_entry.address;
                let coords = texture.address_to_tile_coords(address);
                proof {
                    crate::texture::lemma_slot_in_texture(*texture, address.0 as int);
                }
                let tile_tex_origin = Vector2I::new(
                    1 + coords.x * tile_backing_size as i32,
                    1 + coords.y * tile_backing_size as i32,
                );
                let tile_tex_size = Vector2I::splat(tile_size as i32);
                let cleared = draws.len() > 0;
                draws.push(
                    TileDraw {
                        descriptor,
                        address,
                        tex_origin: tile_tex_origin,
                        tex_size: tile_tex_size,
                        lod_index: render_lod_index,
                        clear: !cleared,
                    },
                );
            }
            proof {
                let grown = earlier + lod_draws(
                    more,
                    render_lod,
                    render_lod_index as int,
                    across,
                    tile_size,
                );
                let kept = earlier + lod_draws(
                    done,
                    render_lod,
                    render_lod_index as int,
                    across,
                    tile_size,
                );
                assert forall|i: int| 0 <= i < draws@.len() implies #[trigger] draws@[i]
                    == with_clear(grown[i], i == 0) by {
                    if i < before.len() {
                        assert(draws@[i] == before[i]);
                        assert(grown[i] == kept[i]);
                    }
                }
            }
            slot_index = slot_index + 1;
        }
        proof {
            let done = lods@.subrange(0, render_lod_index as int);
            let more = lods@.subrange(0, render_lod_index + 1);
            assert(more.drop_last() =~= done);
            assert(more.last() == render_lod);
            assert(slots.subrange(0, slots.len() as int) =~= slots);
        }
        render_lod_index = render_lod_index + 1;
    }
    proof {
        assert(lods@.subrange(0, lods@.len() as int) =~= lods@);
    }
    draws
}

} // verus!
