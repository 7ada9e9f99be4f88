use virtex::geometry::{RectI, Vector2I};
use virtex::manager2d::{TileRequest, VirtualTextureManager2D};
use virtex::renderer_advanced::{
    derivatives_viewport, pack_metadata, request_feedback_tiles, AdvancedRenderer, FeedbackTexel,
};
use virtex::texture::{RequestResult, VirtualTexture};
use virtex::tile::{TileAddress, TileDescriptor};

fn renderer(tiles_across: i32, tiles_down: i32, buckets: u32) -> AdvancedRenderer {
    let texture =
        VirtualTexture::new(Vector2I::new(tiles_across * 258, tiles_down * 258), 256, buckets)
            .unwrap();
    AdvancedRenderer::new(VirtualTextureManager2D::new(texture, Vector2I::new(1600, 900)), 16)
}

fn texel(tile_x: i32, tile_y: i32, lod: i8, covered: bool) -> FeedbackTexel {
    FeedbackTexel { tile_x, tile_y, lod, covered }
}

#[test]
fn feedback_requests_a_shared_tile_once() {
    let mut renderer = renderer(4, 4, 64);
    let mut texels = vec![];
    for index in 0..16 {
        match index % 4 {
            0 | 2 => texels.push(texel(5, 5, 2, true)),
            1 => texels.push(texel(5, 5, 2, false)),
            _ => texels.push(texel(-1, 5, 2, true)),
        }
    }
    assert_eq!(texels.len(), 16);
    assert_eq!(texels.iter().filter(|t| t.covered && t.tile_x == 5).count(), 8);
    assert_eq!(texels.iter().filter(|t| !t.covered).count(), 4);
    let mut needed = vec![];
    renderer.request_needed_tiles(&texels, &mut needed);
    assert_eq!(
        needed,
        vec![TileRequest {
            descriptor: TileDescriptor::new(Vector2I::new(5, 5), 2),
            address: TileAddress(0),
        }]
    );
    let occupied = renderer
        .manager()
        .texture
        .tiles()
        .iter()
        .filter(|tile| tile.descriptor.is_some())
        .count();
    assert_eq!(occupied, 1);
}

#[test]
fn feedback_skips_uncovered_and_negative_texels() {
    let mut texture = VirtualTexture::new(Vector2I::new(4 * 258, 4 * 258), 256, 8).unwrap();
    let texels = vec![
        texel(1, 1, 0, false),
        texel(-1, 1, 0, true),
        texel(1, -1, 0, true),
        texel(-70000, -3, 100, true),
        texel(2, 3, -4, true),
        texel(0, 0, 0, true),
    ];
    let mut needed = vec![];
    request_feedback_tiles(&mut texture, &texels, &mut needed);
    let keys: Vec<_> = needed.iter().map(|request| request.descriptor).collect();
    assert_eq!(
        keys,
        vec![
            TileDescriptor::new(Vector2I::new(2, 3), -4),
            TileDescriptor::new(Vector2I::new(0, 0), 0),
        ]
    );
    assert_eq!(
        texture.request_tile(TileDescriptor::new(Vector2I::new(1, 1), 0)),
        RequestResult::CacheMiss(TileAddress(2))
    );
}

#[test]
fn feedback_appends_to_what_is_needed_already() {
    let mut renderer = renderer(2, 2, 8);
    let earlier = TileRequest { descriptor: TileDescriptor(77), address: TileAddress(3) };
    let mut needed = vec![earlier];
    renderer.request_needed_tiles(&vec![texel(1, 2, 3, true)], &mut needed);
    assert_eq!(needed.len(), 2);
    assert_eq!(needed[0], earlier);
    assert_eq!(needed[1].descriptor, TileDescriptor::new(Vector2I::new(1, 2), 3));
}

#[test]
fn derivatives_viewport_divides_the_viewport() {
    assert_eq!(
        derivatives_viewport(Vector2I::new(1600, 900), 16),
        RectI::new(Vector2I::new(0, 0), Vector2I::new(100, 56))
    );
    assert_eq!(
        derivatives_viewport(Vector2I::new(15, -15), 16),
        RectI::new(Vector2I::new(0, 0), Vector2I::new(0, 0))
    );
    assert_eq!(
        derivatives_viewport(Vector2I::new(-33, 33), 16),
        RectI::new(Vector2I::new(0, 0), Vector2I::new(-2, 2))
    );
    assert_eq!(
        derivatives_viewport(Vector2I::new(-33, 33), -16),
        RectI::new(Vector2I::new(0, 0), Vector2I::new(2, -2))
    );
    assert_eq!(renderer(1, 1, 8).derivatives_viewport().size, Vector2I::new(100, 56));
}

#[test]
fn metadata_of_an_empty_directory_is_zero() {
    let mut renderer = renderer(4, 4, 8);
    let texels = renderer.update_metadata();
    assert_eq!(texels, vec![0; 8 * 4 * 4]);
    assert_eq!(renderer.min_lod, i8::MAX);
    assert_eq!(renderer.max_lod, i8::MIN);
}

#[test]
fn metadata_holds_each_entry_in_the_rows_of_its_subtable() {
    let mut renderer = renderer(4, 4, 8);
    let keys = [
        TileDescriptor::new(Vector2I::new(3, 7), 2),
        TileDescriptor::new(Vector2I::new(10, 20), -3),
        TileDescriptor::new(Vector2I::new(0, 0), 0),
        TileDescriptor::new(Vector2I::new(8191, 8191), 31),
        TileDescriptor::new(Vector2I::new(1, 0), -32),
        TileDescriptor::new(Vector2I::new(6, 6), 1),
    ];
    for &key in keys.iter() {
        renderer.manager_mut().texture.request_tile(key);
    }
    let texels = renderer.update_metadata();
    let buckets = renderer.manager().texture.bucket_size();
    assert_eq!(texels.len(), 16 * buckets);
    assert_eq!(renderer.min_lod, -32);
    assert_eq!(renderer.max_lod, 31);
    let stride = 4 * buckets;
    let table = renderer.manager().texture.directory_table();
    let mut seen = 0;
    for side in 0..2 {
        let subtable = table.subtable(side);
        for bucket in 0..buckets {
            let key_texel = &texels[stride * (2 * side) + 4 * bucket..][..4];
            let rect_texel = &texels[stride * (2 * side + 1) + 4 * bucket..][..4];
            match subtable.bucket(bucket) {
                None => {
                    assert_eq!(key_texel, &[0, 0, 0, 0]);
                    assert_eq!(rect_texel, &[0, 0, 0, 0]);
                }
                Some(entry) => {
                    seen += 1;
                    let position = entry.descriptor.tile_position();
                    assert_eq!(
                        key_texel,
                        &[position.x, position.y, entry.descriptor.lod() as i32, 0]
                    );
                    let column = (entry.address.0 % 4) as i32;
                    let row = (entry.address.0 / 4) as i32;
                    let left = column * 258 + 1;
                    let top = row * 258 + 1;
                    assert_eq!(rect_texel, &[left, top, left + 256, top + 256]);
                    assert!(keys.contains(&entry.descriptor));
                }
            }
        }
    }
    assert_eq!(seen, keys.len());
}

#[test]
fn metadata_rect_of_a_known_slot() {
    let mut texture = VirtualTexture::new(Vector2I::new(3 * 18, 2 * 18), 16, 2).unwrap();
    for x in 0..5 {
        texture.request_tile(TileDescriptor::new(Vector2I::new(x, 0), 0));
    }
    let metadata = pack_metadata(&texture);
    assert_eq!(metadata.min_lod, 0);
    assert_eq!(metadata.max_lod, 0);
    let buckets = texture.bucket_size();
    let stride = 4 * buckets;
    let wanted = TileDescriptor::new(Vector2I::new(4, 0), 0);
    let mut found = false;
    for side in 0..2 {
        for bucket in 0..buckets {
            let base = stride * (2 * side) + 4 * bucket;
            if metadata.texels[base] == 4 && metadata.texels[base + 3] == 0 {
                let rect = &metadata.texels[base + stride..][..4];
                if rect != &[0, 0, 0, 0] {
                    // Address 4 is column 1 of row 1.
                    assert_eq!(rect, &[19, 19, 35, 35]);
                    found = true;
                }
            }
        }
    }
    assert!(found);
    assert_eq!(texture.request_tile(wanted), RequestResult::CachePending(TileAddress(4)));
}

#[test]
fn render_uniforms_mirror_the_directory() {
    let mut renderer = renderer(2, 2, 8);
    renderer.manager_mut().texture.request_tile(TileDescriptor::new(Vector2I::new(1, 1), 5));
    renderer.update_metadata();
    let values = renderer.render_uniforms();
    let table = renderer.manager().texture.directory_table();
    assert_eq!(values.cache_seed_a, table.subtable(0).seed() as i32);
    assert_eq!(values.cache_seed_b, table.subtable(1).seed() as i32);
    assert_eq!(values.cache_size, 8);
    assert_eq!(values.tile_size, 256);
    assert_eq!(values.min_lod, 5);
    assert_eq!(values.max_lod, 5);
}
