use virtex::geometry::{RectI, Vector2I};
use virtex::manager2d::TileRequest;
use virtex::stack::ConcurrentStack;
use virtex::svg::{
    background_tile, blit, complete_tile, copy_tile_pixels, raster_requests, submit_needed_tiles,
    transform_for_tile_descriptor, RasterizedTile, TileRasterRequest, TileTransform,
};
use virtex::texture::{RequestResult, TileCacheStatus, VirtualTexture};
use virtex::tile::{TileAddress, TileDescriptor};

#[test]
fn blit_swaps_the_first_and_the_third_channel() {
    let src = vec![1u8, 2, 3, 4, 5, 6, 7, 8];
    let mut dest = vec![0u8; 8];
    blit(
        &mut dest,
        8,
        RectI::new(Vector2I::new(0, 0), Vector2I::new(2, 1)),
        &src,
        8,
        Vector2I::new(0, 0),
    );
    assert_eq!(dest, vec![3, 2, 1, 4, 7, 6, 5, 8]);
}

#[test]
fn blit_copies_a_rectangle_and_leaves_the_rest() {
    // A source of 3 by 3 pixels and a destination of 4 by 3 pixels.
    let src: Vec<u8> = (0..36).collect();
    let mut dest = vec![200u8; 48];
    blit(
        &mut dest,
        16,
        RectI::new(Vector2I::new(2, 1), Vector2I::new(2, 2)),
        &src,
        12,
        Vector2I::new(1, 0),
    );
    let mut expected = vec![200u8; 48];
    for y in 0..2usize {
        for x in 0..2usize {
            let d = (1 + y) * 16 + (2 + x) * 4;
            let s = y * 12 + (1 + x) * 4;
            expected[d] = src[s + 2];
            expected[d + 1] = src[s + 1];
            expected[d + 2] = src[s];
            expected[d + 3] = src[s + 3];
        }
    }
    assert_eq!(dest, expected);
    assert_eq!(&dest[24..32], &[6, 5, 4, 7, 10, 9, 8, 11]);
}

#[test]
fn blit_of_an_empty_rectangle_changes_nothing() {
    let src = vec![1u8; 4];
    let mut dest = vec![9u8; 4];
    blit(&mut dest, 0, RectI::new(Vector2I::new(-3, 5), Vector2I::new(0, 7)), &src, 0, Vector2I::new(9, 9));
    blit(&mut dest, 4, RectI::new(Vector2I::new(0, 0), Vector2I::new(1, -1)), &src, 4, Vector2I::new(0, 0));
    assert_eq!(dest, vec![9u8; 4]);
}

#[test]
fn tile_pixels_are_copied_whole() {
    let side = 3usize;
    let surface: Vec<u8> = (0..(side * side * 4) as u8).collect();
    let pixels = copy_tile_pixels(&surface, 1).unwrap();
    assert_eq!(pixels.len(), side * side * 4);
    for pixel in 0..side * side {
        assert_eq!(pixels[4 * pixel], surface[4 * pixel + 2]);
        assert_eq!(pixels[4 * pixel + 1], surface[4 * pixel + 1]);
        assert_eq!(pixels[4 * pixel + 2], surface[4 * pixel]);
        assert_eq!(pixels[4 * pixel + 3], surface[4 * pixel + 3]);
    }
}

#[test]
fn tile_pixels_need_a_surface_of_the_backing_size() {
    assert!(copy_tile_pixels(&vec![0u8; 35], 1).is_none());
    assert!(copy_tile_pixels(&vec![0u8; 36], 1).is_some());
    assert_eq!(copy_tile_pixels(&vec![7u8; 40], 1).unwrap(), vec![7u8; 36]);
    assert!(copy_tile_pixels(&vec![0u8; 16], 0).is_some());
    assert!(copy_tile_pixels(&vec![0u8; 16], u32::MAX).is_none());
    assert!(copy_tile_pixels(&vec![0u8; 16], 0x7fff_fffe).is_none());
}

#[test]
fn transform_moves_the_tile_behind_the_gutter() {
    let descriptor = TileDescriptor::new(Vector2I::new(3, 5), -2);
    assert_eq!(
        transform_for_tile_descriptor(&descriptor, 256),
        TileTransform { lod: -2, offset_x: 1 - 3 * 256, offset_y: 1 - 5 * 256 }
    );
    let origin = TileDescriptor::new(Vector2I::new(0, 0), 0);
    assert_eq!(
        transform_for_tile_descriptor(&origin, 256),
        TileTransform { lod: 0, offset_x: 1, offset_y: 1 }
    );
    let far = TileDescriptor::new(Vector2I::new(8191, 8191), 31);
    assert_eq!(
        transform_for_tile_descriptor(&far, u32::MAX),
        TileTransform {
            lod: 31,
            offset_x: 1 - 8191 * 4294967295i64,
            offset_y: 1 - 8191 * 4294967295i64
        }
    );
}

fn pending_texture() -> (VirtualTexture, TileDescriptor, TileAddress) {
    let mut texture = VirtualTexture::new(Vector2I::new(3 * 258, 2 * 258), 256, 8).unwrap();
    let mut last = None;
    for x in 0..5 {
        let descriptor = TileDescriptor::new(Vector2I::new(x, 0), 0);
        if let RequestResult::CacheMiss(address) = texture.request_tile(descriptor) {
            last = Some((descriptor, address));
        }
    }
    let (descriptor, address) = last.unwrap();
    (texture, descriptor, address)
}

#[test]
fn a_delivered_tile_is_marked_and_placed() {
    let (mut texture, descriptor, address) = pending_texture();
    assert_eq!(address, TileAddress(4));
    let tile = RasterizedTile {
        tile_request: TileRequest { descriptor, address },
        tile_origin: Vector2I::new(1, 1),
        new_tile_pixels: vec![],
    };
    assert_eq!(
        complete_tile(&mut texture, &tile),
        Some(RectI::new(Vector2I::new(258, 258), Vector2I::new(258, 258)))
    );
    assert_eq!(texture.tiles()[4].status, TileCacheStatus::Rasterized);
    assert_eq!(texture.request_tile(descriptor), RequestResult::CacheHit(address));
    // A second delivery finds the slot rasterized.
    assert_eq!(complete_tile(&mut texture, &tile), None);
}

#[test]
fn a_stale_or_misplaced_tile_is_refused() {
    let (mut texture, descriptor, address) = pending_texture();
    let stale = RasterizedTile {
        tile_request: TileRequest { descriptor: TileDescriptor(12345), address },
        tile_origin: Vector2I::new(1, 1),
        new_tile_pixels: vec![],
    };
    assert_eq!(complete_tile(&mut texture, &stale), None);
    let outside = RasterizedTile {
        tile_request: TileRequest { descriptor, address: TileAddress(6) },
        tile_origin: Vector2I::new(0, 2),
        new_tile_pixels: vec![],
    };
    assert_eq!(complete_tile(&mut texture, &outside), None);
    let misplaced = RasterizedTile {
        tile_request: TileRequest { descriptor, address },
        tile_origin: Vector2I::new(0, 0),
        new_tile_pixels: vec![],
    };
    assert_eq!(complete_tile(&mut texture, &misplaced), None);
    assert_eq!(texture.tiles()[4].status, TileCacheStatus::Pending);
}

#[test]
fn raster_requests_carry_the_slot_coordinates() {
    let (texture, _, _) = pending_texture();
    let mut needed: Vec<TileRequest> = (0..5u32)
        .map(|index| TileRequest {
            descriptor: TileDescriptor::new(Vector2I::new(index as i32, 0), 0),
            address: TileAddress(index),
        })
        .collect();
    let wanted = needed.clone();
    let requests = raster_requests(&texture, &mut needed);
    assert!(needed.is_empty());
    assert_eq!(requests.len(), 5);
    for (index, request) in requests.iter().enumerate() {
        assert_eq!(request.tile_request, wanted[index]);
        assert_eq!(
            request.tile_origin,
            Vector2I::new(index as i32 % 3, index as i32 / 3)
        );
    }
}

#[test]
fn submitted_tiles_are_served_newest_first() {
    let (texture, _, _) = pending_texture();
    let stack: ConcurrentStack<TileRasterRequest> = ConcurrentStack::new();
    let mut needed: Vec<TileRequest> = (0..3u32)
        .map(|index| TileRequest {
            descriptor: TileDescriptor::new(Vector2I::new(index as i32, 0), 0),
            address: TileAddress(index),
        })
        .collect();
    submit_needed_tiles(&texture, &stack, &mut needed);
    assert!(needed.is_empty());
    for index in (0..3u32).rev() {
        let request = stack.pop().unwrap();
        assert_eq!(request.tile_request.address, TileAddress(index));
        assert_eq!(request.tile_origin, Vector2I::new(index as i32, 0));
    }
}

#[test]
fn a_background_tile_has_one_colour() {
    let pixels = background_tile(1, [10, 20, 30, 255]).unwrap();
    assert_eq!(pixels.len(), 3 * 3 * 4);
    for pixel in pixels.chunks(4) {
        assert_eq!(pixel, &[10, 20, 30, 255]);
    }
    assert_eq!(background_tile(0, [1, 2, 3, 4]).unwrap(), vec![1, 2, 3, 4, 1, 2, 3, 4, 1, 2, 3, 4, 1, 2, 3, 4]);
    assert_eq!(background_tile(256, [0, 0, 0, 0]).unwrap().len(), 258 * 258 * 4);
}
