use virtex::geometry::Vector2I;
use virtex::manager2d::VirtualTextureManager2D;
use virtex::renderer_simple::{SimpleRenderer, TileDraw};
use virtex::texture::{RequestResult, VirtualTexture};
use virtex::tile::{TileAddress, TileDescriptor};

fn renderer_with(tiles: &[(i32, i32, i8, bool)]) -> SimpleRenderer {
    let texture = VirtualTexture::new(Vector2I::new(3 * 258, 2 * 258), 256, 8).unwrap();
    let mut renderer =
        SimpleRenderer::new(VirtualTextureManager2D::new(texture, Vector2I::new(640, 480)));
    for &(x, y, lod, rasterized) in tiles {
        let descriptor = TileDescriptor::new(Vector2I::new(x, y), lod);
        match renderer.manager_mut().texture.request_tile(descriptor) {
            RequestResult::CacheMiss(address) => {
                if rasterized {
                    renderer.manager_mut().texture.mark_as_rasterized(address, &descriptor);
                }
            }
            other => panic!("expected a miss, got {:?}", other),
        }
    }
    renderer
}

#[test]
fn nothing_cached_nothing_drawn() {
    let renderer = renderer_with(&[]);
    assert_eq!(renderer.render(&vec![0, 1]), vec![]);
}

#[test]
fn draws_go_level_by_level_and_clear_once() {
    let renderer = renderer_with(&[
        (0, 0, 1, true),
        (1, 0, 0, true),
        (2, 0, 0, false),
        (3, 0, 0, true),
        (4, 0, 1, true),
        (5, 0, 2, true),
    ]);
    let draws = renderer.render(&vec![0, 1]);
    let quad = |x: i32, lod: i8, address: u32, lod_index: usize, clear: bool| TileDraw {
        descriptor: TileDescriptor::new(Vector2I::new(x, 0), lod),
        address: TileAddress(address),
        tex_origin: Vector2I::new(
            1 + (address as i32 % 3) * 258,
            1 + (address as i32 / 3) * 258,
        ),
        tex_size: Vector2I::new(256, 256),
        lod_index,
        clear,
    };
    assert_eq!(
        draws,
        vec![
            quad(1, 0, 1, 0, true),
            quad(3, 0, 3, 0, false),
            quad(0, 1, 0, 1, false),
            quad(4, 1, 4, 1, false),
        ]
    );
}

#[test]
fn pending_tiles_are_not_drawn() {
    let renderer = renderer_with(&[(0, 0, 0, false), (1, 0, 0, false)]);
    assert_eq!(renderer.render(&vec![0]), vec![]);
}

#[test]
fn a_level_without_tiles_leaves_the_clear_to_the_next() {
    let renderer = renderer_with(&[(7, 7, 3, true)]);
    let draws = renderer.render(&vec![2, 3]);
    assert_eq!(draws.len(), 1);
    assert_eq!(draws[0].lod_index, 1);
    assert!(draws[0].clear);
    assert_eq!(draws[0].tex_origin, Vector2I::new(1, 1));
}
