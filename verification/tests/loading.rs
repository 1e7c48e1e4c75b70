use tilegrid::color::Rgba;
use tilegrid::game_map::{
    FOREGROUND_LAYER, GameMap, HEIGHT, LayeredColorMapper, WIDTH, accent_1, accent_3, background,
    resolve_wall_collision,
};
use tilegrid::tilemap::{Tile, TileMap, TileMapError};

const WALL: u32 = 2;
const FLOOR: u32 = 1;

fn mapper() -> LayeredColorMapper {
    LayeredColorMapper { wall_texture: WALL, floor_texture: FLOOR, floor_opacity_alpha: 191 }
}

fn image_of(pixels: &[(u32, u32, Rgba)], w: u32, h: u32) -> image::DynamicImage {
    let bg = background();
    let mut img = image::RgbaImage::from_pixel(w, h, image::Rgba([bg.red, bg.green, bg.blue,
        bg.alpha]));
    for &(x, y, c) in pixels {
        img.put_pixel(x, y, image::Rgba([c.red, c.green, c.blue, c.alpha]));
    }
    image::DynamicImage::ImageRgba8(img)
}

#[test]
fn loader_rejects_mismatched_dimensions() {
    let mut map = TileMap::new(4, 4, 640, 480, background(), Rgba::new(255, 255, 255, 255));
    let img = image_of(&[], 4, 5);
    assert_eq!(map.load_from_bitmap(&img, 0, mapper()), Err(TileMapError::DimensionMismatch));
    assert!(map.get_tile_state(0, 0, 0).is_none());
}

#[test]
fn loader_builds_cells_from_pixels() {
    let mut map = TileMap::new(4, 4, 640, 480, background(), Rgba::new(255, 255, 255, 255));
    let img = image_of(&[(1, 2, accent_1()), (3, 0, Rgba::new(50, 60, 70, 255))], 4, 4);
    let spawn = map.load_from_bitmap(&img, 0, mapper()).unwrap();
    assert_eq!(spawn, None);

    // Background pixels become wall tiles with no blend color.
    let wall = map.get_tile_state(0, 0, 0).unwrap();
    assert_eq!(wall.texture, Some(WALL));
    // Accent pixels become floor tiles tinted with the accent.
    let objective = map.get_tile_state(1, 2, 0).unwrap();
    assert_eq!(objective.texture, Some(FLOOR));
    assert_eq!(objective.original_blend_color, accent_1());
    // Any other color becomes plain floor at the mapper's opacity.
    let floor = map.get_tile_state(3, 0, 0).unwrap();
    assert_eq!(floor.texture, Some(FLOOR));
    assert_eq!(floor.original_blend_color, Rgba::new(255, 255, 255, 191));
}

#[test]
fn loader_reports_the_first_spawn_point() {
    let mut map = TileMap::new(4, 4, 640, 480, background(), Rgba::new(255, 255, 255, 255));
    // Two spawn pixels; the row-major first one wins.
    let img = image_of(&[(3, 1, accent_3()), (0, 2, accent_3())], 4, 4);
    let spawn = map.load_from_bitmap(&img, 0, mapper()).unwrap();
    assert_eq!(spawn, Some((3, 1)));
}

#[test]
fn game_map_loads_levels_and_counts_objectives() {
    let mut game = GameMap::new(WALL, FLOOR, 1024, 768);
    assert_eq!(game.objectives_remaining, 0);

    let img = image_of(
        &[
            (10, 10, accent_1()),
            (20, 30, accent_1()),
            (40, 50, accent_1()),
            (64, 64, accent_3()),
        ],
        WIDTH as u32,
        HEIGHT as u32,
    );
    let spawn = game.load_map(&img, 1024, 768).unwrap();
    assert_eq!(spawn, Some((64, 64)));
    assert_eq!(game.objectives_remaining, 3);

    // Freshly loaded tiles sit far below their rest height, rising to it.
    let state = game.map.get_tile_state(10, 10, FOREGROUND_LAYER).unwrap();
    assert_eq!(state.height_offset, -100000);
    assert_eq!(state.target_height_offset, 0);

    // Clearing an objective patch by flood fill lowers the count.
    let cleared = game.map.flood_fill_tiles_original_color(
        10,
        10,
        FOREGROUND_LAYER,
        accent_1(),
        tilegrid::game_map::accent_2(),
    );
    assert_eq!(cleared, 1);
    game.objectives_remaining -= cleared;
    assert_eq!(game.objectives_remaining, 2);

    let wrong_size = image_of(&[], 16, 16);
    assert_eq!(
        game.load_map(&wrong_size, 1024, 768),
        Err(TileMapError::DimensionMismatch)
    );
}

#[test]
fn wall_collision_resolution_tries_each_axis() {
    let mut map = TileMap::new(8, 8, 640, 480, background(), Rgba::new(255, 255, 255, 255));
    for x in 0..8 {
        for y in 0..8 {
            map.set_tile(
                x,
                y,
                0,
                Tile::Filled { texture: FLOOR, height_offset: None, blend_color: None },
            )
            .unwrap();
        }
    }
    let wall_tile = Tile::Filled { texture: WALL, height_offset: None, blend_color: None };

    // Open candidate: the move stands.
    assert_eq!(resolve_wall_collision(&map, WALL, 1, 1, 2, 2), (2, 2));

    // Wall at the candidate, open at (last_x, cand_y): X reverts.
    map.set_tile(2, 2, 0, wall_tile).unwrap();
    assert_eq!(resolve_wall_collision(&map, WALL, 1, 1, 2, 2), (1, 2));

    // Also walled at (last_x, cand_y): Y reverts instead.
    map.set_tile(1, 2, 0, wall_tile).unwrap();
    assert_eq!(resolve_wall_collision(&map, WALL, 1, 1, 2, 2), (2, 1));

    // Walled on both axes: the move is fully reverted.
    map.set_tile(2, 1, 0, wall_tile).unwrap();
    assert_eq!(resolve_wall_collision(&map, WALL, 1, 1, 2, 2), (1, 1));
}
