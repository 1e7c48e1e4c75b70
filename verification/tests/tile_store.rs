use tilegrid::color::Rgba;
use tilegrid::tilemap::{Tile, TileMap, TileMapError, TileState};

fn red() -> Rgba {
    Rgba::new(200, 40, 40, 255)
}

fn blue() -> Rgba {
    Rgba::new(40, 40, 200, 255)
}

fn small_map() -> TileMap {
    TileMap::new(5, 5, 640, 480, Rgba::new(0, 0, 0, 255), Rgba::new(255, 255, 255, 255))
}

fn filled(color: Rgba) -> Tile {
    Tile::Filled { texture: 1, height_offset: None, blend_color: Some(color) }
}

#[test]
fn set_and_get_round_trip() {
    let mut map = small_map();
    assert!(map.get_tile_state(2, 2, 0).is_none());
    map.set_tile(2, 2, 0, filled(red())).unwrap();
    let state = map.get_tile_state(2, 2, 0).unwrap();
    assert_eq!(state.texture, Some(1));
    assert_eq!(state.original_blend_color, red());
    assert_eq!(state.blend_color, red());
    assert_eq!(state.target_blend_color, red());
    assert_eq!(state.height_offset, 0);
    // The rest of the lazily created layer is empty.
    let other = map.get_tile_state(0, 0, 0).unwrap();
    assert_eq!(other.texture, None);
}

#[test]
fn set_tile_rejects_out_of_bounds() {
    let mut map = small_map();
    assert_eq!(map.set_tile(5, 0, 0, filled(red())), Err(TileMapError::OutOfBounds));
    assert_eq!(map.set_tile(0, 7, 0, filled(red())), Err(TileMapError::OutOfBounds));
    assert!(map.get_tile_state(9, 9, 0).is_none());
}

#[test]
fn missing_layer_is_absent_not_an_error() {
    let mut map = small_map();
    map.set_tile(1, 1, 0, filled(red())).unwrap();
    assert!(map.get_tile_state(1, 1, -1).is_none());
    assert!(map.get_tile_state(1, 1, 3).is_none());
}

#[test]
fn clear_drops_all_layers() {
    let mut map = small_map();
    map.set_tile(1, 1, 0, filled(red())).unwrap();
    map.set_tile(2, 2, -1, filled(blue())).unwrap();
    map.clear();
    assert!(map.get_tile_state(1, 1, 0).is_none());
    assert!(map.get_tile_state(2, 2, -1).is_none());
}

#[test]
fn default_color_fills_in_for_unset_blend() {
    let mut map = small_map();
    map.set_tile(0, 0, 0, Tile::Filled { texture: 2, height_offset: None, blend_color: None })
        .unwrap();
    let state = map.get_tile_state(0, 0, 0).unwrap();
    assert_eq!(state.original_blend_color, Rgba::new(255, 255, 255, 255));
}

#[test]
fn tile_has_original_color_ignores_alpha() {
    let mut map = small_map();
    map.set_tile(3, 3, 0, filled(Rgba::new(10, 20, 30, 77))).unwrap();
    assert!(map.tile_has_original_color(3, 3, 0, Rgba::new(10, 20, 30, 255)));
    assert!(!map.tile_has_original_color(3, 3, 0, Rgba::new(10, 20, 31, 77)));
    assert!(!map.tile_has_original_color(0, 0, 1, Rgba::new(10, 20, 30, 77)));
}

#[test]
fn update_moves_state_toward_targets_without_overshoot() {
    let mut map = small_map();
    map.set_tile(1, 1, 0, filled(Rgba::new(0, 0, 0, 0))).unwrap();
    let mut state = map.get_tile_state(1, 1, 0).unwrap();
    state.target_blend_color = Rgba::new(255, 255, 255, 255);
    state.target_height_offset = 1000;
    assert!(map.set_tile_state(1, 1, 0, state));

    // 50 ms at interpolation speed 8 is a factor of 0.4.
    map.update(50);
    let stepped = map.get_tile_state(1, 1, 0).unwrap();
    assert_eq!(stepped.blend_color.red, 102);
    assert_eq!(stepped.blend_color.alpha, 102);
    assert_eq!(stepped.height_offset, 400);

    // A frame of 125 ms or more applies one full step: the state lands
    // exactly on the target and never overshoots.
    map.update(10000);
    let settled = map.get_tile_state(1, 1, 0).unwrap();
    assert_eq!(settled.blend_color, Rgba::new(255, 255, 255, 255));
    assert_eq!(settled.height_offset, 1000);
    map.update(10000);
    let still = map.get_tile_state(1, 1, 0).unwrap();
    assert_eq!(still.height_offset, 1000);
}

#[test]
fn flood_fill_recolors_uniform_region_from_center() {
    // A fully uniform 5 by 5 region floods entirely: 25 cells.
    let mut map = small_map();
    for x in 0..5 {
        for y in 0..5 {
            map.set_tile(x, y, 0, filled(red())).unwrap();
        }
    }
    let count = map.flood_fill_tiles_original_color(2, 2, 0, red(), blue());
    assert_eq!(count, 25);
    for x in 0..5 {
        for y in 0..5 {
            let state = map.get_tile_state(x, y, 0).unwrap();
            assert_eq!(state.original_blend_color, blue());
        }
    }
}

#[test]
fn flood_fill_twice_changes_nothing_more() {
    let mut map = small_map();
    for x in 0..5 {
        for y in 0..5 {
            map.set_tile(x, y, 0, filled(red())).unwrap();
        }
    }
    let first = map.flood_fill_tiles_original_color(2, 2, 0, red(), blue());
    assert_eq!(first, 25);
    let second = map.flood_fill_tiles_original_color(2, 2, 0, red(), blue());
    assert_eq!(second, 0);
}

#[test]
fn flood_fill_stops_at_differently_colored_cells() {
    let mut map = small_map();
    for x in 0..5 {
        for y in 0..5 {
            map.set_tile(x, y, 0, filled(red())).unwrap();
        }
    }
    // A vertical stripe of another color splits the region.
    for y in 0..5 {
        map.set_tile(2, y, 0, filled(Rgba::new(9, 9, 9, 255))).unwrap();
    }
    let count = map.flood_fill_tiles_original_color(0, 0, 0, red(), blue());
    assert_eq!(count, 10);
    // The right half keeps its old color.
    let right = map.get_tile_state(4, 4, 0).unwrap();
    assert_eq!(right.original_blend_color, red());
}

#[test]
fn flood_fill_without_match_returns_zero() {
    let mut map = small_map();
    map.set_tile(2, 2, 0, filled(red())).unwrap();
    assert_eq!(map.flood_fill_tiles_original_color(2, 2, 0, blue(), red()), 0);
    assert_eq!(map.flood_fill_tiles_original_color(0, 0, 5, red(), blue()), 0);
}

#[test]
fn projection_round_trip_is_exact_on_grid_points() {
    let mut map = TileMap::new(
        128,
        128,
        1024,
        768,
        Rgba::new(0, 0, 0, 255),
        Rgba::new(255, 255, 255, 255),
    );
    map.set_viewport_offset(-300, 4000);
    map.set_viewport_scale_milli(6000);
    for layer in [-1i8, 0, 3] {
        for &(x, y) in &[(0i64, 0i64), (5, 7), (127, 0), (0, 127), (127, 127), (64, 33)] {
            let (px, py) = map.grid_to_view(x, y, layer);
            assert_eq!(map.view_to_grid(px, py, layer), (x, y));
        }
    }
}

#[test]
fn tile_size_is_uniform_and_aligned() {
    let map = TileMap::new(
        128,
        128,
        1024,
        768,
        Rgba::new(0, 0, 0, 255),
        Rgba::new(255, 255, 255, 255),
    );
    let (tw, th) = map.calculate_tile_size();
    assert_eq!(tw, th);
    // min(1024 / 128, 768 / 128) = 6 at zoom 1, floored to a multiple of 4.
    assert_eq!(tw, 4);
    assert_eq!(tw % 4, 0);
    let (vw, vh) = map.calculate_view_size();
    assert_eq!((vw, vh), (1024, 768));
}

#[test]
fn state_defaults_are_zeroed() {
    let state = TileState {
        texture: None,
        height_offset: 0,
        target_height_offset: 0,
        original_blend_color: Rgba::new(0, 0, 0, 0),
        blend_color: Rgba::new(0, 0, 0, 0),
        target_blend_color: Rgba::new(0, 0, 0, 0),
    };
    assert_eq!(state.texture, None);
}
