use tilegrid::color::Rgba;
use tilegrid::fog::{Pulse, PulseError, apply_fog, isqrt, wall_at};
use tilegrid::geometry::TileSet;
use tilegrid::tilemap::{Tile, TileMap};

const FLOOR: u32 = 1;
const WALL: u32 = 2;

fn floor_map(width: usize, height: usize) -> TileMap {
    let mut map = TileMap::new(
        width,
        height,
        640,
        480,
        Rgba::new(0, 0, 0, 255),
        Rgba::new(255, 255, 255, 255),
    );
    for x in 0..width {
        for y in 0..height {
            map.set_tile(
                x,
                y,
                0,
                Tile::Filled {
                    texture: FLOOR,
                    height_offset: None,
                    blend_color: Some(Rgba::new(100, 120, 140, 255)),
                },
            )
            .unwrap();
        }
    }
    map
}

fn set_wall(map: &mut TileMap, x: usize, y: usize) {
    map.set_tile(x, y, 0, Tile::Filled { texture: WALL, height_offset: None, blend_color: None })
        .unwrap();
}

#[test]
fn isqrt_exact_values() {
    assert_eq!(isqrt(0), 0);
    assert_eq!(isqrt(1), 1);
    assert_eq!(isqrt(35), 5);
    assert_eq!(isqrt(36), 6);
    assert_eq!(isqrt(1000000), 1000);
}

#[test]
fn pulse_rejects_nonpositive_radius() {
    assert!(matches!(Pulse::new(4, 4, 0), Err(PulseError::InvalidRadius)));
    assert!(matches!(Pulse::new(4, 4, -3), Err(PulseError::InvalidRadius)));
    let pulse = Pulse::new(4, 4, 3).unwrap();
    assert_eq!(pulse.radius(), 0);
    assert_eq!(pulse.max_radius(), 3);
}

#[test]
fn pulse_stops_updating_after_radius_passes_maximum() {
    // With max_radius 3 the cadence is 666 ms; each sufficiently late
    // update grows the ring by one, and the pulse expires past radius 3,
    // however much more time passes.
    let map = floor_map(32, 32);
    let mut pulse = Pulse::new(16, 16, 3).unwrap();
    assert!(pulse.update(700, &map, WALL));
    assert_eq!(pulse.radius(), 1);
    assert!(pulse.update(1400, &map, WALL));
    assert_eq!(pulse.radius(), 2);
    assert!(pulse.update(2100, &map, WALL));
    assert_eq!(pulse.radius(), 3);
    assert!(!pulse.update(2800, &map, WALL));
    assert_eq!(pulse.radius(), 4);
    // Once expired, even an immediate recall (before the next cadence
    // interval) and any later time keep reporting false.
    assert!(!pulse.update(2801, &map, WALL));
    assert!(!pulse.update(100000, &map, WALL));
    assert_eq!(pulse.radius(), 4);
}

#[test]
fn pulse_reveals_ring_band_tiles() {
    let map = floor_map(32, 32);
    let mut pulse = Pulse::new(16, 16, 9).unwrap();
    // Cadence 2000 / 9 = 222 ms; one tick.
    assert!(pulse.update(300, &map, WALL));
    assert_eq!(pulse.radius(), 1);
    // Radius 1 with thickness 5 covers the cells of rings -3..=1.
    assert!(pulse.affects_tile(17, 16));
    assert!(pulse.affects_tile(16, 16));
    assert!(!pulse.affects_tile(30, 30));
}

#[test]
fn pulse_occlusion_excludes_tiles_behind_walls() {
    let mut map = floor_map(32, 32);
    // A straight vertical wall between the origin (2, 5) and (8, 5).
    for y in 1..10 {
        set_wall(&mut map, 5, y);
    }
    assert!(wall_at(&map, WALL, 5, 5));

    let mut pulse = Pulse::new(2, 5, 9).unwrap();
    // Drive the ring radius to 6, so the band covers distance 6.
    let mut t = 0u64;
    for _ in 0..6 {
        t += 300;
        assert!(pulse.update(t, &map, WALL));
    }
    assert_eq!(pulse.radius(), 6);
    // (8, 5) sits on the ring of radius 6, but the wall at (5, 5) lies on
    // the interior of the line of sight.
    assert!(!pulse.affects_tile(8, 5));

    // Removing that one wall cell re-includes the tile.
    map.set_tile(
        5,
        5,
        0,
        Tile::Filled {
            texture: FLOOR,
            height_offset: None,
            blend_color: Some(Rgba::new(100, 120, 140, 255)),
        },
    )
    .unwrap();
    assert!(pulse.update(t + 300, &map, WALL));
    assert_eq!(pulse.radius(), 7);
    // (8, 5) is still within the band (rings 3..=7) and now visible.
    assert!(pulse.affects_tile(8, 5));
}

#[test]
fn fog_pulse_branch_wins_over_distance() {
    // A tile simultaneously within vision radius and covered by a pulse
    // gets the pulse treatment: full canonical color and a height pop.
    let mut map = floor_map(8, 8);
    let mut pulsed = TileSet::new();
    pulsed.insert(2, 2);
    apply_fog(&mut map, 0, 0, &pulsed, WALL);
    let covered = map.get_tile_state(2, 2, 0).unwrap();
    assert_eq!(covered.target_blend_color, Rgba::new(100, 120, 140, 255));
    assert_eq!(covered.target_height_offset, 100);
}

#[test]
fn fog_fades_with_distance_and_clamps_far_tiles() {
    let mut map = floor_map(20, 20);
    let pulsed = TileSet::new();
    apply_fog(&mut map, 0, 0, &pulsed, WALL);

    // At the player the tile is fully lit (alpha saturates at 255).
    let near = map.get_tile_state(0, 0, 0).unwrap();
    assert_eq!(near.target_blend_color, Rgba::new(100, 120, 140, 255));
    assert_eq!(near.target_height_offset, 0);

    // One cell away the alpha falls to (1.1 - 1/6) * 255, in thousandths.
    let one = map.get_tile_state(1, 0, 0).unwrap();
    assert_eq!(one.target_blend_color, Rgba::new(100, 120, 140, 238));

    // Beyond the vision radius the tile is driven to the default color at
    // low opacity.
    let far = map.get_tile_state(15, 15, 0).unwrap();
    assert_eq!(far.target_blend_color, Rgba::new(255, 255, 255, 25));
    assert_eq!(far.target_height_offset, 0);
}

#[test]
fn fog_leaves_wall_tiles_alone() {
    let mut map = floor_map(8, 8);
    set_wall(&mut map, 3, 3);
    let before = map.get_tile_state(3, 3, 0).unwrap();
    let pulsed = TileSet::new();
    apply_fog(&mut map, 0, 0, &pulsed, WALL);
    let after = map.get_tile_state(3, 3, 0).unwrap();
    assert_eq!(after.target_blend_color, before.target_blend_color);
    assert_eq!(after.target_height_offset, before.target_height_offset);
}
