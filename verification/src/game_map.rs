//! Game-level map state: the grid dimensions, the palette that level
//! bitmaps are painted in, and the map wrapper that loads levels and tracks
//! objectives.
use vstd::prelude::*;

verus! {

use crate::color::Rgba;
use crate::loader::{ColorMapper, TileLoadResult};
use crate::tilemap::{TextureId, Tile, TileMap, TileMapError, TileState};

/// Map width, in grid units.
pub const WIDTH: usize = 128;

/// Map height, in grid units.
pub const HEIGHT: usize = 128;

/// The drawing layer gameplay happens on.
pub const FOREGROUND_LAYER: i8 = 0;

/// The drawing layer behind the playfield.
pub const BACKGROUND_LAYER: i8 = -1;

/// "Default" color, typically only meaningful for blend masks.
pub open spec fn spec_default_color() -> Rgba {
    Rgba { red: 255, green: 255, blue: 255, alpha: 255 }
}

/// Primary accent, used for unreached objectives.
pub open spec fn spec_accent_1() -> Rgba {
    Rgba { red: 143, green: 182, blue: 87, alpha: 255 }
}

/// Secondary accent, used for reached objectives.
pub open spec fn spec_accent_2() -> Rgba {
    Rgba { red: 151, green: 171, blue: 212, alpha: 255 }
}

/// Tertiary accent, used for player spawn points.
pub open spec fn spec_accent_3() -> Rgba {
    Rgba { red: 239, green: 146, blue: 117, alpha: 255 }
}

/// Fog of war color.
pub open spec fn spec_fog_of_war() -> Rgba {
    Rgba { red: 0, green: 0, blue: 0, alpha: 156 }
}

/// Background color.
pub open spec fn spec_background() -> Rgba {
    Rgba { red: 19, green: 21, blue: 16, alpha: 255 }
}

/// "Default" color, typically only meaningful for blend masks.
pub fn default_color() -> (c: Rgba)
    ensures
        c == spec_default_color(),
{
    Rgba { red: 255, green: 255, blue: 255, alpha: 255 }
}

/// Primary accent, used for unreached objectives.
pub fn accent_1() -> (c: Rgba)
    ensures
        c == spec_accent_1(),
{
    Rgba { red: 143, green: 182, blue: 87, alpha: 255 }
}

/// Secondary accent, used for reached objectives.
pub fn accent_2() -> (c: Rgba)
    ensures
        c == spec_accent_2(),
{
    Rgba { red: 151, green: 171, blue: 212, alpha: 255 }
}

/// Tertiary accent, used for player spawn points.
pub fn accent_3() -> (c: Rgba)
    ensures
        c == spec_accent_3(),
{
    Rgba { red: 239, green: 146, blue: 117, alpha: 255 }
}

/// Fog of war color.
pub fn fog_of_war() -> (c: Rgba)
    ensures
        c == spec_fog_of_war(),
{
    Rgba { red: 0, green: 0, blue: 0, alpha: 156 }
}

/// Background color.
pub fn background() -> (c: Rgba)
    ensures
        c == spec_background(),
{
    Rgba { red: 19, green: 21, blue: 16, alpha: 255 }
}

/// Game-specific color mapper for loading levels from bitmaps: the
/// background color paints walls, the first accent paints objectives, the
/// second dangers, the third the spawn point, and anything else is plain
/// floor at the given opacity.
pub struct LayeredColorMapper {
    pub wall_texture: TextureId,
    pub floor_texture: TextureId,
    /// Alpha given to plain floor tiles.
    pub floor_opacity_alpha: u8,
}

impl ColorMapper for LayeredColorMapper {
    open spec fn spec_map_pixel(&self, x: u32, y: u32, color: Rgba) -> TileLoadResult {
        if color == spec_background() {
            TileLoadResult::Tile(
                Tile::Filled { texture: self.wall_texture, height_offset: None, blend_color: None },
            )
        } else {
            let blend = if color == spec_accent_1() {
                spec_accent_1()
            } else if color == spec_accent_2() {
                spec_accent_2()
            } else if color == spec_accent_3() {
                spec_accent_3()
            } else {
                Rgba { alpha: self.floor_opacity_alpha, ..spec_default_color() }
            };
            let tile = Tile::Filled {
                texture: self.floor_texture,
                height_offset: None,
                blend_color: Some(blend),
            };
            if color == spec_accent_3() {
                TileLoadResult::TileWithSpawn(tile, x, y)
            } else {
                TileLoadResult::Tile(tile)
            }
        }
    }

    fn map_pixel(&self, x: u32, y: u32, color: Rgba) -> (r: TileLoadResult) {
        if color == background() {
            return TileLoadResult::Tile(
                Tile::Filled { texture: self.wall_texture, height_offset: None, blend_color: None },
            );
        }
        let blend = if color == accent_1() {
            accent_1()
        } else if color == accent_2() {
            accent_2()
        } else if color == accent_3() {
            accent_3()
        } else {
            let base = default_color();
            Rgba { alpha: self.floor_opacity_alpha, ..base }
        };
        let tile = Tile::Filled {
            texture: self.floor_texture,
            height_offset: None,
            blend_color: Some(blend),
        };
        if color == accent_3() {
            TileLoadResult::TileWithSpawn(tile, x, y)
        } else {
            TileLoadResult::Tile(tile)
        }
    }
}

/// Whether the foreground cell at `(x, y)` exists and does not carry the
/// wall texture: an agent may stand there.
pub open spec fn spec_open_cell(map: TileMap, wall: TextureId, x: int, y: int) -> bool {
    &&& map.in_bounds(x, y)
    &&& map.has_layer(FOREGROUND_LAYER as int)
    &&& map.spec_state(FOREGROUND_LAYER as int, x, y).texture != Some(wall)
}

/// True iff the foreground cell at `(x, y)` exists and is not a wall.
pub fn open_cell(map: &TileMap, wall: TextureId, x: usize, y: usize) -> (r: bool)
    requires
        map.inv(),
    ensures
        r == spec_open_cell(*map, wall, x as int, y as int),
{
    match map.get_tile_state(x, y, FOREGROUND_LAYER) {
        Some(state) => match state.texture {
            Some(t) => t != wall,
            None => true,
        },
        None => false,
    }
}

/// Resolves an agent's move against the walls: the candidate cell stands if
/// it is not a wall; otherwise the X axis reverts if that cell is open, then
/// the Y axis, and failing both the agent stays where it was.
pub fn resolve_wall_collision(
    map: &TileMap,
    wall: TextureId,
    last_x: usize,
    last_y: usize,
    cand_x: usize,
    cand_y: usize,
) -> (r: (usize, usize))
    requires
        map.inv(),
    ensures
        (r.0 as int, r.1 as int) == (if !crate::fog::spec_wall_at(
            *map,
            wall,
            cand_x as int,
            cand_y as int,
        ) {
            (cand_x as int, cand_y as int)
        } else if spec_open_cell(*map, wall, last_x as int, cand_y as int) {
            (last_x as int, cand_y as int)
        } else if spec_open_cell(*map, wall, cand_x as int, last_y as int) {
            (cand_x as int, last_y as int)
        } else {
            (last_x as int, last_y as int)
        }),
{
    let is_wall = match map.get_tile_state(cand_x, cand_y, FOREGROUND_LAYER) {
        Some(state) => match state.texture {
            Some(t) => t == wall,
            None => false,
        },
        None => false,
    };
    if !is_wall {
        (cand_x, cand_y)
    } else if open_cell(map, wall, last_x, cand_y) {
        (last_x, cand_y)
    } else if open_cell(map, wall, cand_x, last_y) {
        (cand_x, last_y)
    } else {
        (last_x, last_y)
    }
}

/// Number of objective cells (canonical color equal to the first accent)
/// among the first `n` cells of column `x` of the foreground layer.
pub open spec fn spec_objective_col(m: TileMap, x: int, n: int) -> int
    decreases n,
{
    if n <= 0 {
        0
    } else {
        spec_objective_col(m, x, n - 1) + if m.has_layer(FOREGROUND_LAYER as int) && m.spec_state(
            FOREGROUND_LAYER as int,
            x,
            n - 1,
        ).original_blend_color == spec_accent_1() {
            1int
        } else {
            0int
        }
    }
}

/// Number of objective cells among the first `n` columns of the foreground
/// layer.
pub open spec fn spec_objective_count(m: TileMap, n: int) -> int
    decreases n,
{
    if n <= 0 {
        0
    } else {
        spec_objective_count(m, n - 1) + spec_objective_col(m, n - 1, m.spec_height())
    }
}

/// A column holds at most its height in objectives.
proof fn lemma_objective_col_bound(m: TileMap, x: int, n: int)
    ensures
        0 <= spec_objective_col(m, x, n) <= vstd::math::max(n, 0),
    decreases n,
{
    if n > 0 {
        lemma_objective_col_bound(m, x, n - 1);
    }
}

/// The whole grid holds at most width times height objectives.
proof fn lemma_objective_count_bound(m: TileMap, n: int)
    requires
        0 <= m.spec_height(),
    ensures
        0 <= spec_objective_count(m, n) <= vstd::math::max(n, 0) * m.spec_height(),
    decreases n,
{
    if n <= 0 {
    } else {
        lemma_objective_count_bound(m, n - 1);
        lemma_objective_col_bound(m, n - 1, m.spec_height());
        assert(vstd::math::max(n, 0) * m.spec_height() == vstd::math::max(n - 1, 0)
            * m.spec_height() + m.spec_height()) by (nonlinear_arith)
            requires
                n > 0,
                m.spec_height() >= 0,
        ;
    }
}

/// Game map state: the tile grid, the textures that tag walls and floors,
/// and how many objective tiles are left.
pub struct GameMap {
    pub wall_texture: TextureId,
    pub floor_texture: TextureId,
    pub map: TileMap,
    pub objectives_remaining: usize,
}

impl GameMap {
    /// A new, empty game map over a viewport of the given pixel size, zoomed
    /// in to six times the base tile size.
    pub fn new(wall_texture: TextureId, floor_texture: TextureId, view_w: i64, view_h: i64) -> (g:
        GameMap)
        requires
            0 <= view_w <= crate::tilemap::VIEW_LIMIT,
            0 <= view_h <= crate::tilemap::VIEW_LIMIT,
        ensures
            g.map.inv(),
            g.wall_texture == wall_texture,
            g.floor_texture == floor_texture,
            g.objectives_remaining == 0,
            g.map.spec_width() == WIDTH,
            g.map.spec_height() == HEIGHT,
            g.map.spec_color_bg() == spec_background(),
            g.map.spec_color_default() == spec_default_color(),
            forall|l: int| !g.map.has_layer(l),
            g.map.spec_viewport().2 == 6000,
    {
        let mut map = TileMap::new(WIDTH, HEIGHT, view_w, view_h, background(), default_color());
        let ghost m0 = map;
        map.set_viewport_scale_milli(6000);
        proof {
            assert forall|l: int| !map.has_layer(l) by {
                assert(!m0.has_layer(l));
            }
        }
        GameMap { wall_texture, floor_texture, map, objectives_remaining: 0 }
    }

    /// Rebuilds the grid from a level bitmap under the game palette, sinks
    /// every tile far below its rest height so the level visibly rises on
    /// load, and counts the objective tiles. Returns the spawn point the
    /// bitmap reports, if any. The bitmap must match the grid size.
    #[verifier::rlimit(60)]
    pub fn load_map(&mut self, bitmap: &image::DynamicImage, view_w: i64, view_h: i64) -> (r:
        Result<Option<(u32, u32)>, TileMapError>)
        requires
            0 <= view_w <= crate::tilemap::VIEW_LIMIT,
            0 <= view_h <= crate::tilemap::VIEW_LIMIT,
        ensures
            final(self).wall_texture == old(self).wall_texture,
            final(self).floor_texture == old(self).floor_texture,
            final(self).map.inv(),
            r is Ok <==> (crate::loader::image_dims(*bitmap).0 == WIDTH
                && crate::loader::image_dims(*bitmap).1 == HEIGHT),
            r is Err ==> r == Err::<Option<(u32, u32)>, TileMapError>(
                TileMapError::DimensionMismatch,
            ),
            r is Ok ==> {
                &&& final(self).map.spec_width() == WIDTH
                &&& final(self).map.spec_height() == HEIGHT
                &&& final(self).objectives_remaining == spec_objective_count(
                    final(self).map,
                    WIDTH as int,
                )
                &&& spec_all_sunk(final(self).map)
                &&& spec_level_loaded(
                    final(self).map,
                    old(self).wall_texture,
                    old(self).floor_texture,
                    *bitmap,
                )
            },
            (match r {
                Ok(s) => spec_level_spawn(
                    old(self).wall_texture,
                    old(self).floor_texture,
                    *bitmap,
                    s,
                ),
                Err(_) => true,
            }),
    {
        // Rebuild the tile map from scratch to clear out any old state.
        self.map = TileMap::new(WIDTH, HEIGHT, view_w, view_h, background(), default_color());
        let ghost fresh0 = self.map;
        self.map.set_viewport_scale_milli(6000);
        proof {
            assert forall|l: int| !self.map.has_layer(l) by {
                assert(!fresh0.has_layer(l));
            }
        }
        let ghost fresh = self.map;
        let mapper = LayeredColorMapper {
            wall_texture: self.wall_texture,
            floor_texture: self.floor_texture,
            floor_opacity_alpha: 191,
        };
        let ghost gmapper = mapper;
        let ghost wall = self.wall_texture;
        let ghost floor = self.floor_texture;
        let spawn_point = match self.map.load_from_bitmap(bitmap, FOREGROUND_LAYER, mapper) {
            Ok(s) => s,
            Err(e) => {
                return Err(e);
            },
        };
        let ghost loaded = self.map;
        proof {
            assert(gmapper == spec_level_mapper(wall, floor));
            assert(crate::loader::image_dims(*bitmap).0 == WIDTH && crate::loader::image_dims(
                *bitmap,
            ).1 == HEIGHT);
        }
        sink_all_tiles(&mut self.map);
        proof {
            // The layer exists exactly when some pixel decides a tile.
            assert(self.map.has_layer(FOREGROUND_LAYER as int) <==> exists|px: u32, py: u32|
                px < WIDTH && py < HEIGHT && crate::loader::decided_tile(
                    #[trigger] spec_level_pixel(wall, floor, *bitmap, px, py),
                ) is Some) by {
                if self.map.has_layer(FOREGROUND_LAYER as int) {
                    let (px, py) = choose|px: u32, py: u32|
                        px < crate::loader::image_dims(*bitmap).0 && py < crate::loader::image_dims(
                            *bitmap,
                        ).1 && crate::loader::decided_tile(
                            #[trigger] gmapper.spec_map_pixel(
                                px,
                                py,
                                crate::loader::spec_image_color(*bitmap, px, py),
                            ),
                        ) is Some;
                    assert(crate::loader::decided_tile(
                        spec_level_pixel(wall, floor, *bitmap, px, py),
                    ) is Some);
                }
                if exists|px: u32, py: u32|
                    px < WIDTH && py < HEIGHT && crate::loader::decided_tile(
                        #[trigger] spec_level_pixel(wall, floor, *bitmap, px, py),
                    ) is Some {
                    let (px, py) = choose|px: u32, py: u32|
                        px < WIDTH && py < HEIGHT && crate::loader::decided_tile(
                            #[trigger] spec_level_pixel(wall, floor, *bitmap, px, py),
                        ) is Some;
                    assert(crate::loader::decided_tile(
                        gmapper.spec_map_pixel(
                            px,
                            py,
                            crate::loader::spec_image_color(*bitmap, px, py),
                        ),
                    ) is Some);
                    assert(loaded.has_layer(FOREGROUND_LAYER as int));
                }
            }
            // Every foreground cell is the pixel's decision, sunk.
            if self.map.has_layer(FOREGROUND_LAYER as int) {
                assert forall|px: u32, py: u32| px < WIDTH && py < HEIGHT
                    implies #[trigger] self.map.spec_cell(
                    FOREGROUND_LAYER as int,
                    px as int,
                    py as int,
                ) == (match crate::loader::decided_tile(
                    spec_level_pixel(wall, floor, *bitmap, px, py),
                ) {
                    Some(t) => (t, spec_sunk(TileState::spec_from_tile(t, spec_default_color()))),
                    None => (Tile::Empty, spec_sunk(TileState::spec_default())),
                }) by {
                    assert(gmapper.spec_map_pixel(
                        px,
                        py,
                        crate::loader::spec_image_color(*bitmap, px, py),
                    ) == spec_level_pixel(wall, floor, *bitmap, px, py));
                    assert(loaded.spec_cell(FOREGROUND_LAYER as int, px as int, py as int) == (
                    match crate::loader::decided_tile(
                        spec_level_pixel(wall, floor, *bitmap, px, py),
                    ) {
                        Some(t) => (t, TileState::spec_from_tile(t, spec_default_color())),
                        None => (Tile::Empty, TileState::spec_default()),
                    }));
                    assert(loaded.in_bounds(px as int, py as int));
                }
            }
            // The returned spawn point is the first the bitmap reports.
            assert(spec_level_spawn(wall, floor, *bitmap, spawn_point)) by {
                match spawn_point {
                    Some(_) => {
                        let (px, py) = choose|px: u32, py: u32|
                            px < crate::loader::image_dims(*bitmap).0 && py
                                < crate::loader::image_dims(*bitmap).1 && (
                            #[trigger] gmapper.spec_map_pixel(
                                px,
                                py,
                                crate::loader::spec_image_color(*bitmap, px, py),
                            ) matches TileLoadResult::TileWithSpawn(_, sx, sy) && Some((sx, sy))
                                == spawn_point) && (forall|qx: u32, qy: u32|
                                qx < crate::loader::image_dims(*bitmap).0 && qy
                                    < crate::loader::image_dims(*bitmap).1
                                    && crate::loader::pixel_before(qx, qy, px, py)
                                    ==> !crate::loader::is_spawn(
                                    #[trigger] gmapper.spec_map_pixel(
                                        qx,
                                        qy,
                                        crate::loader::spec_image_color(*bitmap, qx, qy),
                                    ),
                                ));
                        assert(spec_level_pixel(
                            wall,
                            floor,
                            *bitmap,
                            px,
                            py,
                        ) matches TileLoadResult::TileWithSpawn(_, sx, sy) && Some((sx, sy))
                            == spawn_point);
                        assert forall|qx: u32, qy: u32|
                            qx < WIDTH && qy < HEIGHT && crate::loader::pixel_before(
                                qx,
                                qy,
                                px,
                                py,
                            ) implies !crate::loader::is_spawn(
                            #[trigger] spec_level_pixel(wall, floor, *bitmap, qx, qy),
                        ) by {
                            assert(!crate::loader::is_spawn(
                                gmapper.spec_map_pixel(
                                    qx,
                                    qy,
                                    crate::loader::spec_image_color(*bitmap, qx, qy),
                                ),
                            ));
                        }
                    },
                    None => {
                        assert forall|px: u32, py: u32| px < WIDTH && py < HEIGHT
                            implies !crate::loader::is_spawn(
                            #[trigger] spec_level_pixel(wall, floor, *bitmap, px, py),
                        ) by {
                            assert(!crate::loader::is_spawn(
                                gmapper.spec_map_pixel(
                                    px,
                                    py,
                                    crate::loader::spec_image_color(*bitmap, px, py),
                                ),
                            ));
                        }
                    },
                }
            }
        }
        self.objectives_remaining = count_objectives(&self.map);
        Ok(spawn_point)
    }

    /// Advances the grid's animated state one frame.
    pub fn update(&mut self, delta_millis: u32)
        requires
            old(self).map.inv(),
        ensures
            final(self).map.inv(),
            final(self).wall_texture == old(self).wall_texture,
            final(self).floor_texture == old(self).floor_texture,
            final(self).objectives_remaining == old(self).objectives_remaining,
            final(self).map.same_layers(old(self).map),
            final(self).map.spec_width() == old(self).map.spec_width(),
            final(self).map.spec_height() == old(self).map.spec_height(),
            forall|l: int, x: int, y: int|
                old(self).map.has_layer(l) && old(self).map.in_bounds(x, y)
                    ==> #[trigger] final(self).map.spec_cell(l, x, y) == (
                    old(self).map.spec_tile(l, x, y),
                    TileMap::spec_state_step(
                        old(self).map.spec_state(l, x, y),
                        TileMap::spec_interp_factor(delta_millis as int),
                    ),
                ),
    {
        self.map.update(delta_millis);
    }
}

/// A cell state as the level loader leaves it: sunk far below its rest
/// height, with the rest height as its target.
pub open spec fn spec_sunk(s: TileState) -> TileState {
    TileState { height_offset: -100000i32, target_height_offset: 0i32, ..s }
}

/// The color mapper a level loads under: the given wall and floor textures,
/// with plain floor at three-quarter opacity.
pub open spec fn spec_level_mapper(wall: TextureId, floor: TextureId) -> LayeredColorMapper {
    LayeredColorMapper { wall_texture: wall, floor_texture: floor, floor_opacity_alpha: 191 }
}

/// What one pixel of a level bitmap decides under the level palette.
pub open spec fn spec_level_pixel(
    wall: TextureId,
    floor: TextureId,
    bitmap: image::DynamicImage,
    px: u32,
    py: u32,
) -> TileLoadResult {
    spec_level_mapper(wall, floor).spec_map_pixel(
        px,
        py,
        crate::loader::spec_image_color(bitmap, px, py),
    )
}

/// Whether the foreground of `m` holds exactly the level `bitmap` paints
/// under the level palette, with every cell sunk for its rise on load:
/// pixels that decide a tile get it, freshly stated from the default color;
/// the rest stay empty. The layer exists exactly when some pixel decides a
/// tile.
pub open spec fn spec_level_loaded(
    m: TileMap,
    wall: TextureId,
    floor: TextureId,
    bitmap: image::DynamicImage,
) -> bool {
    &&& (m.has_layer(FOREGROUND_LAYER as int) <==> exists|px: u32, py: u32|
        px < WIDTH && py < HEIGHT && crate::loader::decided_tile(
            #[trigger] spec_level_pixel(wall, floor, bitmap, px, py),
        ) is Some)
    &&& m.has_layer(FOREGROUND_LAYER as int) ==> forall|px: u32, py: u32|
        px < WIDTH && py < HEIGHT ==> #[trigger] m.spec_cell(
            FOREGROUND_LAYER as int,
            px as int,
            py as int,
        ) == (match crate::loader::decided_tile(spec_level_pixel(wall, floor, bitmap, px, py)) {
            Some(t) => (t, spec_sunk(TileState::spec_from_tile(t, spec_default_color()))),
            None => (Tile::Empty, spec_sunk(TileState::spec_default())),
        })
}

/// Whether `s` is the first spawn point `bitmap` reports under the level
/// palette, in the loader's row-major pixel order; `None` means no pixel
/// reports one.
pub open spec fn spec_level_spawn(
    wall: TextureId,
    floor: TextureId,
    bitmap: image::DynamicImage,
    s: Option<(u32, u32)>,
) -> bool {
    match s {
        Some(p) => exists|px: u32, py: u32|
            px < WIDTH && py < HEIGHT && (#[trigger] spec_level_pixel(
                wall,
                floor,
                bitmap,
                px,
                py,
            ) matches TileLoadResult::TileWithSpawn(_, sx, sy) && (sx, sy) == p) && (forall|
                qx: u32,
                qy: u32,
            |
                qx < WIDTH && qy < HEIGHT && crate::loader::pixel_before(qx, qy, px, py)
                    ==> !crate::loader::is_spawn(
                    #[trigger] spec_level_pixel(wall, floor, bitmap, qx, qy),
                )),
        None => forall|px: u32, py: u32|
            px < WIDTH && py < HEIGHT ==> !crate::loader::is_spawn(
                #[trigger] spec_level_pixel(wall, floor, bitmap, px, py),
            ),
    }
}

/// Whether every existing foreground cell sits far below its rest height
/// with the rest height as its target, as a freshly loaded level does.
pub open spec fn spec_all_sunk(m: TileMap) -> bool {
    m.has_layer(FOREGROUND_LAYER as int) ==> forall|x: int, y: int|
        m.in_bounds(x, y) ==> (#[trigger] m.spec_state(
            FOREGROUND_LAYER as int,
            x,
            y,
        ).height_offset == -100000 && m.spec_state(
            FOREGROUND_LAYER as int,
            x,
            y,
        ).target_height_offset == 0)
}

/// Sinks every existing foreground tile far below its rest height, with the
/// rest height as its target, so a freshly loaded level visibly rises.
fn sink_all_tiles(map: &mut TileMap)
    requires
        old(map).inv(),
    ensures
        final(map).inv(),
        final(map).spec_width() == old(map).spec_width(),
        final(map).spec_height() == old(map).spec_height(),
        final(map).spec_color_bg() == old(map).spec_color_bg(),
        final(map).spec_color_default() == old(map).spec_color_default(),
        forall|l: int| final(map).has_layer(l) == #[trigger] old(map).has_layer(l),
        old(map).has_layer(FOREGROUND_LAYER as int) ==> forall|x: int, y: int|
            old(map).in_bounds(x, y) ==> #[trigger] final(map).spec_cell(
                FOREGROUND_LAYER as int,
                x,
                y,
            ) == (
                old(map).spec_tile(FOREGROUND_LAYER as int, x, y),
                spec_sunk(old(map).spec_state(FOREGROUND_LAYER as int, x, y)),
            ),
        spec_all_sunk(*final(map)),
{
    let ghost pre = *map;
    proof {
        map.lemma_inv_bounds();
    }
    let width = map.width();
    let height = map.height();
    let mut x: usize = 0;
    while x < width
        invariant
            map.inv(),
            pre.inv(),
            width == map.spec_width(),
            height == map.spec_height(),
            width == pre.spec_width(),
            height == pre.spec_height(),
            map.spec_color_bg() == pre.spec_color_bg(),
            map.spec_color_default() == pre.spec_color_default(),
            0 <= x <= width,
            forall|l: int| map.has_layer(l) == #[trigger] pre.has_layer(l),
            pre.has_layer(FOREGROUND_LAYER as int) ==> forall|xx: int, yy: int|
                pre.in_bounds(xx, yy) && xx < x ==> #[trigger] map.spec_cell(
                    FOREGROUND_LAYER as int,
                    xx,
                    yy,
                ) == (
                    pre.spec_tile(FOREGROUND_LAYER as int, xx, yy),
                    spec_sunk(pre.spec_state(FOREGROUND_LAYER as int, xx, yy)),
                ),
            pre.has_layer(FOREGROUND_LAYER as int) ==> forall|xx: int, yy: int|
                pre.in_bounds(xx, yy) && xx >= x ==> #[trigger] map.spec_cell(
                    FOREGROUND_LAYER as int,
                    xx,
                    yy,
                ) == pre.spec_cell(FOREGROUND_LAYER as int, xx, yy),
        decreases width - x,
    {
        let mut y: usize = 0;
        while y < height
            invariant
                map.inv(),
                pre.inv(),
                width == map.spec_width(),
                height == map.spec_height(),
                width == pre.spec_width(),
                height == pre.spec_height(),
                map.spec_color_bg() == pre.spec_color_bg(),
                map.spec_color_default() == pre.spec_color_default(),
                0 <= x < width,
                0 <= y <= height,
                forall|l: int| map.has_layer(l) == #[trigger] pre.has_layer(l),
                pre.has_layer(FOREGROUND_LAYER as int) ==> forall|xx: int, yy: int|
                    pre.in_bounds(xx, yy) && (xx < x || (xx == x && yy < y))
                        ==> #[trigger] map.spec_cell(FOREGROUND_LAYER as int, xx, yy) == (
                        pre.spec_tile(FOREGROUND_LAYER as int, xx, yy),
                        spec_sunk(pre.spec_state(FOREGROUND_LAYER as int, xx, yy)),
                    ),
                pre.has_layer(FOREGROUND_LAYER as int) ==> forall|xx: int, yy: int|
                    pre.in_bounds(xx, yy) && (xx > x || (xx == x && yy >= y))
                        ==> #[trigger] map.spec_cell(FOREGROUND_LAYER as int, xx, yy)
                        == pre.spec_cell(FOREGROUND_LAYER as int, xx, yy),
            decreases height - y,
        {
            let ghost before = *map;
            match map.get_tile_state(x, y, FOREGROUND_LAYER) {
                None => {},
                Some(state) => {
                    let sunk = TileState {
                        height_offset: -100000,
                        target_height_offset: 0,
                        ..state
                    };
                    let updated = map.set_tile_state(x, y, FOREGROUND_LAYER, sunk);
                    proof {
                        assert(updated);
                        assert forall|xx: int, yy: int|
                            before.in_bounds(xx, yy) && (xx != x as int || yy != y as int)
                                implies #[trigger] map.spec_cell(FOREGROUND_LAYER as int, xx, yy)
                            == before.spec_cell(FOREGROUND_LAYER as int, xx, yy) by {}
                        assert(map.spec_cell(FOREGROUND_LAYER as int, x as int, y as int) == (
                            pre.spec_tile(FOREGROUND_LAYER as int, x as int, y as int),
                            spec_sunk(pre.spec_state(FOREGROUND_LAYER as int, x as int, y as int)),
                        ));
                    }
                },
            }
            y = y + 1;
        }
        x = x + 1;
    }
}

/// Counts the objective tiles: foreground cells whose canonical color is
/// the first accent.
fn count_objectives(map: &TileMap) -> (count: usize)
    requires
        map.inv(),
        map.spec_width() == WIDTH,
        map.spec_height() == HEIGHT,
    ensures
        count == spec_objective_count(*map, WIDTH as int),
{
    let mut count: usize = 0;
    let mut x: usize = 0;
    while x < WIDTH
        invariant
            map.inv(),
            map.spec_width() == WIDTH,
            map.spec_height() == HEIGHT,
            0 <= x <= WIDTH,
            count == spec_objective_count(*map, x as int),
            count <= x * HEIGHT,
        decreases WIDTH - x,
    {
        let mut y: usize = 0;
        while y < HEIGHT
            invariant
                map.inv(),
                map.spec_width() == WIDTH,
                map.spec_height() == HEIGHT,
                0 <= x < WIDTH,
                0 <= y <= HEIGHT,
                count == spec_objective_count(*map, x as int) + spec_objective_col(
                    *map,
                    x as int,
                    y as int,
                ),
                count <= x * HEIGHT + y,
            decreases HEIGHT - y,
        {
            proof {
                lemma_objective_count_bound(*map, x as int);
                lemma_objective_col_bound(*map, x as int, y as int);
            }
            match map.get_tile_state(x, y, FOREGROUND_LAYER) {
                None => {},
                Some(state) => {
                    if state.original_blend_color == accent_1() {
                        count = count + 1;
                    }
                },
            }
            y = y + 1;
        }
        x = x + 1;
    }
    count
}

} // verus!
