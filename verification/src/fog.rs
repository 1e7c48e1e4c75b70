//! Fog of war and pulse visibility: expanding ring wavefronts with
//! line-of-sight occlusion, composed with distance-based fog falloff.
use vstd::prelude::*;

verus! {

use crate::color::Rgba;
use crate::game_map::FOREGROUND_LAYER;
use crate::geometry::{COORD_LIMIT, TileSet, spec_line_points};
use crate::tilemap::{TextureId, TileMap, TileState};

/// Largest pulse radius for the smallest pulse kind: five percent of the
/// map height.
pub const TINY_MAX_PULSE_RADIUS: i64 = 6;

/// Largest pulse radius for the small pulse kind: a tenth of the map height.
pub const SMALL_MAX_PULSE_RADIUS: i64 = 12;

/// Largest pulse radius for the medium pulse kind: a fifth of the map
/// height.
pub const MEDIUM_MAX_PULSE_RADIUS: i64 = 25;

/// Largest pulse radius for the large pulse kind: three tenths of the map
/// height.
pub const LARGE_MAX_PULSE_RADIUS: i64 = 38;

/// Ring thickness of a pulse wavefront, in cells.
pub const PULSE_THICKNESS: i64 = 5;

/// Distance, in cells, within which tiles are lit by plain vision.
pub const VISION_RADIUS: i64 = 6;

/// Latest accepted time stamp, in milliseconds.
pub const TIME_LIMIT: u64 = 0x4000000000000000;

/// Whether `r` is the integer square root of `n`: the largest integer whose
/// square does not exceed `n`.
pub open spec fn is_isqrt(n: int, r: int) -> bool {
    0 <= r && r * r <= n && n < (r + 1) * (r + 1)
}

/// The integer square root.
pub closed spec fn spec_isqrt(n: int) -> int {
    choose|r: int| is_isqrt(n, r)
}

/// The integer square root is unique.
pub proof fn lemma_isqrt_unique(n: int, r: int)
    requires
        is_isqrt(n, r),
    ensures
        spec_isqrt(n) == r,
{
    let c = spec_isqrt(n);
    assert(is_isqrt(n, c));
    if c < r {
        assert((c + 1) * (c + 1) <= r * r) by (nonlinear_arith)
            requires
                0 <= c + 1 <= r,
        ;
    }
    if r < c {
        assert((r + 1) * (r + 1) <= c * c) by (nonlinear_arith)
            requires
                0 <= r + 1 <= c,
        ;
    }
}

/// The integer square root, by bisection.
pub fn isqrt(n: u64) -> (r: u64)
    requires
        n < 0x4000000000000000,
    ensures
        r == spec_isqrt(n as int),
        is_isqrt(n as int, r as int),
{
    let mut lo: u64 = 0;
    let mut hi: u64 = 0x80000000;
    proof {
        assert((0x80000000int) * 0x80000000 == 0x4000000000000000) by (nonlinear_arith);
    }
    while hi - lo > 1
        invariant
            lo < hi <= 0x80000000,
            lo * lo <= n,
            (n as int) < (hi as int) * (hi as int),
        decreases hi - lo,
    {
        let mid = lo + (hi - lo) / 2;
        proof {
            assert(mid * mid <= 0x4000000000000000) by (nonlinear_arith)
                requires
                    0 <= mid <= 0x80000000,
            ;
        }
        if mid * mid <= n {
            lo = mid;
        } else {
            hi = mid;
        }
    }
    proof {
        assert((lo as int + 1) * (lo as int + 1) == (hi as int) * (hi as int));
        lemma_isqrt_unique(n as int, lo as int);
    }
    lo
}

/// Whether the cell at `(x, y)` on the foreground layer carries the wall
/// texture: such cells block line of sight and are never fogged.
pub open spec fn spec_wall_at(map: TileMap, wall: TextureId, x: int, y: int) -> bool {
    &&& map.in_bounds(x, y)
    &&& map.has_layer(FOREGROUND_LAYER as int)
    &&& map.spec_state(FOREGROUND_LAYER as int, x, y).texture == Some(wall)
}

/// True iff the cell at `(x, y)` carries the wall texture.
pub fn wall_at(map: &TileMap, wall: TextureId, x: i64, y: i64) -> (r: bool)
    requires
        map.inv(),
    ensures
        r == spec_wall_at(*map, wall, x as int, y as int),
{
    proof {
        map.lemma_inv_bounds();
    }
    if x < 0 || y < 0 {
        return false;
    }
    let w = map.width();
    let h = map.height();
    if x >= w as i64 || y >= h as i64 {
        return false;
    }
    match map.get_tile_state(x as usize, y as usize, FOREGROUND_LAYER) {
        Some(state) => match state.texture {
            Some(t) => t == wall,
            None => false,
        },
        None => false,
    }
}

/// Whether the straight line of sight from `(ox, oy)` to `(tx, ty)` is
/// blocked: some interior cell of the rasterized line between them (both
/// endpoints excluded) carries the wall texture.
pub open spec fn spec_occluded(
    map: TileMap,
    wall: TextureId,
    ox: int,
    oy: int,
    tx: int,
    ty: int,
) -> bool {
    exists|i: int|
        0 < i < spec_line_points(ox, oy, tx, ty).len() - 1 && spec_wall_at(
            map,
            wall,
            (#[trigger] spec_line_points(ox, oy, tx, ty)[i]).0,
            spec_line_points(ox, oy, tx, ty)[i].1,
        )
}

/// True iff the line of sight from `(ox, oy)` to `(tx, ty)` passes through
/// a wall cell strictly between the endpoints.
fn occluded(map: &TileMap, wall: TextureId, ox: i64, oy: i64, tx: i64, ty: i64) -> (r: bool)
    requires
        map.inv(),
        -COORD_LIMIT <= ox <= COORD_LIMIT,
        -COORD_LIMIT <= oy <= COORD_LIMIT,
        -COORD_LIMIT <= tx <= COORD_LIMIT,
        -COORD_LIMIT <= ty <= COORD_LIMIT,
    ensures
        r == spec_occluded(*map, wall, ox as int, oy as int, tx as int, ty as int),
{
    let line = map.tiles_on_line_between(ox, oy, tx, ty);
    let ghost lp = spec_line_points(ox as int, oy as int, tx as int, ty as int);
    if line.len() < 3 {
        return false;
    }
    let mut i: usize = 1;
    while i < line.len() - 1
        invariant
            map.inv(),
            lp == spec_line_points(ox as int, oy as int, tx as int, ty as int),
            line@.len() == lp.len(),
            3 <= line@.len(),
            forall|k: int|
                0 <= k < line@.len() ==> (#[trigger] line@[k].0 as int, line@[k].1 as int) == lp[k],
            1 <= i,
            i <= line@.len(),
            forall|k: int|
                0 < k < i ==> !spec_wall_at(*map, wall, (#[trigger] lp[k]).0, lp[k].1),
        decreases line@.len() - i,
    {
        let p = line[i];
        if wall_at(map, wall, p.0, p.1) {
            proof {
                assert(lp[i as int] == (p.0 as int, p.1 as int));
            }
            return true;
        }
        i = i + 1;
    }
    false
}

/// What a pulse construction can be refused for.
#[derive(Clone, Copy, Debug, PartialEq, Eq, Structural)]
pub enum PulseError {
    /// The largest radius must be positive, else the expansion cadence is
    /// undefined.
    InvalidRadius,
}

/// A transient visibility wavefront: an expanding ring around an origin
/// that temporarily reveals the tiles it covers, except those occluded by
/// walls.
pub struct Pulse {
    origin_x: i64,
    origin_y: i64,
    radius: i64,
    max_radius: i64,
    timestamp_millis: u64,
    affected_tiles: TileSet,
}

impl Pulse {
    /// Structural invariant: the origin and radii are bounded so the
    /// rasterizers accept them, and the affected set is well formed.
    pub closed spec fn inv(self) -> bool {
        &&& -COORD_LIMIT <= self.origin_x <= COORD_LIMIT
        &&& -COORD_LIMIT <= self.origin_y <= COORD_LIMIT
        &&& 1 <= self.max_radius <= COORD_LIMIT - 1
        &&& 0 <= self.radius <= self.max_radius + 1
        &&& self.timestamp_millis <= TIME_LIMIT
        &&& self.affected_tiles.inv()
    }

    pub closed spec fn spec_origin(self) -> (int, int) {
        (self.origin_x as int, self.origin_y as int)
    }

    pub closed spec fn spec_radius(self) -> int {
        self.radius as int
    }

    pub closed spec fn spec_max_radius(self) -> int {
        self.max_radius as int
    }

    pub closed spec fn spec_timestamp(self) -> int {
        self.timestamp_millis as int
    }

    /// Whether the pulse currently reveals the cell `(x, y)`.
    pub closed spec fn spec_affects(self, x: int, y: int) -> bool {
        self.affected_tiles.spec_contains(x, y)
    }

    /// The expansion cadence: the pulse's ring advances one cell every
    /// `2000 / max_radius` milliseconds, so every pulse takes about two
    /// seconds to run its course.
    pub open spec fn spec_interval_millis(max_radius: int) -> int {
        2000int / max_radius
    }

    /// A new pulse at the given grid origin, with radius zero, no tiles
    /// affected yet, and the clock at zero. A nonpositive `max_radius` is
    /// rejected: it would make the expansion cadence undefined.
    pub fn new(origin_x: i64, origin_y: i64, max_radius: i64) -> (r: Result<Pulse, PulseError>)
        requires
            -COORD_LIMIT <= origin_x <= COORD_LIMIT,
            -COORD_LIMIT <= origin_y <= COORD_LIMIT,
            max_radius <= COORD_LIMIT - 1,
        ensures
            r is Ok <==> max_radius >= 1,
            r is Err ==> r == Err::<Pulse, PulseError>(PulseError::InvalidRadius),
            r matches Ok(p) ==> {
                &&& p.inv()
                &&& p.spec_origin() == (origin_x as int, origin_y as int)
                &&& p.spec_radius() == 0
                &&& p.spec_max_radius() == max_radius as int
                &&& p.spec_timestamp() == 0
                &&& forall|x: int, y: int| !p.spec_affects(x, y)
            },
    {
        if max_radius < 1 {
            return Err(PulseError::InvalidRadius);
        }
        Ok(
            Pulse {
                origin_x,
                origin_y,
                radius: 0,
                max_radius,
                timestamp_millis: 0,
                affected_tiles: TileSet::new(),
            },
        )
    }

    /// The pulse origin, in grid units.
    pub fn origin(&self) -> (r: (i64, i64))
        ensures
            (r.0 as int, r.1 as int) == self.spec_origin(),
    {
        (self.origin_x, self.origin_y)
    }

    /// The current ring radius, in cells.
    pub fn radius(&self) -> (r: i64)
        ensures
            r == self.spec_radius(),
    {
        self.radius
    }

    /// The radius past which the pulse expires.
    pub fn max_radius(&self) -> (r: i64)
        ensures
            r == self.spec_max_radius(),
    {
        self.max_radius
    }

    /// True iff the pulse currently reveals the cell `(x, y)`.
    pub fn affects_tile(&self, x: usize, y: usize) -> (r: bool)
        ensures
            r == self.spec_affects(x as int, y as int),
    {
        self.affected_tiles.contains(x, y)
    }

    /// Advances the pulse for the current frame and recomputes the tiles it
    /// reveals: whenever the expansion cadence has elapsed, the ring radius
    /// grows by one. A pulse whose radius has passed its maximum reports
    /// false (it will not update again, however much time passes) and is to
    /// be dropped. The revealed tiles are those of the ring band at the
    /// current radius, minus the ones whose line of sight from the origin
    /// crosses a wall.
    pub fn update(&mut self, current_time_millis: u64, map: &TileMap, wall_texture: TextureId) -> (r:
        bool)
        requires
            old(self).inv(),
            map.inv(),
            current_time_millis <= TIME_LIMIT,
        ensures
            final(self).inv(),
            final(self).spec_origin() == old(self).spec_origin(),
            final(self).spec_max_radius() == old(self).spec_max_radius(),
            ({
                let expired = old(self).spec_radius() > old(self).spec_max_radius();
                let ticked = !expired && current_time_millis > old(self).spec_timestamp()
                    + Pulse::spec_interval_millis(old(self).spec_max_radius());
                &&& final(self).spec_radius() == (if ticked {
                    old(self).spec_radius() + 1
                } else {
                    old(self).spec_radius()
                })
                &&& r == (final(self).spec_radius() <= old(self).spec_max_radius())
                &&& final(self).spec_timestamp() == (if ticked {
                    current_time_millis as int
                } else {
                    old(self).spec_timestamp()
                })
                &&& old(self).spec_radius() > old(self).spec_max_radius() ==> !r && *final(self)
                    == *old(self)
                &&& !r ==> final(self).affected_unchanged(*old(self))
                &&& r ==> forall|a: int, b: int|
                    #[trigger] final(self).spec_affects(a, b) <==> (TileMap::spec_in_ring_band(
                        old(self).spec_origin().0,
                        old(self).spec_origin().1,
                        final(self).spec_radius(),
                        PULSE_THICKNESS as int,
                        a,
                        b,
                    ) && map.in_bounds(a, b) && !spec_occluded(
                        *map,
                        wall_texture,
                        old(self).spec_origin().0,
                        old(self).spec_origin().1,
                        a,
                        b,
                    ))
            }),
    {
        if self.radius > self.max_radius {
            // Expired: the pulse never advances or reveals anything again.
            return false;
        }
        let interval = 2000u64 / (self.max_radius as u64);
        let ticked = current_time_millis > self.timestamp_millis + interval;
        if ticked {
            self.timestamp_millis = current_time_millis;
            self.radius = self.radius + 1;
            if self.radius > self.max_radius {
                return false;
            }
        }
        // Gather the wavefront ring band.
        self.affected_tiles.clear();
        map.tiles_on_radius_with_thickness(
            &mut self.affected_tiles,
            self.origin_x,
            self.origin_y,
            self.radius,
            PULSE_THICKNESS,
        );
        // Subtract the tiles whose line of sight from the origin is blocked.
        let mut kept = TileSet::new();
        let total = self.affected_tiles.len();
        let mut i: usize = 0;
        while i < total
            invariant
                map.inv(),
                self.affected_tiles.inv(),
                kept.inv(),
                -COORD_LIMIT <= self.origin_x <= COORD_LIMIT,
                -COORD_LIMIT <= self.origin_y <= COORD_LIMIT,
                total == self.affected_tiles.spec_len(),
                0 <= i <= total,
                forall|a: int, b: int|
                    #[trigger] self.affected_tiles.spec_contains(a, b) ==> map.in_bounds(a, b),
                forall|a: int, b: int|
                    #[trigger] kept.spec_contains(a, b) <==> ((exists|j: int|
                        0 <= j < i && (#[trigger] self.affected_tiles.spec_item(j)).0 == a
                            && self.affected_tiles.spec_item(j).1 == b) && !spec_occluded(
                        *map,
                        wall_texture,
                        self.origin_x as int,
                        self.origin_y as int,
                        a,
                        b,
                    )),
            decreases total - i,
        {
            let cell = self.affected_tiles.get(i);
            proof {
                assert(map.in_bounds(cell.0 as int, cell.1 as int));
                map.lemma_inv_bounds();
            }
            if !occluded(
                map,
                wall_texture,
                self.origin_x,
                self.origin_y,
                cell.0 as i64,
                cell.1 as i64,
            ) {
                kept.insert(cell.0, cell.1);
            }
            proof {
                assert forall|a: int, b: int| #[trigger] kept.spec_contains(a, b) <==> ((exists|
                    j: int,
                |
                    0 <= j < i + 1 && (#[trigger] self.affected_tiles.spec_item(j)).0 == a
                        && self.affected_tiles.spec_item(j).1 == b) && !spec_occluded(
                    *map,
                    wall_texture,
                    self.origin_x as int,
                    self.origin_y as int,
                    a,
                    b,
                )) by {
                    if a == cell.0 as int && b == cell.1 as int {
                        assert(self.affected_tiles.spec_item(i as int).0 == a
                            && self.affected_tiles.spec_item(i as int).1 == b);
                    }
                }
            }
            i = i + 1;
        }
        proof {
            self.affected_tiles.lemma_contains_iff_item();
            let af = self.affected_tiles;
            let ox = self.origin_x as int;
            let oy = self.origin_y as int;
            assert forall|a: int, b: int| #[trigger] kept.spec_contains(a, b) <==> (
            TileMap::spec_in_ring_band(
                ox,
                oy,
                self.radius as int,
                PULSE_THICKNESS as int,
                a,
                b,
            ) && map.in_bounds(a, b) && !spec_occluded(*map, wall_texture, ox, oy, a, b)) by {
                assert(af.spec_contains(a, b) <==> (TileMap::spec_in_ring_band(
                    ox,
                    oy,
                    self.radius as int,
                    PULSE_THICKNESS as int,
                    a,
                    b,
                ) && map.in_bounds(a, b)));
            }
        }
        self.affected_tiles = kept;
        true
    }

    /// Whether the affected set is the same as in `other`.
    pub closed spec fn affected_unchanged(self, other: Pulse) -> bool {
        forall|a: int, b: int| self.spec_affects(a, b) == #[trigger] other.spec_affects(a, b)
    }
}

/// Squared Euclidean distance between two grid points.
pub open spec fn spec_dist2(px: int, py: int, x: int, y: int) -> int {
    (x - px) * (x - px) + (y - py) * (y - py)
}

/// The fogged alpha of a tile within vision range, in 8-bit units: full
/// opacity at the player, thinning linearly with distance toward the vision
/// radius (distance measured in thousandths of a cell), saturating at 255.
pub open spec fn spec_fog_alpha(dist2: int) -> int {
    let dist_milli = spec_isqrt(dist2 * 1000000);
    let opacity_milli = 1100 - dist_milli / (VISION_RADIUS as int);
    if (opacity_milli * 255) / 1000 > 255 {
        255
    } else {
        (opacity_milli * 255) / 1000
    }
}

/// The fogged alpha of a tile within vision range.
fn fog_alpha(dist2: u64) -> (a: u8)
    requires
        dist2 <= VISION_RADIUS * VISION_RADIUS,
    ensures
        a == spec_fog_alpha(dist2 as int),
{
    let dist_milli = isqrt(dist2 * 1000000);
    proof {
        assert(dist_milli <= 6000) by (nonlinear_arith)
            requires
                is_isqrt(dist2 as int * 1000000, dist_milli as int),
                dist2 <= 36,
        ;
    }
    let opacity_milli = 1100 - dist_milli / 6;
    let a = opacity_milli * 255 / 1000;
    if a > 255 {
        255
    } else {
        a as u8
    }
}

/// The state the fog composition drives a cell toward, given whether the
/// cell carries the wall texture, whether a pulse covers it, and its squared
/// distance from the player. Wall tiles are left alone. A pulsed tile is
/// driven to its full canonical color, popped up a tenth of a tile. A tile
/// beyond the vision radius is driven to the map's default color at low
/// opacity. A tile within vision keeps its canonical color, thinning with
/// distance. Only targets move; the current values converge separately.
pub open spec fn spec_fog_state(
    s: TileState,
    wall: TextureId,
    default_color: Rgba,
    pulsed: bool,
    dist2: int,
) -> TileState {
    if s.texture == Some(wall) {
        s
    } else if pulsed {
        TileState { target_blend_color: s.original_blend_color, target_height_offset: 100, ..s }
    } else if dist2 > VISION_RADIUS * VISION_RADIUS {
        TileState {
            target_blend_color: Rgba { alpha: 25, ..default_color },
            target_height_offset: 0,
            ..s
        }
    } else {
        TileState {
            target_blend_color: Rgba {
                alpha: spec_fog_alpha(dist2) as u8,
                ..s.original_blend_color
            },
            target_height_offset: 0,
            ..s
        }
    }
}

/// For a non-wall tile covered by an active pulse, the pulse branch wins
/// over any distance-based fog: the tile's target becomes its full canonical
/// color with a height pop, whatever its distance from the player.
pub proof fn lemma_fog_pulse_priority(
    s: TileState,
    wall: TextureId,
    default_color: Rgba,
    dist2: int,
)
    requires
        s.texture != Some(wall),
    ensures
        spec_fog_state(s, wall, default_color, true, dist2).target_blend_color
            == s.original_blend_color,
        spec_fog_state(s, wall, default_color, true, dist2).target_height_offset == 100,
{
}

/// Applies one frame of fog to the foreground layer: for every cell, the
/// pulse branch, the out-of-range branch or the in-vision branch of
/// [`spec_fog_state`] decides its new target state. Cells of a missing
/// layer are silently skipped.
pub fn apply_fog(
    map: &mut TileMap,
    player_x: i64,
    player_y: i64,
    pulsed: &TileSet,
    wall_texture: TextureId,
)
    requires
        old(map).inv(),
        -COORD_LIMIT <= player_x <= COORD_LIMIT,
        -COORD_LIMIT <= player_y <= COORD_LIMIT,
    ensures
        final(map).inv(),
        final(map).same_but_layer(*old(map), FOREGROUND_LAYER as int),
        !old(map).has_layer(FOREGROUND_LAYER as int) ==> *final(map) == *old(map),
        forall|x: int, y: int|
            old(map).has_layer(FOREGROUND_LAYER as int) && old(map).in_bounds(x, y)
                ==> #[trigger] final(map).spec_cell(FOREGROUND_LAYER as int, x, y) == (
                old(map).spec_tile(FOREGROUND_LAYER as int, x, y),
                spec_fog_state(
                    old(map).spec_state(FOREGROUND_LAYER as int, x, y),
                    wall_texture,
                    old(map).spec_color_default(),
                    pulsed.spec_contains(x, y),
                    spec_dist2(player_x as int, player_y as int, x, y),
                ),
            ),
{
    let ghost pre = *map;
    proof {
        map.lemma_inv_bounds();
    }
    let width = map.width();
    let height = map.height();
    let default_color = map.color_default_value();
    let mut x: usize = 0;
    while x < width
        invariant
            map.inv(),
            pre.inv(),
            width == pre.spec_width(),
            height == pre.spec_height(),
            1 <= width <= crate::tilemap::GRID_LIMIT,
            1 <= height <= crate::tilemap::GRID_LIMIT,
            -COORD_LIMIT <= player_x <= COORD_LIMIT,
            -COORD_LIMIT <= player_y <= COORD_LIMIT,
            default_color == pre.spec_color_default(),
            0 <= x <= width,
            map.same_but_layer(pre, FOREGROUND_LAYER as int),
            !pre.has_layer(FOREGROUND_LAYER as int) ==> *map == pre,
            forall|xx: int, yy: int|
                pre.has_layer(FOREGROUND_LAYER as int) && pre.in_bounds(xx, yy) && xx < x
                    ==> #[trigger] map.spec_cell(FOREGROUND_LAYER as int, xx, yy) == (
                    pre.spec_tile(FOREGROUND_LAYER as int, xx, yy),
                    spec_fog_state(
                        pre.spec_state(FOREGROUND_LAYER as int, xx, yy),
                        wall_texture,
                        pre.spec_color_default(),
                        pulsed.spec_contains(xx, yy),
                        spec_dist2(player_x as int, player_y as int, xx, yy),
                    ),
                ),
            forall|xx: int, yy: int|
                pre.has_layer(FOREGROUND_LAYER as int) && pre.in_bounds(xx, yy) && xx >= x
                    ==> #[trigger] map.spec_cell(FOREGROUND_LAYER as int, xx, yy) == pre.spec_cell(
                    FOREGROUND_LAYER as int,
                    xx,
                    yy,
                ),
        decreases width - x,
    {
        let mut y: usize = 0;
        while y < height
            invariant
                map.inv(),
                pre.inv(),
                width == pre.spec_width(),
                height == pre.spec_height(),
                1 <= width <= crate::tilemap::GRID_LIMIT,
                1 <= height <= crate::tilemap::GRID_LIMIT,
                -COORD_LIMIT <= player_x <= COORD_LIMIT,
                -COORD_LIMIT <= player_y <= COORD_LIMIT,
                default_color == pre.spec_color_default(),
                0 <= x < width,
                0 <= y <= height,
                map.same_but_layer(pre, FOREGROUND_LAYER as int),
                !pre.has_layer(FOREGROUND_LAYER as int) ==> *map == pre,
                forall|xx: int, yy: int|
                    pre.has_layer(FOREGROUND_LAYER as int) && pre.in_bounds(xx, yy) && (xx < x || (
                    xx == x && yy < y)) ==> #[trigger] map.spec_cell(FOREGROUND_LAYER as int, xx, yy)
                        == (
                        pre.spec_tile(FOREGROUND_LAYER as int, xx, yy),
                        spec_fog_state(
                            pre.spec_state(FOREGROUND_LAYER as int, xx, yy),
                            wall_texture,
                            pre.spec_color_default(),
                            pulsed.spec_contains(xx, yy),
                            spec_dist2(player_x as int, player_y as int, xx, yy),
                        ),
                    ),
                forall|xx: int, yy: int|
                    pre.has_layer(FOREGROUND_LAYER as int) && pre.in_bounds(xx, yy) && (xx > x || (
                    xx == x && yy >= y)) ==> #[trigger] map.spec_cell(
                        FOREGROUND_LAYER as int,
                        xx,
                        yy,
                    ) == pre.spec_cell(FOREGROUND_LAYER as int, xx, yy),
            decreases height - y,
        {
            match map.get_tile_state(x, y, FOREGROUND_LAYER) {
                None => {},
                Some(state) => {
                    let is_wall = match state.texture {
                        Some(t) => t == wall_texture,
                        None => false,
                    };
                    if !is_wall {
                        let dx = x as i64 - player_x;
                        let dy = y as i64 - player_y;
                        proof {
                            assert(0 <= dx * dx <= 9000000000000 && 0 <= dy * dy
                                <= 9000000000000) by (nonlinear_arith)
                                requires
                                    -3000000 <= dx <= 3000000,
                                    -3000000 <= dy <= 3000000,
                            ;
                        }
                        let dist2 = dx * dx + dy * dy;
                        let new_state = if pulsed.contains(x, y) {
                            TileState {
                                target_blend_color: state.original_blend_color,
                                target_height_offset: 100,
                                ..state
                            }
                        } else if dist2 > VISION_RADIUS * VISION_RADIUS {
                            TileState {
                                target_blend_color: Rgba { alpha: 25, ..default_color },
                                target_height_offset: 0,
                                ..state
                            }
                        } else {
                            let alpha = fog_alpha(dist2 as u64);
                            TileState {
                                target_blend_color: Rgba {
                                    alpha,
                                    ..state.original_blend_color
                                },
                                target_height_offset: 0,
                                ..state
                            }
                        };
                        let ghost before = *map;
                        let updated = map.set_tile_state(x, y, FOREGROUND_LAYER, new_state);
                        proof {
                            assert(updated);
                        }
                    }
                },
            }
            y = y + 1;
        }
        x = x + 1;
    }
}

} // verus!
