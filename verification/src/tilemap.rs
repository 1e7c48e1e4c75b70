//! Layered sparse tile storage with animated per-tile state, and the
//! dimetric projection between grid units and view pixels.
//!
//! A map is a `width` by `height` grid of cells per layer. Layers are sparse:
//! one comes into being the first time a tile is set on it, filled with empty
//! tiles, and is never dropped short of a full clear. Cell addresses are
//! row-major via `index = y + height * x`.
//!
//! All continuous quantities are plain integers: view coordinates are pixels,
//! tile height offsets are thousandths of one tile height, interpolation
//! factors and the viewport zoom are thousandths, frame deltas milliseconds.
use vstd::prelude::*;

verus! {

use crate::color::{Rgba, lerp_color, spec_lerp_color, spec_lerp_step};
use vstd::arithmetic::div_mod::lemma_fundamental_div_mod_converse;
use crate::geometry::{
    TileSet, spec_clip_points, spec_line_points, spec_ring_points, upts_view,
};

/// Opaque, value-comparable handle to a texture owned by the renderer.
pub type TextureId = u32;

/// Largest accepted grid side length.
pub const GRID_LIMIT: usize = 4096;

/// Largest accepted viewport side length, in pixels.
pub const VIEW_LIMIT: i64 = 1000000;

/// Largest accepted viewport zoom, in thousandths.
pub const SCALE_LIMIT: i64 = 1000000;

/// Largest accepted viewport pan magnitude, in pixels.
pub const OFFSET_LIMIT: i64 = 1000000000000;

/// Largest projected tile side length, in pixels.
pub const TILE_LIMIT: i64 = 1000000000;

/// Largest grid coordinate magnitude the projection accepts.
pub const GRID_RANGE: i64 = 1048576;

/// Largest view point magnitude the inverse projection accepts, in pixels;
/// covers everything the forward projection can produce.
pub const VIEW_POINT_LIMIT: i64 = 4000000000000000;

/// What a coordinate access can be refused for.
#[derive(Clone, Copy, Debug, PartialEq, Eq, Structural)]
pub enum TileMapError {
    /// A coordinate lies outside `[0, width) x [0, height)`.
    OutOfBounds,
    /// A bitmap's size differs from the grid's size.
    DimensionMismatch,
}

/// A tile in a [`TileMap`].
#[derive(Clone, Copy, Debug)]
pub enum Tile {
    /// A filled tile, drawn and collided with.
    Filled {
        texture: TextureId,
        /// Fixed vertical offset, in thousandths of a tile height.
        height_offset: Option<i32>,
        /// Color to blend the tile's texture with during drawing.
        blend_color: Option<Rgba>,
    },
    /// An empty tile: never drawn, never collided with.
    Empty,
}

/// Mutable animated view-state of one cell, created alongside its tile.
#[derive(Clone, Copy, Debug)]
pub struct TileState {
    pub texture: Option<TextureId>,
    /// Current vertical offset, in thousandths of a tile height.
    pub height_offset: i32,
    /// Goal vertical offset the current one converges toward.
    pub target_height_offset: i32,
    /// Canonical tint the tile reverts to absent any fog override; mutable
    /// only by explicit recolor operations.
    pub original_blend_color: Rgba,
    /// Currently rendered tint.
    pub blend_color: Rgba,
    /// Goal tint the current one converges toward.
    pub target_blend_color: Rgba,
}

impl TileState {
    /// The state of a cell nothing was ever set on.
    pub open spec fn spec_default() -> TileState {
        TileState {
            texture: None,
            height_offset: 0,
            target_height_offset: 0,
            original_blend_color: Rgba { red: 0, green: 0, blue: 0, alpha: 0 },
            blend_color: Rgba { red: 0, green: 0, blue: 0, alpha: 0 },
            target_blend_color: Rgba { red: 0, green: 0, blue: 0, alpha: 0 },
        }
    }

    /// The fresh state a tile gets when set: a filled tile starts at its
    /// fixed offset and blend color, falling back to `default_color` where it
    /// has none; an empty tile gets the default state.
    pub open spec fn spec_from_tile(tile: Tile, default_color: Rgba) -> TileState {
        match tile {
            Tile::Filled { texture, height_offset, blend_color } => {
                let offset = if height_offset is Some {
                    height_offset->0
                } else {
                    0
                };
                let color = if blend_color is Some {
                    blend_color->0
                } else {
                    default_color
                };
                TileState {
                    texture: Some(texture),
                    height_offset: offset,
                    target_height_offset: offset,
                    original_blend_color: color,
                    blend_color: color,
                    target_blend_color: color,
                }
            },
            Tile::Empty => TileState::spec_default(),
        }
    }

    fn default_state() -> (s: TileState)
        ensures
            s == TileState::spec_default(),
    {
        TileState {
            texture: None,
            height_offset: 0,
            target_height_offset: 0,
            original_blend_color: Rgba { red: 0, green: 0, blue: 0, alpha: 0 },
            blend_color: Rgba { red: 0, green: 0, blue: 0, alpha: 0 },
            target_blend_color: Rgba { red: 0, green: 0, blue: 0, alpha: 0 },
        }
    }

    fn from_tile(tile: &Tile, default_color: Rgba) -> (s: TileState)
        ensures
            s == TileState::spec_from_tile(*tile, default_color),
    {
        match tile {
            Tile::Filled { texture, height_offset, blend_color } => {
                let offset: i32 = match height_offset {
                    Some(v) => *v,
                    None => 0,
                };
                let color: Rgba = match blend_color {
                    Some(c) => *c,
                    None => default_color,
                };
                TileState {
                    texture: Some(*texture),
                    height_offset: offset,
                    target_height_offset: offset,
                    original_blend_color: color,
                    blend_color: color,
                    target_blend_color: color,
                }
            },
            Tile::Empty => TileState::default_state(),
        }
    }
}

/// One drawing plane: its layer key and a dense row-major cell vector.
struct Layer {
    key: i8,
    cells: Vec<(Tile, TileState)>,
}

/// 2D layered grid that projects as an axonometric map of tiles.
pub struct TileMap {
    /// Grid width, in cells; immutable after construction.
    width: usize,
    /// Grid height, in cells; immutable after construction.
    height: usize,
    /// Cells per layer: `width * height`.
    tiles_per_layer: usize,
    /// Existing layers, sorted by ascending key, keys unique.
    layers: Vec<Layer>,
    /// Background color for the map.
    color_bg: Rgba,
    /// Default color for tiles without a blend color.
    color_default: Rgba,
    /// Viewport width in pixels, as last reported by the renderer.
    view_w: i64,
    /// Viewport height in pixels, as last reported by the renderer.
    view_h: i64,
    /// Viewport zoom, in thousandths.
    viewport_scale_milli: i64,
    /// Viewport pan, X component, in pixels.
    viewport_offset_x: i64,
    /// Viewport pan, Y component, in pixels.
    viewport_offset_y: i64,
}

impl TileMap {
    /// Structural invariant: the grid sides are positive and bounded, every
    /// layer is dense with `width * height` cells, layer keys are strictly
    /// ascending, and the viewport parameters are within their limits.
    pub closed spec fn inv(self) -> bool {
        &&& 1 <= self.width <= GRID_LIMIT
        &&& 1 <= self.height <= GRID_LIMIT
        &&& self.tiles_per_layer == self.width * self.height
        &&& forall|i: int|
            0 <= i < self.layers@.len() ==> (#[trigger] self.layers@[i]).cells@.len()
                == self.tiles_per_layer
        &&& forall|i: int, j: int|
            0 <= i < j < self.layers@.len() ==> (#[trigger] self.layers@[i]).key < (
            #[trigger] self.layers@[j]).key
        &&& 0 <= self.view_w <= VIEW_LIMIT
        &&& 0 <= self.view_h <= VIEW_LIMIT
        &&& 1 <= self.viewport_scale_milli <= SCALE_LIMIT
        &&& -OFFSET_LIMIT <= self.viewport_offset_x <= OFFSET_LIMIT
        &&& -OFFSET_LIMIT <= self.viewport_offset_y <= OFFSET_LIMIT
    }

    pub closed spec fn spec_width(self) -> int {
        self.width as int
    }

    /// A well-formed map's sides are positive and bounded.
    pub proof fn lemma_inv_bounds(self)
        requires
            self.inv(),
        ensures
            1 <= self.spec_width() <= GRID_LIMIT,
            1 <= self.spec_height() <= GRID_LIMIT,
    {
    }

    pub closed spec fn spec_height(self) -> int {
        self.height as int
    }

    pub closed spec fn spec_color_bg(self) -> Rgba {
        self.color_bg
    }

    pub closed spec fn spec_color_default(self) -> Rgba {
        self.color_default
    }

    /// Whether the given coordinate lies on the grid.
    pub open spec fn in_bounds(self, x: int, y: int) -> bool {
        0 <= x < self.spec_width() && 0 <= y < self.spec_height()
    }

    /// Whether the given layer exists (a tile was set on it).
    pub closed spec fn has_layer(self, layer: int) -> bool {
        exists|i: int| 0 <= i < self.layers@.len() && (#[trigger] self.layers@[i]).key == layer
    }

    /// Index of the given layer in the layer vector.
    closed spec fn layer_idx(self, layer: int) -> int {
        choose|i: int| 0 <= i < self.layers@.len() && (#[trigger] self.layers@[i]).key == layer
    }

    /// The cell (tile and state) at a coordinate of an existing layer.
    pub closed spec fn spec_cell(self, layer: int, x: int, y: int) -> (Tile, TileState) {
        self.layers@[self.layer_idx(layer)].cells@[y + self.spec_height() * x]
    }

    /// The animated state at a coordinate of an existing layer.
    pub open spec fn spec_state(self, layer: int, x: int, y: int) -> TileState {
        self.spec_cell(layer, x, y).1
    }

    /// The static tile at a coordinate of an existing layer.
    pub open spec fn spec_tile(self, layer: int, x: int, y: int) -> Tile {
        self.spec_cell(layer, x, y).0
    }

    /// The set of existing layer keys.
    pub open spec fn same_layers(self, other: TileMap) -> bool {
        forall|l: int| self.has_layer(l) == #[trigger] other.has_layer(l)
    }

    /// Whether everything but the cells of layer `layer` is unchanged from
    /// `other`: dimensions, colors, viewport, the set of layers, and every
    /// cell of every other layer.
    pub open spec fn same_but_layer(self, other: TileMap, layer: int) -> bool {
        &&& self.spec_width() == other.spec_width()
        &&& self.spec_height() == other.spec_height()
        &&& self.spec_color_bg() == other.spec_color_bg()
        &&& self.spec_color_default() == other.spec_color_default()
        &&& self.spec_viewport() == other.spec_viewport()
        &&& self.same_layers(other)
        &&& forall|l: int, x: int, y: int|
            self.has_layer(l) && l != layer && self.in_bounds(x, y) ==> #[trigger] self.spec_cell(
                l,
                x,
                y,
            ) == other.spec_cell(l, x, y)
    }

    /// The viewport parameters: size, zoom and pan.
    pub closed spec fn spec_viewport(self) -> (int, int, int, int, int) {
        (
            self.view_w as int,
            self.view_h as int,
            self.viewport_scale_milli as int,
            self.viewport_offset_x as int,
            self.viewport_offset_y as int,
        )
    }

    /// The index in the layer vector where `layer` sits, if it exists.
    fn find_layer(&self, layer: i8) -> (r: Option<usize>)
        requires
            self.inv(),
        ensures
            match r {
                Some(i) => i < self.layers@.len() && self.layers@[i as int].key == layer
                    && self.layer_idx(layer as int) == i,
                None => !self.has_layer(layer as int),
            },
    {
        let mut i: usize = 0;
        while i < self.layers.len()
            invariant
                self.inv(),
                0 <= i <= self.layers@.len(),
                forall|k: int| 0 <= k < i ==> (#[trigger] self.layers@[k]).key != layer,
            decreases self.layers@.len() - i,
        {
            if self.layers[i].key == layer {
                proof {
                    self.lemma_layer_idx_is(i as int);
                }
                return Some(i);
            }
            i = i + 1;
        }
        None
    }

    /// With strictly ascending keys, an index holding `layer`'s key is the
    /// layer's unique index.
    proof fn lemma_layer_idx_is(self, i: int)
        requires
            self.inv(),
            0 <= i < self.layers@.len(),
        ensures
            self.layer_idx(self.layers@[i].key as int) == i,
            self.has_layer(self.layers@[i].key as int),
    {
        let key = self.layers@[i].key as int;
        assert(self.has_layer(key));
        let c = self.layer_idx(key);
        if c < i {
            assert(self.layers@[c].key < self.layers@[i].key);
        } else if c > i {
            assert(self.layers@[i].key < self.layers@[c].key);
        }
    }

    /// Returns a new, empty map of `width` by `height` tiles projected into
    /// a viewport of `view_w` by `view_h` pixels. The initial pan centers
    /// the grid vertically, three grid rows up.
    pub fn new(width: usize, height: usize, view_w: i64, view_h: i64, color_bg: Rgba,
        color_default: Rgba) -> (map: TileMap)
        requires
            1 <= width <= GRID_LIMIT,
            1 <= height <= GRID_LIMIT,
            0 <= view_w <= VIEW_LIMIT,
            0 <= view_h <= VIEW_LIMIT,
        ensures
            map.inv(),
            map.spec_width() == width,
            map.spec_height() == height,
            map.spec_color_bg() == color_bg,
            map.spec_color_default() == color_default,
            forall|l: int| !map.has_layer(l),
            map.spec_viewport() == (
                view_w as int,
                view_h as int,
                1000int,
                0int,
                -3 * (view_h as int / height as int),
            ),
    {
        proof {
            assert(width * height <= GRID_LIMIT * GRID_LIMIT) by (nonlinear_arith)
                requires
                    1 <= width <= GRID_LIMIT,
                    1 <= height <= GRID_LIMIT,
            ;
        }
        let tiles_per_layer = width * height;
        let offset_y: i64 = -3 * (view_h / height as i64);
        proof {
            vstd::arithmetic::div_mod::lemma_div_pos_is_pos(view_h as int, height as int);
            vstd::arithmetic::div_mod::lemma_div_nonincreasing(view_h as int, height as int);
        }
        TileMap {
            width,
            height,
            tiles_per_layer,
            layers: Vec::new(),
            color_bg,
            color_default,
            view_w,
            view_h,
            viewport_scale_milli: 1000,
            viewport_offset_x: 0,
            viewport_offset_y: offset_y,
        }
    }

    /// Drops all layers.
    pub fn clear(&mut self)
        requires
            old(self).inv(),
        ensures
            final(self).inv(),
            final(self).spec_width() == old(self).spec_width(),
            final(self).spec_height() == old(self).spec_height(),
            final(self).spec_color_bg() == old(self).spec_color_bg(),
            final(self).spec_color_default() == old(self).spec_color_default(),
            final(self).spec_viewport() == old(self).spec_viewport(),
            forall|l: int| !final(self).has_layer(l),
    {
        self.layers.clear();
    }

    /// The grid width in cells.
    pub fn width(&self) -> (r: usize)
        ensures
            r == self.spec_width(),
    {
        self.width
    }

    /// The grid height in cells.
    pub fn height(&self) -> (r: usize)
        ensures
            r == self.spec_height(),
    {
        self.height
    }

    /// The map's background color.
    pub fn color_bg_value(&self) -> (c: Rgba)
        ensures
            c == self.spec_color_bg(),
    {
        self.color_bg
    }

    /// The default color for tiles without a blend color.
    pub fn color_default_value(&self) -> (c: Rgba)
        ensures
            c == self.spec_color_default(),
    {
        self.color_default
    }

    /// The animated state of the cell at `x, y` in `layer`; `None` if the
    /// layer does not exist or the coordinate is off the grid.
    pub fn get_tile_state(&self, x: usize, y: usize, layer: i8) -> (r: Option<TileState>)
        requires
            self.inv(),
        ensures
            if self.in_bounds(x as int, y as int) && self.has_layer(layer as int) {
                r == Some(self.spec_state(layer as int, x as int, y as int))
            } else {
                r is None
            },
    {
        if x >= self.width || y >= self.height {
            return None;
        }
        match self.find_layer(layer) {
            Some(i) => {
                proof {
                    assert(y + self.spec_height() * x < self.tiles_per_layer) by (nonlinear_arith)
                        requires
                            x < self.width,
                            y < self.height,
                            self.tiles_per_layer == self.width * self.height,
                    ;
                }
                let index = y + self.height * x;
                Some(self.layers[i].cells[index].1)
            },
            None => None,
        }
    }

    /// When two maps agree on layer count and keys, they agree on which
    /// layers exist and where each sits.
    proof fn lemma_same_keys_same_index(old_m: TileMap, new_m: TileMap)
        requires
            new_m.inv(),
            new_m.layers@.len() == old_m.layers@.len(),
            forall|i: int|
                0 <= i < old_m.layers@.len() ==> (#[trigger] new_m.layers@[i]).key
                    == old_m.layers@[i].key,
        ensures
            forall|l: int| new_m.has_layer(l) == old_m.has_layer(l),
            forall|l: int|
                #[trigger] old_m.has_layer(l) ==> new_m.layer_idx(l) == old_m.layer_idx(l),
    {
        assert forall|l: int| new_m.has_layer(l) == old_m.has_layer(l) by {
            if old_m.has_layer(l) {
                let i = choose|i: int|
                    0 <= i < old_m.layers@.len() && (#[trigger] old_m.layers@[i]).key == l;
                assert(new_m.layers@[i].key == l);
            }
            if new_m.has_layer(l) {
                let i = choose|i: int|
                    0 <= i < new_m.layers@.len() && (#[trigger] new_m.layers@[i]).key == l;
                assert(old_m.layers@[i].key == l);
            }
        }
        assert forall|l: int| #[trigger] old_m.has_layer(l) implies new_m.layer_idx(l)
            == old_m.layer_idx(l) by {
            let i0 = old_m.layer_idx(l);
            assert(0 <= i0 < old_m.layers@.len() && old_m.layers@[i0].key == l);
            assert(new_m.layers@[i0].key == l);
            new_m.lemma_layer_idx_is(i0);
        }
    }

    /// Row-major cell addressing is injective on the grid.
    proof fn lemma_row_major_injective(h: int, w: int, x: int, y: int, xx: int, yy: int)
        requires
            1 <= h,
            1 <= w,
            0 <= x < w,
            0 <= y < h,
            0 <= xx < w,
            0 <= yy < h,
            xx != x || yy != y,
        ensures
            yy + h * xx != y + h * x,
    {
        if xx != x {
            assert(yy + h * xx != y + h * x) by (nonlinear_arith)
                requires
                    1 <= h,
                    0 <= y < h,
                    0 <= yy < h,
                    xx != x,
            ;
        }
    }

    /// A row-major cell address lies inside the dense layer vector.
    proof fn lemma_row_major_in_range(h: int, w: int, x: int, y: int)
        requires
            1 <= h,
            1 <= w,
            0 <= x < w,
            0 <= y < h,
        ensures
            0 <= y + h * x < w * h,
    {
        assert(y + h * x < w * h) by (nonlinear_arith)
            requires
                1 <= h,
                0 <= x < w,
                0 <= y < h,
        ;
    }

    /// Creates the given layer, filled with empty tiles, keeping the layer
    /// vector sorted by key.
    fn alloc_layer(&mut self, layer: i8) -> (li: usize)
        requires
            old(self).inv(),
            !old(self).has_layer(layer as int),
        ensures
            final(self).inv(),
            final(self).spec_width() == old(self).spec_width(),
            final(self).spec_height() == old(self).spec_height(),
            final(self).spec_color_bg() == old(self).spec_color_bg(),
            final(self).spec_color_default() == old(self).spec_color_default(),
            final(self).spec_viewport() == old(self).spec_viewport(),
            li < final(self).layers@.len(),
            final(self).layers@[li as int].key == layer,
            final(self).layer_idx(layer as int) == li,
            final(self).has_layer(layer as int),
            forall|l: int|
                l != layer as int ==> #[trigger] final(self).has_layer(l) == old(self).has_layer(
                    l,
                ),
            forall|l: int, xx: int, yy: int|
                l != layer as int && old(self).has_layer(l) && old(self).in_bounds(xx, yy)
                    ==> #[trigger] final(self).spec_cell(l, xx, yy) == old(self).spec_cell(
                    l,
                    xx,
                    yy,
                ),
            forall|xx: int, yy: int|
                old(self).in_bounds(xx, yy) ==> #[trigger] final(self).spec_cell(
                    layer as int,
                    xx,
                    yy,
                ) == (Tile::Empty, TileState::spec_default()),
    {
        let ghost pre = *self;
        let mut cells: Vec<(Tile, TileState)> = Vec::new();
        let mut k: usize = 0;
        while k < self.tiles_per_layer
            invariant
                0 <= k <= self.tiles_per_layer,
                cells@.len() == k,
                forall|t: int|
                    0 <= t < k ==> #[trigger] cells@[t] == (Tile::Empty, TileState::spec_default()),
            decreases self.tiles_per_layer - k,
        {
            cells.push((Tile::Empty, TileState::default_state()));
            k = k + 1;
        }
        let mut pos: usize = 0;
        while pos < self.layers.len() && self.layers[pos].key < layer
            invariant
                self == old(self),
                self.inv(),
                0 <= pos <= self.layers@.len(),
                forall|t: int| 0 <= t < pos ==> (#[trigger] self.layers@[t]).key < layer,
            decreases self.layers@.len() - pos,
        {
            pos = pos + 1;
        }
        proof {
            assert forall|t: int| pos <= t < self.layers@.len() implies (
            #[trigger] self.layers@[t]).key > layer by {
                if t == pos {
                    assert(self.layers@[t].key != layer);
                } else {
                    assert(self.layers@[pos as int].key != layer);
                    assert(self.layers@[pos as int].key < self.layers@[t].key);
                }
            }
        }
        self.layers.insert(pos, Layer { key: layer, cells });
        let ghost now = *self;
        proof {
            assert(now.layers@ == pre.layers@.insert(pos as int, now.layers@[pos as int]));
            assert(now.layers@[pos as int].key == layer);
            assert forall|i: int, j: int|
                0 <= i < j < now.layers@.len() implies (#[trigger] now.layers@[i]).key < (
            #[trigger] now.layers@[j]).key by {
                if j < pos {
                } else if i >= pos + 1 {
                    assert(now.layers@[i] == pre.layers@[i - 1]);
                    assert(now.layers@[j] == pre.layers@[j - 1]);
                } else if j == pos {
                    assert(now.layers@[i] == pre.layers@[i]);
                } else if i == pos {
                    assert(now.layers@[j] == pre.layers@[j - 1]);
                } else {
                    assert(now.layers@[i] == pre.layers@[i]);
                    assert(now.layers@[j] == pre.layers@[j - 1]);
                }
            }
            assert(now.inv());
            now.lemma_layer_idx_is(pos as int);
            assert forall|l: int|
                l != layer as int implies #[trigger] now.has_layer(l) == pre.has_layer(l) by {
                if pre.has_layer(l) {
                    let i = choose|i: int|
                        0 <= i < pre.layers@.len() && (#[trigger] pre.layers@[i]).key == l;
                    if i < pos {
                        assert(now.layers@[i].key == l);
                    } else {
                        assert(now.layers@[i + 1].key == l);
                    }
                }
                if now.has_layer(l) {
                    let i = choose|i: int|
                        0 <= i < now.layers@.len() && (#[trigger] now.layers@[i]).key == l;
                    if i < pos {
                        assert(pre.layers@[i].key == l);
                    } else {
                        assert(i != pos);
                        assert(pre.layers@[i - 1].key == l);
                    }
                }
            }
            assert forall|l: int, xx: int, yy: int|
                l != layer as int && pre.has_layer(l) && pre.in_bounds(xx, yy)
                    implies #[trigger] now.spec_cell(l, xx, yy) == pre.spec_cell(l, xx, yy) by {
                let i0 = pre.layer_idx(l);
                assert(0 <= i0 < pre.layers@.len() && pre.layers@[i0].key == l);
                Self::lemma_row_major_in_range(
                    pre.spec_height(),
                    pre.spec_width(),
                    xx,
                    yy,
                );
                if i0 < pos {
                    assert(now.layers@[i0].key == l);
                    now.lemma_layer_idx_is(i0);
                    assert(now.layers@[i0].cells == pre.layers@[i0].cells);
                } else {
                    assert(now.layers@[i0 + 1].key == l);
                    now.lemma_layer_idx_is(i0 + 1);
                    assert(now.layers@[i0 + 1].cells == pre.layers@[i0].cells);
                }
            }
            assert forall|xx: int, yy: int| pre.in_bounds(xx, yy) implies #[trigger] now.spec_cell(
                layer as int,
                xx,
                yy,
            ) == (Tile::Empty, TileState::spec_default()) by {
                Self::lemma_row_major_in_range(
                    pre.spec_height(),
                    pre.spec_width(),
                    xx,
                    yy,
                );
            }
        }
        pos
    }

    /// Sets the `tile` at `x, y` in `layer`, creating the layer, filled with
    /// empty tiles, if it does not exist yet. The cell's animated state is
    /// reset from the tile's static fields. Fails on an off-grid coordinate.
    pub fn set_tile(&mut self, x: usize, y: usize, layer: i8, tile: Tile) -> (r: Result<
        (),
        TileMapError,
    >)
        requires
            old(self).inv(),
        ensures
            final(self).inv(),
            r is Ok <==> old(self).in_bounds(x as int, y as int),
            r is Err ==> r == Err::<(), TileMapError>(TileMapError::OutOfBounds) && *final(self)
                == *old(self),
            r is Ok ==> {
                &&& final(self).spec_width() == old(self).spec_width()
                &&& final(self).spec_height() == old(self).spec_height()
                &&& final(self).spec_color_bg() == old(self).spec_color_bg()
                &&& final(self).spec_color_default() == old(self).spec_color_default()
                &&& final(self).spec_viewport() == old(self).spec_viewport()
                &&& final(self).has_layer(layer as int)
                &&& forall|l: int|
                    l != layer as int ==> #[trigger] final(self).has_layer(l) == old(
                        self,
                    ).has_layer(l)
                &&& forall|l: int, xx: int, yy: int|
                    l != layer as int && old(self).has_layer(l) && old(self).in_bounds(xx, yy)
                        ==> #[trigger] final(self).spec_cell(l, xx, yy) == old(self).spec_cell(
                        l,
                        xx,
                        yy,
                    )
                &&& final(self).spec_cell(layer as int, x as int, y as int) == (
                    tile,
                    TileState::spec_from_tile(tile, old(self).spec_color_default()),
                )
                &&& forall|xx: int, yy: int|
                    old(self).in_bounds(xx, yy) && (xx != x as int || yy != y as int)
                        ==> #[trigger] final(self).spec_cell(layer as int, xx, yy) == (if old(
                        self,
                    ).has_layer(layer as int) {
                        old(self).spec_cell(layer as int, xx, yy)
                    } else {
                        (Tile::Empty, TileState::spec_default())
                    })
            },
    {
        if x >= self.width || y >= self.height {
            return Err(TileMapError::OutOfBounds);
        }
        let ghost pre = *self;
        let li: usize = match self.find_layer(layer) {
            Some(i) => i,
            None => self.alloc_layer(layer),
        };
        let ghost mid = *self;
        proof {
            assert(mid.layers@[li as int].key == layer);
            assert(mid.layer_idx(layer as int) == li) by {
                mid.lemma_layer_idx_is(li as int);
            }
            Self::lemma_row_major_in_range(
                mid.spec_height(),
                mid.spec_width(),
                x as int,
                y as int,
            );
        }
        let state = TileState::from_tile(&tile, self.color_default);
        let index = y + self.height * x;
        self.layers[li].cells[index] = (tile, state);
        proof {
            let now = *self;
            assert(now.layers@[li as int].cells@ == mid.layers@[li as int].cells@.update(
                index as int,
                (tile, state),
            ));
            assert(now.layers@.len() == mid.layers@.len());
            assert forall|i: int| 0 <= i < now.layers@.len() && i != li implies now.layers@[i]
                == mid.layers@[i] by {}
            assert(now.inv());
            Self::lemma_same_keys_same_index(mid, now);
            assert forall|l: int, xx: int, yy: int|
                l != layer as int && mid.has_layer(l) && mid.in_bounds(xx, yy)
                    implies #[trigger] now.spec_cell(l, xx, yy) == mid.spec_cell(l, xx, yy) by {
                let i0 = mid.layer_idx(l);
                assert(0 <= i0 < mid.layers@.len() && mid.layers@[i0].key == l);
                assert(i0 != li);
            }
            assert forall|xx: int, yy: int|
                mid.in_bounds(xx, yy) && (xx != x as int || yy != y as int)
                    implies #[trigger] now.spec_cell(layer as int, xx, yy) == mid.spec_cell(
                layer as int,
                xx,
                yy,
            ) by {
                Self::lemma_row_major_in_range(
                    mid.spec_height(),
                    mid.spec_width(),
                    xx,
                    yy,
                );
                Self::lemma_row_major_injective(
                    mid.spec_height(),
                    mid.spec_width(),
                    x as int,
                    y as int,
                    xx,
                    yy,
                );
            }
        }
        Ok(())
    }

    /// Whether the cell at `x, y` in `layer` exists and its canonical color
    /// matches `color` on the RGB channels (alpha ignored).
    pub open spec fn spec_tile_matches(self, layer: int, x: int, y: int, color: Rgba) -> bool {
        &&& self.in_bounds(x, y)
        &&& self.has_layer(layer)
        &&& self.spec_state(layer, x, y).original_blend_color.spec_same_rgb(color)
    }

    /// True iff the cell at `x, y` in `layer` exists and its canonical color
    /// equals `color` on the RGB channels; alpha is ignored.
    pub fn tile_has_original_color(&self, x: usize, y: usize, layer: i8, color: Rgba) -> (r: bool)
        requires
            self.inv(),
        ensures
            r == self.spec_tile_matches(layer as int, x as int, y as int, color),
    {
        match self.get_tile_state(x, y, layer) {
            Some(state) => state.original_blend_color.same_rgb(&color),
            None => false,
        }
    }

    /// Overwrites the animated state of the cell at `x, y` in `layer`,
    /// keeping its static tile. Returns false, changing nothing, if the layer
    /// does not exist or the coordinate is off the grid.
    pub fn set_tile_state(&mut self, x: usize, y: usize, layer: i8, state: TileState) -> (r: bool)
        requires
            old(self).inv(),
        ensures
            final(self).inv(),
            r <==> (old(self).in_bounds(x as int, y as int) && old(self).has_layer(layer as int)),
            !r ==> *final(self) == *old(self),
            r ==> final(self).same_but_layer(*old(self), layer as int),
            r ==> final(self).spec_cell(layer as int, x as int, y as int) == (
                old(self).spec_tile(layer as int, x as int, y as int),
                state,
            ),
            r ==> forall|xx: int, yy: int|
                old(self).in_bounds(xx, yy) && (xx != x as int || yy != y as int)
                    ==> #[trigger] final(self).spec_cell(layer as int, xx, yy) == old(
                    self,
                ).spec_cell(layer as int, xx, yy),
    {
        if x >= self.width || y >= self.height {
            return false;
        }
        let li: usize = match self.find_layer(layer) {
            Some(i) => i,
            None => {
                return false;
            },
        };
        let ghost pre = *self;
        proof {
            Self::lemma_row_major_in_range(
                pre.spec_height(),
                pre.spec_width(),
                x as int,
                y as int,
            );
        }
        let index = y + self.height * x;
        let tile = self.layers[li].cells[index].0;
        self.layers[li].cells[index] = (tile, state);
        proof {
            let now = *self;
            assert forall|i: int| 0 <= i < now.layers@.len() && i != li implies now.layers@[i]
                == pre.layers@[i] by {}
            assert(now.inv());
            Self::lemma_same_keys_same_index(pre, now);
            assert forall|l: int, xx: int, yy: int|
                l != layer as int && pre.has_layer(l) && pre.in_bounds(xx, yy)
                    implies #[trigger] now.spec_cell(l, xx, yy) == pre.spec_cell(l, xx, yy) by {
                let i0 = pre.layer_idx(l);
                assert(0 <= i0 < pre.layers@.len() && pre.layers@[i0].key == l);
                assert(i0 != li);
            }
            assert forall|xx: int, yy: int|
                pre.in_bounds(xx, yy) && (xx != x as int || yy != y as int)
                    implies #[trigger] now.spec_cell(layer as int, xx, yy) == pre.spec_cell(
                layer as int,
                xx,
                yy,
            ) by {
                Self::lemma_row_major_in_range(
                    pre.spec_height(),
                    pre.spec_width(),
                    xx,
                    yy,
                );
                Self::lemma_row_major_injective(
                    pre.spec_height(),
                    pre.spec_width(),
                    x as int,
                    y as int,
                    xx,
                    yy,
                );
            }
        }
        true
    }

    /// The interpolation factor one frame applies, in thousandths: the frame
    /// delta in milliseconds times the interpolation speed, clamped to one
    /// whole step.
    pub open spec fn spec_interp_factor(delta_millis: int) -> int {
        if 8 * delta_millis >= 1000 {
            1000
        } else {
            8 * delta_millis
        }
    }

    /// One interpolation step of a cell's animated state: the height offset
    /// and each blend channel move toward their targets by the factor; the
    /// targets, the canonical color and the texture stay.
    pub open spec fn spec_state_step(s: TileState, factor_milli: int) -> TileState {
        TileState {
            texture: s.texture,
            height_offset: spec_lerp_step(
                s.height_offset as int,
                s.target_height_offset as int,
                factor_milli,
            ) as i32,
            target_height_offset: s.target_height_offset,
            original_blend_color: s.original_blend_color,
            blend_color: spec_lerp_color(s.blend_color, s.target_blend_color, factor_milli),
            target_blend_color: s.target_blend_color,
        }
    }

    /// One interpolation step never overshoots: the new height offset and
    /// every blend channel land between their current value and their
    /// target, and the targets and canonical color stay put.
    pub proof fn lemma_state_step_no_overshoot(s: TileState, factor_milli: int)
        requires
            0 <= factor_milli <= 1000,
        ensures
            ({
                let s2 = TileMap::spec_state_step(s, factor_milli);
                &&& (s.height_offset <= s.target_height_offset ==> s.height_offset
                    <= s2.height_offset <= s.target_height_offset)
                &&& (s.height_offset >= s.target_height_offset ==> s.target_height_offset
                    <= s2.height_offset <= s.height_offset)
                &&& (s.blend_color.alpha <= s.target_blend_color.alpha ==> s.blend_color.alpha
                    <= s2.blend_color.alpha <= s.target_blend_color.alpha)
                &&& (s.blend_color.alpha >= s.target_blend_color.alpha
                    ==> s.target_blend_color.alpha <= s2.blend_color.alpha <= s.blend_color.alpha)
                &&& s2.target_height_offset == s.target_height_offset
                &&& s2.target_blend_color == s.target_blend_color
                &&& s2.original_blend_color == s.original_blend_color
                &&& s2.texture == s.texture
            }),
    {
        crate::color::lemma_lerp_step_bounded(
            s.height_offset as int,
            s.target_height_offset as int,
            factor_milli,
        );
        crate::color::lemma_lerp_step_bounded(
            s.blend_color.alpha as int,
            s.target_blend_color.alpha as int,
            factor_milli,
        );
    }

    /// One interpolation step of a height offset toward its target.
    fn lerp_offset(current: i32, target: i32, factor_milli: u16) -> (r: i32)
        requires
            factor_milli <= 1000,
        ensures
            r == spec_lerp_step(current as int, target as int, factor_milli as int),
    {
        proof {
            crate::color::lemma_lerp_step_bounded(
                current as int,
                target as int,
                factor_milli as int,
            );
        }
        if target >= current {
            let diff: i64 = target as i64 - current as i64;
            let step: i64 = (diff * factor_milli as i64) / 1000;
            (current as i64 + step) as i32
        } else {
            let diff: i64 = current as i64 - target as i64;
            let step: i64 = (diff * factor_milli as i64) / 1000;
            (current as i64 - step) as i32
        }
    }

    /// Advances every cell's animated state one frame: height offsets and
    /// blend colors each move toward their targets by the frame's
    /// interpolation factor, never past them.
    pub fn update(&mut self, delta_millis: u32)
        requires
            old(self).inv(),
        ensures
            final(self).inv(),
            final(self).spec_width() == old(self).spec_width(),
            final(self).spec_height() == old(self).spec_height(),
            final(self).spec_color_bg() == old(self).spec_color_bg(),
            final(self).spec_color_default() == old(self).spec_color_default(),
            final(self).spec_viewport() == old(self).spec_viewport(),
            final(self).same_layers(*old(self)),
            forall|l: int, x: int, y: int|
                old(self).has_layer(l) && old(self).in_bounds(x, y)
                    ==> #[trigger] final(self).spec_cell(l, x, y) == (
                    old(self).spec_tile(l, x, y),
                    TileMap::spec_state_step(
                        old(self).spec_state(l, x, y),
                        TileMap::spec_interp_factor(delta_millis as int),
                    ),
                ),
    {
        let factor: u16 = if delta_millis >= 125 {
            1000
        } else {
            (delta_millis * 8) as u16
        };
        let ghost f = TileMap::spec_interp_factor(delta_millis as int);
        let ghost pre = *self;
        let mut li: usize = 0;
        while li < self.layers.len()
            invariant
                self.inv(),
                factor == f,
                0 <= f <= 1000,
                0 <= li <= self.layers@.len(),
                self.layers@.len() == pre.layers@.len(),
                self.width == pre.width,
                self.height == pre.height,
                self.tiles_per_layer == pre.tiles_per_layer,
                self.color_bg == pre.color_bg,
                self.color_default == pre.color_default,
                self.view_w == pre.view_w,
                self.view_h == pre.view_h,
                self.viewport_scale_milli == pre.viewport_scale_milli,
                self.viewport_offset_x == pre.viewport_offset_x,
                self.viewport_offset_y == pre.viewport_offset_y,
                forall|i: int|
                    0 <= i < pre.layers@.len() ==> (#[trigger] self.layers@[i]).key
                        == pre.layers@[i].key,
                forall|i: int, c: int|
                    0 <= i < li && 0 <= c < pre.tiles_per_layer
                        ==> #[trigger] self.layers@[i].cells@[c] == (
                        pre.layers@[i].cells@[c].0,
                        TileMap::spec_state_step(pre.layers@[i].cells@[c].1, f),
                    ),
                forall|i: int|
                    li <= i < pre.layers@.len() ==> (#[trigger] self.layers@[i]).cells
                        == pre.layers@[i].cells,
            decreases self.layers@.len() - li,
        {
            let mut ci: usize = 0;
            let cells_len = self.layers[li].cells.len();
            while ci < cells_len
                invariant
                    self.inv(),
                    factor == f,
                    0 <= f <= 1000,
                    0 <= li < self.layers@.len(),
                    cells_len == pre.tiles_per_layer,
                    0 <= ci <= cells_len,
                    self.layers@.len() == pre.layers@.len(),
                    self.width == pre.width,
                    self.height == pre.height,
                    self.tiles_per_layer == pre.tiles_per_layer,
                    self.color_bg == pre.color_bg,
                    self.color_default == pre.color_default,
                    self.view_w == pre.view_w,
                    self.view_h == pre.view_h,
                    self.viewport_scale_milli == pre.viewport_scale_milli,
                    self.viewport_offset_x == pre.viewport_offset_x,
                    self.viewport_offset_y == pre.viewport_offset_y,
                    forall|i: int|
                        0 <= i < pre.layers@.len() ==> (#[trigger] self.layers@[i]).key
                            == pre.layers@[i].key,
                    forall|i: int, c: int|
                        0 <= i < li && 0 <= c < pre.tiles_per_layer
                            ==> #[trigger] self.layers@[i].cells@[c] == (
                            pre.layers@[i].cells@[c].0,
                            TileMap::spec_state_step(pre.layers@[i].cells@[c].1, f),
                        ),
                    forall|c: int|
                        0 <= c < ci ==> #[trigger] self.layers@[li as int].cells@[c] == (
                            pre.layers@[li as int].cells@[c].0,
                            TileMap::spec_state_step(pre.layers@[li as int].cells@[c].1, f),
                        ),
                    forall|c: int|
                        ci <= c < pre.tiles_per_layer ==> #[trigger] self.layers@[li as int].cells@[c]
                            == pre.layers@[li as int].cells@[c],
                    forall|i: int|
                        li < i < pre.layers@.len() ==> (#[trigger] self.layers@[i]).cells
                            == pre.layers@[i].cells,
                decreases cells_len - ci,
            {
                let cell = self.layers[li].cells[ci];
                let new_state = TileState {
                    texture: cell.1.texture,
                    height_offset: Self::lerp_offset(
                        cell.1.height_offset,
                        cell.1.target_height_offset,
                        factor,
                    ),
                    target_height_offset: cell.1.target_height_offset,
                    original_blend_color: cell.1.original_blend_color,
                    blend_color: lerp_color(cell.1.blend_color, cell.1.target_blend_color, factor),
                    target_blend_color: cell.1.target_blend_color,
                };
                let ghost prev = *self;
                self.layers[li].cells[ci] = (cell.0, new_state);
                proof {
                    assert forall|i: int|
                        0 <= i < prev.layers@.len() && i != li implies #[trigger] self.layers@[i]
                        == prev.layers@[i] by {}
                }
                ci = ci + 1;
            }
            li = li + 1;
        }
        proof {
            let now = *self;
            Self::lemma_same_keys_same_index(pre, now);
            assert forall|l: int, x: int, y: int|
                pre.has_layer(l) && pre.in_bounds(x, y) implies #[trigger] now.spec_cell(l, x, y)
                == (
                pre.spec_tile(l, x, y),
                TileMap::spec_state_step(pre.spec_state(l, x, y), f),
            ) by {
                let i0 = pre.layer_idx(l);
                assert(0 <= i0 < pre.layers@.len() && pre.layers@[i0].key == l);
                Self::lemma_row_major_in_range(pre.spec_height(), pre.spec_width(), x, y);
            }
        }
    }
    /// The cell at `x, y` of a dense row-major cell vector with column
    /// height `h`.
    pub open spec fn cell_at(cells: Seq<(Tile, TileState)>, h: int, x: int, y: int) -> (
        Tile,
        TileState,
    ) {
        cells[y + h * x]
    }

    /// Count of recolored cells of `layer` between this map and `other`.
    pub closed spec fn spec_layer_changed_count(self, other: TileMap, layer: int) -> int {
        spec_changed_count(
            self.layers@[self.layer_idx(layer)].cells@,
            other.layers@[other.layer_idx(layer)].cells@,
            self.tiles_per_layer as int,
        )
    }

    /// Within one column, the flat row-major change counter advances by the
    /// column's recolor counter.
    proof fn lemma_changed_count_col_bridge(
        a: TileMap,
        b: TileMap,
        layer: int,
        ca: Seq<(Tile, TileState)>,
        cb: Seq<(Tile, TileState)>,
        x: int,
        y: int,
    )
        requires
            a.inv(),
            b.inv(),
            a.has_layer(layer),
            b.has_layer(layer),
            a.spec_height() == b.spec_height(),
            ca == a.layers@[a.layer_idx(layer)].cells@,
            cb == b.layers@[b.layer_idx(layer)].cells@,
            0 <= x,
            0 <= y <= a.spec_height(),
        ensures
            spec_changed_count(ca, cb, y + a.spec_height() * x) == spec_changed_count(
                ca,
                cb,
                a.spec_height() * x,
            ) + spec_recolored_col(a, b, layer, x, y),
        decreases y,
    {
        let h = a.spec_height();
        if y > 0 {
            Self::lemma_changed_count_col_bridge(a, b, layer, ca, cb, x, y - 1);
            assert(a.spec_state(layer, x, y - 1) == ca[(y - 1) + h * x].1);
            assert(b.spec_state(layer, x, y - 1) == cb[(y - 1) + h * x].1);
        }
    }

    /// The flat row-major change counter over whole columns equals the
    /// column-wise recolor counter.
    proof fn lemma_changed_count_bridge(
        a: TileMap,
        b: TileMap,
        layer: int,
        ca: Seq<(Tile, TileState)>,
        cb: Seq<(Tile, TileState)>,
        x: int,
    )
        requires
            a.inv(),
            b.inv(),
            a.has_layer(layer),
            b.has_layer(layer),
            a.spec_height() == b.spec_height(),
            ca == a.layers@[a.layer_idx(layer)].cells@,
            cb == b.layers@[b.layer_idx(layer)].cells@,
            0 <= x,
        ensures
            spec_changed_count(ca, cb, a.spec_height() * x) == spec_recolored_count(
                a,
                b,
                layer,
                x,
            ),
        decreases x,
    {
        let h = a.spec_height();
        if x > 0 {
            Self::lemma_changed_count_bridge(a, b, layer, ca, cb, x - 1);
            Self::lemma_changed_count_col_bridge(a, b, layer, ca, cb, x - 1, h);
            assert(h + h * (x - 1) == h * x) by (nonlinear_arith);
        } else {
            assert(h * 0 == 0) by (nonlinear_arith);
        }
    }

    /// The change counter in the flood fill's contract counts exactly the
    /// cells whose canonical colors differ between the two maps, stated over
    /// the public cell model.
    pub proof fn lemma_layer_changed_count_is_recolored_count(a: TileMap, b: TileMap, layer: int)
        requires
            a.inv(),
            b.inv(),
            a.has_layer(layer),
            b.has_layer(layer),
            a.spec_width() == b.spec_width(),
            a.spec_height() == b.spec_height(),
        ensures
            a.spec_layer_changed_count(b, layer) == spec_recolored_count(
                a,
                b,
                layer,
                a.spec_width(),
            ),
    {
        let ca = a.layers@[a.layer_idx(layer)].cells@;
        let cb = b.layers@[b.layer_idx(layer)].cells@;
        Self::lemma_changed_count_bridge(a, b, layer, ca, cb, a.spec_width());
        assert(a.spec_width() * a.spec_height() == a.spec_height() * a.spec_width())
            by (nonlinear_arith);
    }

    /// Whether, relative to `pre`, a flood fill of `layer` has settled: no
    /// cell whose state was changed has a 4-connected in-bounds neighbor
    /// whose canonical color still matches `old_blend`.
    pub open spec fn spec_flood_settled(self, pre: TileMap, layer: int, old_blend: Rgba) -> bool {
        forall|xx: int, yy: int, nx: int, ny: int|
            self.in_bounds(xx, yy) && #[trigger] self.spec_state(layer, xx, yy) != pre.spec_state(
                layer,
                xx,
                yy,
            ) && four_adjacent(xx, yy, nx, ny) && self.in_bounds(nx, ny) ==> !(
            #[trigger] self.spec_tile_matches(layer, nx, ny, old_blend))
    }

    /// 4-connected flood fill of the canonical colors on `layer`, seeded at
    /// `x, y`: cells whose canonical color matches `old_blend` on RGB are
    /// recolored to `new_blend` (alpha included), spreading through matching
    /// 4-connected neighbors until no recolored cell borders a matching one.
    /// Returns the number of recolored cells; zero, changing nothing, when
    /// the seed is absent or does not match. Every recolored cell is
    /// 4-connected to the seed through cells that matched the old color. The
    /// two colors must differ on RGB: a fill onto the same color would never
    /// settle.
    #[verifier::rlimit(100)]
    #[verifier::spinoff_prover]
    pub fn flood_fill_tiles_original_color(
        &mut self,
        x: usize,
        y: usize,
        layer: i8,
        old_blend: Rgba,
        new_blend: Rgba,
    ) -> (count: usize)
        requires
            old(self).inv(),
            !old_blend.spec_same_rgb(new_blend),
        ensures
            final(self).inv(),
            final(self).same_but_layer(*old(self), layer as int),
            forall|xx: int, yy: int|
                old(self).has_layer(layer as int) && old(self).in_bounds(xx, yy)
                    ==> #[trigger] final(self).spec_cell(layer as int, xx, yy) == old(
                    self,
                ).spec_cell(layer as int, xx, yy) || (old(self).spec_state(
                    layer as int,
                    xx,
                    yy,
                ).original_blend_color.spec_same_rgb(old_blend) && final(self).spec_cell(
                    layer as int,
                    xx,
                    yy,
                ) == (
                    old(self).spec_tile(layer as int, xx, yy),
                    (TileState {
                        original_blend_color: new_blend,
                        ..old(self).spec_state(layer as int, xx, yy)
                    }),
                )),
            !final(self).spec_tile_matches(layer as int, x as int, y as int, old_blend),
            !old(self).spec_tile_matches(layer as int, x as int, y as int, old_blend) ==> count
                == 0 && *final(self) == *old(self),
            old(self).spec_tile_matches(layer as int, x as int, y as int, old_blend) ==> count >= 1
                && final(self).spec_state(
                layer as int,
                x as int,
                y as int,
            ).original_blend_color == new_blend,
            final(self).spec_flood_settled(*old(self), layer as int, old_blend),
            forall|xx: int, yy: int|
                old(self).has_layer(layer as int) && old(self).in_bounds(xx, yy)
                    && #[trigger] final(self).spec_cell(layer as int, xx, yy) != old(
                    self,
                ).spec_cell(layer as int, xx, yy) ==> spec_fill_reachable(
                    *old(self),
                    layer as int,
                    old_blend,
                    x as int,
                    y as int,
                    xx,
                    yy,
                ),
            old(self).has_layer(layer as int) ==> count == old(self).spec_layer_changed_count(
                *final(self),
                layer as int,
            ),
    {
        proof {
            if self.has_layer(layer as int) {
                lemma_changed_count_self(
                    self.layers@[self.layer_idx(layer as int)].cells@,
                    self.tiles_per_layer as int,
                );
            }
        }
        if x >= self.width || y >= self.height {
            return 0;
        }
        let li: usize = match self.find_layer(layer) {
            Some(i) => i,
            None => {
                return 0;
            },
        };
        proof {
            Self::lemma_row_major_in_range(
                self.spec_height(),
                self.spec_width(),
                x as int,
                y as int,
            );
            assert(self.tiles_per_layer <= 0x1000000) by (nonlinear_arith)
                requires
                    self.tiles_per_layer == self.width * self.height,
                    self.width <= GRID_LIMIT,
                    self.height <= GRID_LIMIT,
                    GRID_LIMIT == 4096,
            ;
        }
        let seed_index = y + self.height * x;
        let seed_cell = self.layers[li].cells[seed_index];
        if !seed_cell.1.original_blend_color.same_rgb(&old_blend) {
            return 0;
        }
        let ghost pre = *self;
        let ghost cells0 = pre.layers@[li as int].cells@;
        let ghost n = pre.tiles_per_layer as int;
        let ghost h = pre.height as int;

        let new_seed_state = TileState { original_blend_color: new_blend, ..seed_cell.1 };
        self.layers[li].cells[seed_index] = (seed_cell.0, new_seed_state);
        let mut count: usize = 1;
        let mut stack: Vec<(usize, usize)> = Vec::new();
        if x + 1 < self.width {
            push_cell(&mut stack, x + 1, y);
        }
        if x > 0 {
            push_cell(&mut stack, x - 1, y);
        }
        if y + 1 < self.height {
            push_cell(&mut stack, x, y + 1);
        }
        if y > 0 {
            push_cell(&mut stack, x, y - 1);
        }
        proof {
            lemma_changed_count_self(cells0, n);
            lemma_changed_count_update(
                cells0,
                cells0,
                (seed_cell.0, new_seed_state),
                seed_index as int,
                n,
            );
            pre.lemma_layer_idx_is(li as int);
            Self::lemma_row_major_in_range(h, pre.width as int, x as int, y as int);
            assert(pre.spec_cell(layer as int, x as int, y as int) == cells0[seed_index as int]);
            lemma_fill_path_single(pre, layer as int, old_blend, x as int, y as int);
            assert forall|xx: int, yy: int|
                0 <= xx < pre.width && 0 <= yy < pre.height && #[trigger] Self::cell_at(
                    self.layers@[li as int].cells@,
                    h,
                    xx,
                    yy,
                ) != Self::cell_at(cells0, h, xx, yy) implies spec_fill_reachable(
                pre,
                layer as int,
                old_blend,
                x as int,
                y as int,
                xx,
                yy,
            ) by {
                Self::lemma_row_major_in_range(h, pre.width as int, xx, yy);
                if xx != x as int || yy != y as int {
                    Self::lemma_row_major_injective(
                        h,
                        pre.width as int,
                        x as int,
                        y as int,
                        xx,
                        yy,
                    );
                }
            }
            assert forall|a: int, b: int| #[trigger] on_stack(stack@, a, b) implies exists|
                dx2: int,
                dy2: int,
            |
                spec_fill_reachable(pre, layer as int, old_blend, x as int, y as int, dx2, dy2)
                    && four_adjacent(dx2, dy2, a, b) by {
                assert(four_adjacent(x as int, y as int, a, b));
            }
            assert forall|xx: int, yy: int, nx: int, ny: int|
                #![trigger Self::cell_at(self.layers@[li as int].cells@, h, xx, yy), Self::cell_at(self.layers@[li as int].cells@, h, nx, ny)]
                0 <= xx < pre.width && 0 <= yy < pre.height && Self::cell_at(
                    self.layers@[li as int].cells@,
                    h,
                    xx,
                    yy,
                ) != Self::cell_at(cells0, h, xx, yy) && four_adjacent(xx, yy, nx, ny) && 0 <= nx
                < pre.width && 0 <= ny < pre.height implies (!Self::cell_at(
                self.layers@[li as int].cells@,
                h,
                nx,
                ny,
            ).1.original_blend_color.spec_same_rgb(old_blend) || on_stack(stack@, nx, ny)) by {
                Self::lemma_row_major_in_range(h, pre.width as int, xx, yy);
                Self::lemma_row_major_in_range(h, pre.width as int, nx, ny);
                if xx != x as int || yy != y as int {
                    Self::lemma_row_major_injective(
                        h,
                        pre.width as int,
                        x as int,
                        y as int,
                        xx,
                        yy,
                    );
                } else {
                    if nx == x as int && ny == y as int {
                    } else {
                        Self::lemma_row_major_injective(
                            h,
                            pre.width as int,
                            x as int,
                            y as int,
                            nx,
                            ny,
                        );
                        assert(on_stack(stack@, nx, ny));
                    }
                }
            }
        }
        while stack.len() > 0
            invariant
                self.inv(),
                pre.inv(),
                !old_blend.spec_same_rgb(new_blend),
                0 <= li < self.layers@.len(),
                self.layers@.len() == pre.layers@.len(),
                n == pre.tiles_per_layer,
                h == pre.height,
                cells0 == pre.layers@[li as int].cells@,
                cells0.len() == n,
                x < pre.width,
                y < pre.height,
                seed_index == y + h * x,
                0 <= seed_index < n,
                n <= 0x1000000,
                forall|i: int|
                    0 <= i < pre.layers@.len() && i != li ==> #[trigger] self.layers@[i]
                        == pre.layers@[i],
                self.layers@[li as int].key == pre.layers@[li as int].key,
                self.width == pre.width,
                self.height == pre.height,
                self.tiles_per_layer == pre.tiles_per_layer,
                self.color_bg == pre.color_bg,
                self.color_default == pre.color_default,
                self.view_w == pre.view_w,
                self.view_h == pre.view_h,
                self.viewport_scale_milli == pre.viewport_scale_milli,
                self.viewport_offset_x == pre.viewport_offset_x,
                self.viewport_offset_y == pre.viewport_offset_y,
                self.layers@[li as int].cells@.len() == n,
                forall|c: int|
                    0 <= c < n ==> #[trigger] self.layers@[li as int].cells@[c] == cells0[c] || (
                    cells0[c].1.original_blend_color.spec_same_rgb(old_blend)
                        && self.layers@[li as int].cells@[c] == (
                        cells0[c].0,
                        (TileState { original_blend_color: new_blend, ..cells0[c].1 }),
                    )),
                self.layers@[li as int].cells@[seed_index as int].1.original_blend_color
                    == new_blend,
                count == spec_changed_count(cells0, self.layers@[li as int].cells@, n),
                count >= 1,
                pre.has_layer(layer as int),
                pre.layer_idx(layer as int) == li,
                forall|k: int|
                    0 <= k < stack@.len() ==> (#[trigger] stack@[k]).0 < pre.width && stack@[k].1
                        < pre.height,
                forall|xx: int, yy: int|
                    0 <= xx < pre.width && 0 <= yy < pre.height && #[trigger] Self::cell_at(
                        self.layers@[li as int].cells@,
                        h,
                        xx,
                        yy,
                    ) != Self::cell_at(cells0, h, xx, yy) ==> spec_fill_reachable(
                        pre,
                        layer as int,
                        old_blend,
                        x as int,
                        y as int,
                        xx,
                        yy,
                    ),
                forall|a: int, b: int|
                    #[trigger] on_stack(stack@, a, b) ==> exists|dx2: int, dy2: int|
                        spec_fill_reachable(
                            pre,
                            layer as int,
                            old_blend,
                            x as int,
                            y as int,
                            dx2,
                            dy2,
                        ) && four_adjacent(dx2, dy2, a, b),
                forall|xx: int, yy: int, nx: int, ny: int|
                    #![trigger Self::cell_at(self.layers@[li as int].cells@, h, xx, yy), Self::cell_at(self.layers@[li as int].cells@, h, nx, ny)]
                    0 <= xx < pre.width && 0 <= yy < pre.height && Self::cell_at(
                        self.layers@[li as int].cells@,
                        h,
                        xx,
                        yy,
                    ) != Self::cell_at(cells0, h, xx, yy) && four_adjacent(xx, yy, nx, ny) && 0
                        <= nx < pre.width && 0 <= ny < pre.height ==> (!Self::cell_at(
                        self.layers@[li as int].cells@,
                        h,
                        nx,
                        ny,
                    ).1.original_blend_color.spec_same_rgb(old_blend) || on_stack(
                        stack@,
                        nx,
                        ny,
                    )),
            decreases
                    spec_match_count(self.layers@[li as int].cells@, old_blend, n),
                    stack@.len(),
        {
            proof {
                lemma_counts_bounds(self.layers@[li as int].cells@, cells0, old_blend, n);
            }
            let ghost stack_entry = stack@;
            let (cx, cy) = stack.pop().unwrap();
            let ghost stack_popped = stack@;
            proof {
                Self::lemma_row_major_in_range(h, pre.width as int, cx as int, cy as int);
                assert(stack_entry[stack_entry.len() - 1] == (cx, cy));
                assert(on_stack(stack_entry, cx as int, cy as int));
            }
            let index = cy + self.height * cx;
            let cell = self.layers[li].cells[index];
            if cell.1.original_blend_color.same_rgb(&old_blend) {
                let ghost prev_cells = self.layers@[li as int].cells@;
                let recolored = TileState { original_blend_color: new_blend, ..cell.1 };
                self.layers[li].cells[index] = (cell.0, recolored);
                proof {
                    assert forall|i: int|
                        0 <= i < pre.layers@.len() && i != li implies #[trigger] self.layers@[i]
                        == pre.layers@[i] by {}
                    // The popped cell still matched the old color, so it was
                    // untouched so far: the change and match counters move by
                    // exactly one.
                    assert(prev_cells[index as int] == cells0[index as int]);
                    lemma_changed_count_update(
                        cells0,
                        prev_cells,
                        (cell.0, recolored),
                        index as int,
                        n,
                    );
                    lemma_match_count_update(
                        prev_cells,
                        (cell.0, recolored),
                        old_blend,
                        index as int,
                        n,
                    );
                    lemma_counts_bounds(cells0, prev_cells, old_blend, n);
                    lemma_counts_bounds(
                        self.layers@[li as int].cells@,
                        cells0,
                        old_blend,
                        n,
                    );
                }
                count = count + 1;
                if cx + 1 < self.width {
                    push_cell(&mut stack, cx + 1, cy);
                }
                if cx > 0 {
                    push_cell(&mut stack, cx - 1, cy);
                }
                if cy + 1 < self.height {
                    push_cell(&mut stack, cx, cy + 1);
                }
                if cy > 0 {
                    push_cell(&mut stack, cx, cy - 1);
                }
                proof {
                    let cur = self.layers@[li as int].cells@;
                    // The popped cell matched and was adjacent to a cell
                    // reachable from the seed, so it is reachable itself.
                    let (dx2, dy2) = choose|dx2: int, dy2: int|
                        spec_fill_reachable(
                            pre,
                            layer as int,
                            old_blend,
                            x as int,
                            y as int,
                            dx2,
                            dy2,
                        ) && four_adjacent(dx2, dy2, cx as int, cy as int);
                    let path = choose|path: Seq<(int, int)>|
                        #[trigger] spec_fill_path(pre, layer as int, old_blend, path)
                            && path.first() == (x as int, y as int) && path.last() == (dx2, dy2);
                    assert(pre.spec_cell(layer as int, cx as int, cy as int) == cells0[
                        index as int]);
                    lemma_fill_path_extend(
                        pre,
                        layer as int,
                        old_blend,
                        path,
                        cx as int,
                        cy as int,
                    );
                    assert(spec_fill_reachable(
                        pre,
                        layer as int,
                        old_blend,
                        x as int,
                        y as int,
                        cx as int,
                        cy as int,
                    ));
                    assert forall|xx: int, yy: int|
                        0 <= xx < pre.width && 0 <= yy < pre.height && #[trigger] Self::cell_at(
                            cur,
                            h,
                            xx,
                            yy,
                        ) != Self::cell_at(cells0, h, xx, yy) implies spec_fill_reachable(
                        pre,
                        layer as int,
                        old_blend,
                        x as int,
                        y as int,
                        xx,
                        yy,
                    ) by {
                        Self::lemma_row_major_in_range(h, pre.width as int, xx, yy);
                        if xx != cx as int || yy != cy as int {
                            Self::lemma_row_major_injective(
                                h,
                                pre.width as int,
                                cx as int,
                                cy as int,
                                xx,
                                yy,
                            );
                            assert(Self::cell_at(prev_cells, h, xx, yy) != Self::cell_at(
                                cells0,
                                h,
                                xx,
                                yy,
                            ));
                        }
                    }
                    assert forall|a: int, b: int| #[trigger] on_stack(stack@, a, b) implies exists|
                        dx3: int,
                        dy3: int,
                    |
                        spec_fill_reachable(
                            pre,
                            layer as int,
                            old_blend,
                            x as int,
                            y as int,
                            dx3,
                            dy3,
                        ) && four_adjacent(dx3, dy3, a, b) by {
                        if on_stack(stack_popped, a, b) {
                            let k = choose|k: int|
                                0 <= k < stack_popped.len() && (#[trigger] stack_popped[k]).0 == a
                                    && stack_popped[k].1 == b;
                            assert(stack_entry[k] == stack_popped[k]);
                            assert(on_stack(stack_entry, a, b));
                        } else {
                            assert(four_adjacent(cx as int, cy as int, a, b));
                        }
                    }
                    assert forall|xx: int, yy: int, nx: int, ny: int|
                        #![trigger Self::cell_at(cur, h, xx, yy), Self::cell_at(cur, h, nx, ny)]
                        0 <= xx < pre.width && 0 <= yy < pre.height && Self::cell_at(
                            cur,
                            h,
                            xx,
                            yy,
                        ) != Self::cell_at(cells0, h, xx, yy) && four_adjacent(xx, yy, nx, ny) && 0
                        <= nx < pre.width && 0 <= ny < pre.height implies (!Self::cell_at(
                        cur,
                        h,
                        nx,
                        ny,
                    ).1.original_blend_color.spec_same_rgb(old_blend) || on_stack(
                        stack@,
                        nx,
                        ny,
                    )) by {
                        Self::lemma_row_major_in_range(h, pre.width as int, xx, yy);
                        Self::lemma_row_major_in_range(h, pre.width as int, nx, ny);
                        if xx == cx as int && yy == cy as int {
                            if nx != cx as int || ny != cy as int {
                                Self::lemma_row_major_injective(
                                    h,
                                    pre.width as int,
                                    cx as int,
                                    cy as int,
                                    nx,
                                    ny,
                                );
                                assert(on_stack(stack@, nx, ny));
                            }
                        } else {
                            Self::lemma_row_major_injective(
                                h,
                                pre.width as int,
                                cx as int,
                                cy as int,
                                xx,
                                yy,
                            );
                            assert(Self::cell_at(prev_cells, h, xx, yy) != Self::cell_at(
                                cells0,
                                h,
                                xx,
                                yy,
                            ));
                            if Self::cell_at(
                                prev_cells,
                                h,
                                nx,
                                ny,
                            ).1.original_blend_color.spec_same_rgb(old_blend) {
                                assert(on_stack(stack_entry, nx, ny));
                                let k = choose|k: int|
                                    0 <= k < stack_entry.len() && (#[trigger] stack_entry[k]).0
                                        == nx && stack_entry[k].1 == ny;
                                if k < stack_entry.len() - 1 {
                                    assert(stack@[k] == stack_entry[k]);
                                    assert(on_stack(stack@, nx, ny));
                                } else {
                                    assert(nx == cx as int && ny == cy as int);
                                }
                            } else {
                                if nx == cx as int && ny == cy as int {
                                } else {
                                    Self::lemma_row_major_injective(
                                        h,
                                        pre.width as int,
                                        cx as int,
                                        cy as int,
                                        nx,
                                        ny,
                                    );
                                }
                            }
                        }
                    }
                }
            } else {
                proof {
                    let cur = self.layers@[li as int].cells@;
                    assert forall|a: int, b: int| #[trigger] on_stack(stack@, a, b) implies exists|
                        dx3: int,
                        dy3: int,
                    |
                        spec_fill_reachable(
                            pre,
                            layer as int,
                            old_blend,
                            x as int,
                            y as int,
                            dx3,
                            dy3,
                        ) && four_adjacent(dx3, dy3, a, b) by {
                        let k = choose|k: int|
                            0 <= k < stack@.len() && (#[trigger] stack@[k]).0 == a && stack@[k].1
                                == b;
                        assert(stack_entry[k] == stack@[k]);
                        assert(on_stack(stack_entry, a, b));
                    }
                    assert forall|xx: int, yy: int, nx: int, ny: int|
                        #![trigger Self::cell_at(cur, h, xx, yy), Self::cell_at(cur, h, nx, ny)]
                        0 <= xx < pre.width && 0 <= yy < pre.height && Self::cell_at(
                            cur,
                            h,
                            xx,
                            yy,
                        ) != Self::cell_at(cells0, h, xx, yy) && four_adjacent(xx, yy, nx, ny) && 0
                        <= nx < pre.width && 0 <= ny < pre.height implies (!Self::cell_at(
                        cur,
                        h,
                        nx,
                        ny,
                    ).1.original_blend_color.spec_same_rgb(old_blend) || on_stack(
                        stack@,
                        nx,
                        ny,
                    )) by {
                        Self::lemma_row_major_in_range(h, pre.width as int, nx, ny);
                        if Self::cell_at(cur, h, nx, ny).1.original_blend_color.spec_same_rgb(
                            old_blend,
                        ) {
                            assert(on_stack(stack_entry, nx, ny));
                            let k = choose|k: int|
                                0 <= k < stack_entry.len() && (#[trigger] stack_entry[k]).0 == nx
                                    && stack_entry[k].1 == ny;
                            if k < stack_entry.len() - 1 {
                                assert(stack@[k] == stack_entry[k]);
                                assert(on_stack(stack@, nx, ny));
                            } else {
                                assert(nx == cx as int && ny == cy as int);
                                assert(Self::cell_at(cur, h, cx as int, cy as int) == cur[index as int]);
                                assert(false);
                            }
                        }
                    }
                }
            }
        }
        proof {
            let now = *self;
            Self::lemma_same_keys_same_index(pre, now);
            assert(pre.has_layer(layer as int)) by {
                pre.lemma_layer_idx_is(li as int);
            }
            assert(pre.layer_idx(layer as int) == li) by {
                pre.lemma_layer_idx_is(li as int);
            }
            assert forall|l: int, xx: int, yy: int|
                l != layer as int && pre.has_layer(l) && pre.in_bounds(xx, yy)
                    implies #[trigger] now.spec_cell(l, xx, yy) == pre.spec_cell(l, xx, yy) by {
                let i0 = pre.layer_idx(l);
                assert(0 <= i0 < pre.layers@.len() && pre.layers@[i0].key == l);
                assert(i0 != li);
            }
            assert forall|xx: int, yy: int| pre.in_bounds(xx, yy) implies #[trigger] now.spec_cell(
                layer as int,
                xx,
                yy,
            ) == Self::cell_at(now.layers@[li as int].cells@, h, xx, yy) by {
                Self::lemma_row_major_in_range(h, pre.width as int, xx, yy);
            }
            assert forall|xx: int, yy: int|
                pre.has_layer(layer as int) && pre.in_bounds(xx, yy) implies #[trigger] now.spec_cell(
                layer as int,
                xx,
                yy,
            ) == pre.spec_cell(layer as int, xx, yy) || (pre.spec_state(
                layer as int,
                xx,
                yy,
            ).original_blend_color.spec_same_rgb(old_blend) && now.spec_cell(layer as int, xx, yy)
                == (
                pre.spec_tile(layer as int, xx, yy),
                (TileState {
                    original_blend_color: new_blend,
                    ..pre.spec_state(layer as int, xx, yy)
                }),
            )) by {
                Self::lemma_row_major_in_range(h, pre.width as int, xx, yy);
                let c = yy + h * xx;
                assert(pre.spec_cell(layer as int, xx, yy) == cells0[c]);
                assert(now.spec_cell(layer as int, xx, yy) == now.layers@[li as int].cells@[c]);
                assert(now.layers@[li as int].cells@[c] == cells0[c] || (
                cells0[c].1.original_blend_color.spec_same_rgb(old_blend)
                    && now.layers@[li as int].cells@[c] == (
                    cells0[c].0,
                    (TileState { original_blend_color: new_blend, ..cells0[c].1 }),
                )));
            }
            assert forall|xx: int, yy: int|
                pre.has_layer(layer as int) && pre.in_bounds(xx, yy) && #[trigger] now.spec_cell(
                    layer as int,
                    xx,
                    yy,
                ) != pre.spec_cell(layer as int, xx, yy) implies spec_fill_reachable(
                pre,
                layer as int,
                old_blend,
                x as int,
                y as int,
                xx,
                yy,
            ) by {
                Self::lemma_row_major_in_range(h, pre.width as int, xx, yy);
                assert(pre.spec_cell(layer as int, xx, yy) == cells0[yy + h * xx]);
                assert(Self::cell_at(now.layers@[li as int].cells@, h, xx, yy) != Self::cell_at(
                    cells0,
                    h,
                    xx,
                    yy,
                ));
            }
            assert(now.spec_flood_settled(pre, layer as int, old_blend)) by {
                assert forall|xx: int, yy: int, nx: int, ny: int|
                    now.in_bounds(xx, yy) && #[trigger] now.spec_state(layer as int, xx, yy)
                        != pre.spec_state(layer as int, xx, yy) && four_adjacent(xx, yy, nx, ny)
                        && now.in_bounds(nx, ny) implies !(#[trigger] now.spec_tile_matches(
                    layer as int,
                    nx,
                    ny,
                    old_blend,
                )) by {
                    Self::lemma_row_major_in_range(h, pre.width as int, xx, yy);
                    Self::lemma_row_major_in_range(h, pre.width as int, nx, ny);
                }
            }
        }
        count
    }
    /// Whether the whole grid (dimensions, colors, layers and cells) is the
    /// same as in `other`; the viewport may differ.
    pub open spec fn same_grid(self, other: TileMap) -> bool {
        &&& self.spec_width() == other.spec_width()
        &&& self.spec_height() == other.spec_height()
        &&& self.spec_color_bg() == other.spec_color_bg()
        &&& self.spec_color_default() == other.spec_color_default()
        &&& self.same_layers(other)
        &&& forall|l: int, x: int, y: int|
            self.has_layer(l) && self.in_bounds(x, y) ==> #[trigger] self.spec_cell(l, x, y)
                == other.spec_cell(l, x, y)
    }

    /// The grid part of the map depends only on the layer vector and the
    /// scalar grid fields, not on the viewport.
    proof fn lemma_same_grid_on_same_layers(old_m: TileMap, new_m: TileMap)
        requires
            new_m.inv(),
            new_m.layers == old_m.layers,
            new_m.width == old_m.width,
            new_m.height == old_m.height,
            new_m.color_bg == old_m.color_bg,
            new_m.color_default == old_m.color_default,
        ensures
            new_m.same_grid(old_m),
    {
        Self::lemma_same_keys_same_index(old_m, new_m);
    }

    /// The current viewport size in pixels, as last reported.
    pub fn calculate_view_size(&self) -> (r: (i64, i64))
        requires
            self.inv(),
        ensures
            (r.0 as int, r.1 as int) == (self.spec_viewport().0, self.spec_viewport().1),
    {
        (self.view_w, self.view_h)
    }

    /// Reports a new viewport size in pixels.
    pub fn set_view_size(&mut self, view_w: i64, view_h: i64)
        requires
            old(self).inv(),
            0 <= view_w <= VIEW_LIMIT,
            0 <= view_h <= VIEW_LIMIT,
        ensures
            final(self).inv(),
            final(self).same_grid(*old(self)),
            final(self).spec_viewport() == (
                view_w as int,
                view_h as int,
                old(self).spec_viewport().2,
                old(self).spec_viewport().3,
                old(self).spec_viewport().4,
            ),
    {
        self.view_w = view_w;
        self.view_h = view_h;
        proof {
            Self::lemma_same_grid_on_same_layers(*old(self), *self);
        }
    }

    /// The current viewport zoom, in thousandths.
    pub fn viewport_scale_milli(&self) -> (r: i64)
        ensures
            r == self.spec_viewport().2,
    {
        self.viewport_scale_milli
    }

    /// Changes the viewport zoom, in thousandths.
    pub fn set_viewport_scale_milli(&mut self, scale_milli: i64)
        requires
            old(self).inv(),
            1 <= scale_milli <= SCALE_LIMIT,
        ensures
            final(self).inv(),
            final(self).same_grid(*old(self)),
            final(self).spec_viewport() == (
                old(self).spec_viewport().0,
                old(self).spec_viewport().1,
                scale_milli as int,
                old(self).spec_viewport().3,
                old(self).spec_viewport().4,
            ),
    {
        self.viewport_scale_milli = scale_milli;
        proof {
            Self::lemma_same_grid_on_same_layers(*old(self), *self);
        }
    }

    /// The current viewport pan, in pixels.
    pub fn viewport_offset(&self) -> (r: (i64, i64))
        ensures
            (r.0 as int, r.1 as int) == (self.spec_viewport().3, self.spec_viewport().4),
    {
        (self.viewport_offset_x, self.viewport_offset_y)
    }

    /// Changes the viewport pan, in pixels.
    pub fn set_viewport_offset(&mut self, offset_x: i64, offset_y: i64)
        requires
            old(self).inv(),
            -OFFSET_LIMIT <= offset_x <= OFFSET_LIMIT,
            -OFFSET_LIMIT <= offset_y <= OFFSET_LIMIT,
        ensures
            final(self).inv(),
            final(self).same_grid(*old(self)),
            final(self).spec_viewport() == (
                old(self).spec_viewport().0,
                old(self).spec_viewport().1,
                old(self).spec_viewport().2,
                offset_x as int,
                offset_y as int,
            ),
    {
        self.viewport_offset_x = offset_x;
        self.viewport_offset_y = offset_y;
        proof {
            Self::lemma_same_grid_on_same_layers(*old(self), *self);
        }
    }

    /// The side length of one projected tile, in pixels: the smaller of the
    /// per-axis fits of the viewport over the grid, applied uniformly so the
    /// grid's aspect ratio is preserved, scaled by the zoom, floored to a
    /// multiple of four so the dimetric halves and quarters are exact, and
    /// at least four.
    pub closed spec fn spec_tile_size(self) -> int {
        let base = vstd::math::min(
            self.view_w as int / self.width as int,
            self.view_h as int / self.height as int,
        );
        let scaled = (base * self.viewport_scale_milli as int) / 1000;
        let aligned = (scaled / 4) * 4;
        if aligned < 4 {
            4
        } else {
            aligned
        }
    }

    /// The tile size is positive, a multiple of four, and bounded.
    pub proof fn lemma_tile_size_properties(self)
        requires
            self.inv(),
        ensures
            4 <= self.spec_tile_size() <= TILE_LIMIT,
            self.spec_tile_size() % 4 == 0,
    {
        let bw = self.view_w as int / self.width as int;
        let bh = self.view_h as int / self.height as int;
        let base = vstd::math::min(bw, bh);
        vstd::arithmetic::div_mod::lemma_div_pos_is_pos(self.view_w as int, self.width as int);
        vstd::arithmetic::div_mod::lemma_div_pos_is_pos(self.view_h as int, self.height as int);
        vstd::arithmetic::div_mod::lemma_div_nonincreasing(self.view_w as int, self.width as int);
        vstd::arithmetic::div_mod::lemma_div_nonincreasing(self.view_h as int, self.height as int);
        let product = base * self.viewport_scale_milli as int;
        assert(0 <= product <= VIEW_LIMIT * SCALE_LIMIT) by (nonlinear_arith)
            requires
                0 <= base <= VIEW_LIMIT,
                1 <= self.viewport_scale_milli as int <= SCALE_LIMIT,
                product == base * self.viewport_scale_milli as int,
        ;
        let scaled = product / 1000;
        vstd::arithmetic::div_mod::lemma_div_pos_is_pos(product, 1000);
        vstd::arithmetic::div_mod::lemma_div_is_ordered(product, VIEW_LIMIT * SCALE_LIMIT, 1000);
        let aligned = (scaled / 4) * 4;
        vstd::arithmetic::div_mod::lemma_fundamental_div_mod(scaled, 4);
        vstd::arithmetic::div_mod::lemma_mod_division_less_than_divisor(scaled, 4);
        assert(aligned == scaled - scaled % 4) by (nonlinear_arith)
            requires
                scaled == 4 * (scaled / 4) + scaled % 4,
                aligned == (scaled / 4) * 4,
        ;
        vstd::arithmetic::div_mod::lemma_mod_multiples_basic(scaled / 4, 4);
        if aligned < 4 {
            assert(4int % 4 == 0);
        }
    }

    /// Computes the current tile size in view pixels; the two components are
    /// equal (tiles are square before the dimetric transform).
    pub fn calculate_tile_size(&self) -> (r: (i64, i64))
        requires
            self.inv(),
        ensures
            r.0 == self.spec_tile_size(),
            r.1 == r.0,
            4 <= r.0 <= TILE_LIMIT,
            r.0 as int % 4 == 0,
    {
        proof {
            self.lemma_tile_size_properties();
        }
        let base_w = self.view_w / (self.width as i64);
        let base_h = self.view_h / (self.height as i64);
        let base = if base_h < base_w {
            base_h
        } else {
            base_w
        };
        proof {
            vstd::arithmetic::div_mod::lemma_div_pos_is_pos(self.view_w as int, self.width as int);
            vstd::arithmetic::div_mod::lemma_div_pos_is_pos(self.view_h as int, self.height as int);
            vstd::arithmetic::div_mod::lemma_div_nonincreasing(
                self.view_w as int,
                self.width as int,
            );
            vstd::arithmetic::div_mod::lemma_div_nonincreasing(
                self.view_h as int,
                self.height as int,
            );
            assert(0 <= base * self.viewport_scale_milli <= VIEW_LIMIT * SCALE_LIMIT)
                by (nonlinear_arith)
                requires
                    0 <= base <= VIEW_LIMIT,
                    1 <= self.viewport_scale_milli <= SCALE_LIMIT,
            ;
        }
        let scaled = (base * self.viewport_scale_milli) / 1000;
        let aligned = (scaled / 4) * 4;
        proof {
            vstd::arithmetic::div_mod::lemma_div_pos_is_pos(
                base * self.viewport_scale_milli as int,
                1000,
            );
            vstd::arithmetic::div_mod::lemma_div_is_ordered(
                base * self.viewport_scale_milli as int,
                VIEW_LIMIT * SCALE_LIMIT,
                1000,
            );
            vstd::arithmetic::div_mod::lemma_fundamental_div_mod(scaled as int, 4);
            vstd::arithmetic::div_mod::lemma_mod_division_less_than_divisor(scaled as int, 4);
            assert(aligned == scaled - scaled as int % 4) by (nonlinear_arith)
                requires
                    scaled == 4 * (scaled as int / 4) + scaled as int % 4,
                    aligned == (scaled as int / 4) * 4,
            ;
        }
        let t = if aligned < 4 {
            4
        } else {
            aligned
        };
        (t, t)
    }

    /// The projected view point of grid point `(x, y)` on `layer`: the
    /// dimetric transform of the grid point, recentered by half a tile,
    /// shifted to center the grid in the viewport, raised by the layer, and
    /// panned by the viewport offset.
    pub closed spec fn spec_grid_to_view(self, x: int, y: int, layer: int) -> (int, int) {
        let t = self.spec_tile_size();
        (
            (x - y) * (t / 2) - t / 2 + self.view_w as int / 2 + self.viewport_offset_x as int,
            (x + y) * (t / 4) + self.view_h as int / 4 - t * layer + self.viewport_offset_y as int,
        )
    }

    /// The grid cell a view point falls on at `layer`: the exact inverse of
    /// the projection, rounding each axis down.
    pub closed spec fn spec_view_to_grid(self, px: int, py: int, layer: int) -> (int, int) {
        let t = self.spec_tile_size();
        let x1 = px - self.viewport_offset_x as int - self.view_w as int / 2 + t / 2;
        let y1 = py - self.viewport_offset_y as int - self.view_h as int / 4 + t * layer;
        let u = x1 / (t / 2);
        let v = y1 / (t / 4);
        ((u + v) / 2, (v - u) / 2)
    }

    /// Converts a grid point (in grid units) on `layer` to a view point in
    /// physical pixels.
    pub fn grid_to_view(&self, x: i64, y: i64, layer: i8) -> (p: (i64, i64))
        requires
            self.inv(),
            -GRID_RANGE <= x <= GRID_RANGE,
            -GRID_RANGE <= y <= GRID_RANGE,
        ensures
            (p.0 as int, p.1 as int) == self.spec_grid_to_view(x as int, y as int, layer as int),
    {
        proof {
            self.lemma_tile_size_properties();
        }
        let (tw, th) = self.calculate_tile_size();
        proof {
            assert(-2 * GRID_RANGE * TILE_LIMIT <= (x - y) * (tw / 2) <= 2 * GRID_RANGE
                * TILE_LIMIT) by (nonlinear_arith)
                requires
                    -2 * GRID_RANGE <= x - y <= 2 * GRID_RANGE,
                    0 <= tw / 2 <= TILE_LIMIT,
            ;
            assert(-2 * GRID_RANGE * TILE_LIMIT <= (x + y) * (th / 4) <= 2 * GRID_RANGE
                * TILE_LIMIT) by (nonlinear_arith)
                requires
                    -2 * GRID_RANGE <= x + y <= 2 * GRID_RANGE,
                    0 <= th / 4 <= TILE_LIMIT,
            ;
            assert(-128 * TILE_LIMIT <= th * (layer as int) <= 128 * TILE_LIMIT)
                by (nonlinear_arith)
                requires
                    0 <= th <= TILE_LIMIT,
                    -128 <= layer as int <= 127,
            ;
        }
        let px = (x - y) * (tw / 2) - tw / 2 + self.view_w / 2 + self.viewport_offset_x;
        let py = (x + y) * (th / 4) + self.view_h / 4 - th * (layer as i64) + self.viewport_offset_y;
        (px, py)
    }

    /// Converts a view point in physical pixels to the grid cell it falls on
    /// at `layer`, rounding down on each grid axis.
    pub fn view_to_grid(&self, px: i64, py: i64, layer: i8) -> (g: (i64, i64))
        requires
            self.inv(),
            -VIEW_POINT_LIMIT <= px <= VIEW_POINT_LIMIT,
            -VIEW_POINT_LIMIT <= py <= VIEW_POINT_LIMIT,
        ensures
            (g.0 as int, g.1 as int) == self.spec_view_to_grid(px as int, py as int, layer as int),
    {
        proof {
            self.lemma_tile_size_properties();
        }
        let (tw, th) = self.calculate_tile_size();
        proof {
            assert(-128 * TILE_LIMIT <= th * (layer as int) <= 128 * TILE_LIMIT)
                by (nonlinear_arith)
                requires
                    0 <= th <= TILE_LIMIT,
                    -128 <= layer as int <= 127,
            ;
        }
        let x1 = px - self.viewport_offset_x - self.view_w / 2 + tw / 2;
        let y1 = py - self.viewport_offset_y - self.view_h / 4 + th * (layer as i64);
        let u = div_floor(x1, tw / 2);
        let v = div_floor(y1, th / 4);
        (div_floor(u + v, 2), div_floor(v - u, 2))
    }

    /// The forward projection of any in-range grid point lands inside the
    /// window the inverse projection accepts, so the two can be chained.
    pub proof fn lemma_grid_to_view_in_window(self, x: int, y: int, layer: int)
        requires
            self.inv(),
            -GRID_RANGE <= x <= GRID_RANGE,
            -GRID_RANGE <= y <= GRID_RANGE,
            -128 <= layer <= 127,
        ensures
            -VIEW_POINT_LIMIT <= self.spec_grid_to_view(x, y, layer).0 <= VIEW_POINT_LIMIT,
            -VIEW_POINT_LIMIT <= self.spec_grid_to_view(x, y, layer).1 <= VIEW_POINT_LIMIT,
    {
        self.lemma_tile_size_properties();
        let t = self.spec_tile_size();
        assert(-2 * GRID_RANGE * TILE_LIMIT <= (x - y) * (t / 2) <= 2 * GRID_RANGE * TILE_LIMIT)
            by (nonlinear_arith)
            requires
                -2 * GRID_RANGE <= x - y <= 2 * GRID_RANGE,
                0 <= t / 2 <= TILE_LIMIT,
        ;
        assert(-2 * GRID_RANGE * TILE_LIMIT <= (x + y) * (t / 4) <= 2 * GRID_RANGE * TILE_LIMIT)
            by (nonlinear_arith)
            requires
                -2 * GRID_RANGE <= x + y <= 2 * GRID_RANGE,
                0 <= t / 4 <= TILE_LIMIT,
        ;
        assert(-128 * TILE_LIMIT <= t * layer <= 128 * TILE_LIMIT) by (nonlinear_arith)
            requires
                0 <= t <= TILE_LIMIT,
                -128 <= layer <= 127,
        ;
    }

    /// Projecting a grid point and mapping the result back lands on the same
    /// grid point, exactly, for every cell of the grid and every layer.
    pub proof fn lemma_projection_round_trip(self, x: int, y: int, layer: int)
        requires
            self.inv(),
            0 <= x < self.spec_width(),
            0 <= y < self.spec_height(),
            -128 <= layer <= 127,
        ensures
            ({
                let p = self.spec_grid_to_view(x, y, layer);
                self.spec_view_to_grid(p.0, p.1, layer) == (x, y)
            }),
    {
        self.lemma_tile_size_properties();
        let t = self.spec_tile_size();
        let t2 = t / 2;
        let t4 = t / 4;
        vstd::arithmetic::div_mod::lemma_fundamental_div_mod(t, 4);
        assert(t == 4 * t4);
        assert(4 * t4 == 2 * (2 * t4) + 0) by (nonlinear_arith);
        lemma_fundamental_div_mod_converse(t, 2, 2 * t4, 0);
        assert(t2 == 2 * t4);
        let p = self.spec_grid_to_view(x, y, layer);
        let x1 = p.0 - self.viewport_offset_x as int - self.view_w as int / 2 + t2;
        let y1 = p.1 - self.viewport_offset_y as int - self.view_h as int / 4 + t * layer;
        assert(x1 == (x - y) * t2);
        assert(y1 == (x + y) * t4);
        assert((x - y) * t2 == (x - y) * t2 + 0 && (x - y) * t2 == t2 * (x - y))
            by (nonlinear_arith);
        lemma_fundamental_div_mod_converse(x1, t2, x - y, 0);
        assert((x + y) * t4 == t4 * (x + y)) by (nonlinear_arith);
        lemma_fundamental_div_mod_converse(y1, t4, x + y, 0);
        let u = x1 / t2;
        let v = y1 / t4;
        assert(u == x - y && v == x + y);
        assert(u + v == x * 2 + 0 && v - u == y * 2 + 0) by (nonlinear_arith)
            requires
                u == x - y,
                v == x + y,
        ;
        lemma_fundamental_div_mod_converse(u + v, 2, x, 0);
        lemma_fundamental_div_mod_converse(v - u, 2, y, 0);
    }
    /// The ordered cells on the rasterized line between two grid points,
    /// both endpoints included (integer Bresenham over the major axis, the
    /// walk direction canonicalized so both directions cover the same
    /// cells). Nothing is clipped: callers probing cells handle off-grid
    /// ones.
    pub fn tiles_on_line_between(&self, x1: i64, y1: i64, x2: i64, y2: i64) -> (out: Vec<
        (i64, i64),
    >)
        requires
            -crate::geometry::COORD_LIMIT <= x1 <= crate::geometry::COORD_LIMIT,
            -crate::geometry::COORD_LIMIT <= y1 <= crate::geometry::COORD_LIMIT,
            -crate::geometry::COORD_LIMIT <= x2 <= crate::geometry::COORD_LIMIT,
            -crate::geometry::COORD_LIMIT <= y2 <= crate::geometry::COORD_LIMIT,
        ensures
            out@.len() == spec_line_points(x1 as int, y1 as int, x2 as int, y2 as int).len(),
            forall|k: int|
                0 <= k < out@.len() ==> (#[trigger] out@[k].0 as int, out@[k].1 as int)
                    == spec_line_points(x1 as int, y1 as int, x2 as int, y2 as int)[k],
    {
        crate::geometry::line_points(x1, y1, x2, y2)
    }

    /// The cells of the rasterized ring of the given radius around the
    /// center, clipped to the grid, in scan order, duplicates kept (the
    /// classic midpoint-circle point set). Empty for a negative radius.
    pub fn tiles_on_radius(&self, center_x: i64, center_y: i64, radius: i64) -> (out: Vec<
        (usize, usize),
    >)
        requires
            self.inv(),
            -crate::geometry::COORD_LIMIT <= center_x <= crate::geometry::COORD_LIMIT,
            -crate::geometry::COORD_LIMIT <= center_y <= crate::geometry::COORD_LIMIT,
            -crate::geometry::COORD_LIMIT <= radius <= crate::geometry::COORD_LIMIT,
        ensures
            upts_view(out@) == spec_clip_points(
                spec_ring_points(center_x as int, center_y as int, radius as int),
                self.spec_width(),
                self.spec_height(),
            ),
    {
        let ring = crate::geometry::ring_points(center_x, center_y, radius);
        let ghost full = crate::geometry::pts_view(ring@);
        let w = self.width;
        let h = self.height;
        let mut out: Vec<(usize, usize)> = Vec::new();
        let mut k: usize = 0;
        proof {
            assert(full.take(0) =~= Seq::<(int, int)>::empty());
            assert(upts_view(out@) =~= Seq::<(int, int)>::empty());
        }
        while k < ring.len()
            invariant
                self.inv(),
                w == self.width,
                h == self.height,
                full == crate::geometry::pts_view(ring@),
                0 <= k <= ring@.len(),
                upts_view(out@) == spec_clip_points(full.take(k as int), w as int, h as int),
            decreases ring@.len() - k,
        {
            let ghost out0 = out@;
            let p = ring[k];
            if p.0 >= 0 && p.1 >= 0 && p.0 < w as i64 && p.1 < h as i64 {
                out.push((p.0 as usize, p.1 as usize));
            }
            proof {
                let taken = full.take(k as int + 1);
                assert(taken.drop_last() =~= full.take(k as int));
                assert(taken.last() == (p.0 as int, p.1 as int));
                if p.0 >= 0 && p.1 >= 0 && p.0 < w as i64 && p.1 < h as i64 {
                    assert(upts_view(out@) =~= upts_view(out0).push((p.0 as int, p.1 as int)));
                } else {
                    assert(upts_view(out@) =~= upts_view(out0));
                }
            }
            k = k + 1;
        }
        proof {
            assert(full.take(ring@.len() as int) =~= full);
        }
        out
    }

    /// Whether a cell lies in the filled disc of the given radius around a
    /// center, clipped to the grid: inside the radius' bounding box and at
    /// squared distance at most the squared radius.
    pub open spec fn spec_in_disc(self, cx: int, cy: int, r: int, x: int, y: int) -> bool {
        &&& self.in_bounds(x, y)
        &&& cx - r <= x <= cx + r
        &&& cy - r <= y <= cy + r
        &&& (x - cx) * (x - cx) + (y - cy) * (y - cy) <= r * r
    }

    /// The cells of the filled disc of the given radius around the center,
    /// clipped to the grid: exactly the on-grid cells of the radius'
    /// bounding square at squared distance at most the squared radius, in
    /// row-major scan order without duplicates. Empty for a negative radius.
    pub fn tiles_in_radius(&self, center_x: i64, center_y: i64, radius: i64) -> (out: Vec<
        (usize, usize),
    >)
        requires
            self.inv(),
            -crate::geometry::COORD_LIMIT <= center_x <= crate::geometry::COORD_LIMIT,
            -crate::geometry::COORD_LIMIT <= center_y <= crate::geometry::COORD_LIMIT,
            -crate::geometry::COORD_LIMIT <= radius <= crate::geometry::COORD_LIMIT,
        ensures
            forall|k: int|
                0 <= k < out@.len() ==> self.spec_in_disc(
                    center_x as int,
                    center_y as int,
                    radius as int,
                    #[trigger] out@[k].0 as int,
                    out@[k].1 as int,
                ),
            forall|a: int, b: int|
                self.spec_in_disc(center_x as int, center_y as int, radius as int, a, b)
                    ==> #[trigger] upts_view(out@).contains((a, b)),
            forall|k1: int, k2: int|
                0 <= k1 < k2 < out@.len() ==> ((#[trigger] out@[k1]).0 < (#[trigger] out@[k2]).0
                    || (out@[k1].0 == out@[k2].0 && out@[k1].1 < out@[k2].1)),
    {
        let ghost cx = center_x as int;
        let ghost cy = center_y as int;
        let ghost r = radius as int;
        let mut out: Vec<(usize, usize)> = Vec::new();
        let mut gx: i64 = center_x - radius;
        while gx <= center_x + radius
            invariant
                self.inv(),
                -crate::geometry::COORD_LIMIT <= center_x <= crate::geometry::COORD_LIMIT,
                -crate::geometry::COORD_LIMIT <= center_y <= crate::geometry::COORD_LIMIT,
                -crate::geometry::COORD_LIMIT <= radius <= crate::geometry::COORD_LIMIT,
                cx == center_x as int,
                cy == center_y as int,
                r == radius as int,
                cx - r <= gx,
                forall|k: int|
                    0 <= k < out@.len() ==> self.spec_in_disc(
                        cx,
                        cy,
                        r,
                        #[trigger] out@[k].0 as int,
                        out@[k].1 as int,
                    ) && (out@[k].0 as int) < gx,
                forall|a: int, b: int|
                    self.spec_in_disc(cx, cy, r, a, b) && a < gx ==> #[trigger] upts_view(
                        out@,
                    ).contains((a, b)),
                forall|k1: int, k2: int|
                    0 <= k1 < k2 < out@.len() ==> ((#[trigger] out@[k1]).0 < (
                    #[trigger] out@[k2]).0 || (out@[k1].0 == out@[k2].0 && out@[k1].1
                        < out@[k2].1)),
            decreases vstd::math::max(center_x + radius - gx + 1, 0),
        {
            let mut gy: i64 = center_y - radius;
            while gy <= center_y + radius
                invariant
                    self.inv(),
                    -crate::geometry::COORD_LIMIT <= center_x <= crate::geometry::COORD_LIMIT,
                    -crate::geometry::COORD_LIMIT <= center_y <= crate::geometry::COORD_LIMIT,
                    -crate::geometry::COORD_LIMIT <= radius <= crate::geometry::COORD_LIMIT,
                    cx == center_x as int,
                    cy == center_y as int,
                    r == radius as int,
                    cx - r <= gx <= cx + r,
                    cy - r <= gy,
                    forall|k: int|
                        0 <= k < out@.len() ==> self.spec_in_disc(
                            cx,
                            cy,
                            r,
                            #[trigger] out@[k].0 as int,
                            out@[k].1 as int,
                        ) && ((out@[k].0 as int) < gx || (out@[k].0 as int == gx && (out@[k].1
                            as int) < gy)),
                    forall|a: int, b: int|
                        self.spec_in_disc(cx, cy, r, a, b) && (a < gx || (a == gx && b < gy))
                            ==> #[trigger] upts_view(out@).contains((a, b)),
                    forall|k1: int, k2: int|
                        0 <= k1 < k2 < out@.len() ==> ((#[trigger] out@[k1]).0 < (
                        #[trigger] out@[k2]).0 || (out@[k1].0 == out@[k2].0 && out@[k1].1
                            < out@[k2].1)),
                decreases vstd::math::max(center_y + radius - gy + 1, 0),
            {
                if gx >= 0 && gy >= 0 && gx < self.width as i64 && gy < self.height as i64 {
                    let dx = gx - center_x;
                    let dy = gy - center_y;
                    proof {
                        assert(dx * dx <= crate::geometry::COORD_LIMIT * crate::geometry::COORD_LIMIT
                            * 4 && dx * dx >= 0) by (nonlinear_arith)
                            requires
                                -2 * crate::geometry::COORD_LIMIT <= dx <= 2
                                    * crate::geometry::COORD_LIMIT,
                        ;
                        assert(dy * dy <= crate::geometry::COORD_LIMIT * crate::geometry::COORD_LIMIT
                            * 4 && dy * dy >= 0) by (nonlinear_arith)
                            requires
                                -2 * crate::geometry::COORD_LIMIT <= dy <= 2
                                    * crate::geometry::COORD_LIMIT,
                        ;
                        assert(radius * radius <= crate::geometry::COORD_LIMIT
                            * crate::geometry::COORD_LIMIT && radius * radius >= 0)
                            by (nonlinear_arith)
                            requires
                                -crate::geometry::COORD_LIMIT <= radius
                                    <= crate::geometry::COORD_LIMIT,
                        ;
                    }
                    if dx * dx + dy * dy <= radius * radius {
                        let ghost out0 = out@;
                        out.push((gx as usize, gy as usize));
                        proof {
                            assert forall|a: int, b: int|
                                self.spec_in_disc(cx, cy, r, a, b) && (a < gx || (a == gx && b < gy
                                    + 1)) implies #[trigger] upts_view(out@).contains((a, b)) by {
                                if a == gx as int && b == gy as int {
                                    assert(upts_view(out@)[out0.len() as int] == (a, b));
                                } else {
                                    assert(upts_view(out0).contains((a, b)));
                                    let t = choose|t: int|
                                        0 <= t < upts_view(out0).len() && upts_view(out0)[t] == (
                                        a,
                                        b,
                                        );
                                    assert(upts_view(out@)[t] == (a, b));
                                }
                            }
                        }
                    } else {
                        proof {
                            assert forall|b: int|
                                self.spec_in_disc(cx, cy, r, gx as int, b) && b < gy + 1
                                    implies b < gy by {
                                assert(dx * dx == (gx as int - cx) * (gx as int - cx));
                            }
                        }
                    }
                }
                gy = gy + 1;
            }
            gx = gx + 1;
        }
        out
    }

    /// Whether the cell `(a, b)` lies on one of the rasterized rings of
    /// radii `radius - thickness + 1` through `radius` around the center.
    pub open spec fn spec_in_ring_band(
        cx: int,
        cy: int,
        radius: int,
        thickness: int,
        a: int,
        b: int,
    ) -> bool {
        exists|rr: int|
            radius - thickness + 1 <= rr <= radius && #[trigger] spec_ring_points(
                cx,
                cy,
                rr,
            ).contains((a, b))
    }

    /// Collects into `out` the on-grid cells of the ring band of the given
    /// radius and thickness around the center: the union of the rasterized
    /// rings of radii `radius - thickness + 1` through `radius`, clipped to
    /// the grid, deduplicated.
    pub fn tiles_on_radius_with_thickness(
        &self,
        out: &mut TileSet,
        center_x: i64,
        center_y: i64,
        radius: i64,
        thickness: i64,
    )
        requires
            self.inv(),
            old(out).inv(),
            -crate::geometry::COORD_LIMIT <= center_x <= crate::geometry::COORD_LIMIT,
            -crate::geometry::COORD_LIMIT <= center_y <= crate::geometry::COORD_LIMIT,
            -crate::geometry::COORD_LIMIT <= radius <= crate::geometry::COORD_LIMIT,
            1 <= thickness,
            -crate::geometry::COORD_LIMIT <= radius - thickness + 1,
        ensures
            final(out).inv(),
            forall|a: int, b: int|
                #[trigger] final(out).spec_contains(a, b) <==> (old(out).spec_contains(a, b) || (
                Self::spec_in_ring_band(
                    center_x as int,
                    center_y as int,
                    radius as int,
                    thickness as int,
                    a,
                    b,
                ) && self.in_bounds(a, b))),
    {
        let ghost cx = center_x as int;
        let ghost cy = center_y as int;
        let lo: i64 = radius - thickness + 1;
        let mut rr: i64 = lo;
        while rr <= radius
            invariant
                self.inv(),
                out.inv(),
                -crate::geometry::COORD_LIMIT <= center_x <= crate::geometry::COORD_LIMIT,
                -crate::geometry::COORD_LIMIT <= center_y <= crate::geometry::COORD_LIMIT,
                -crate::geometry::COORD_LIMIT <= radius <= crate::geometry::COORD_LIMIT,
                cx == center_x as int,
                cy == center_y as int,
                lo == radius - thickness + 1,
                -crate::geometry::COORD_LIMIT <= lo <= rr,
                rr <= radius + 1,
                forall|a: int, b: int|
                    #[trigger] out.spec_contains(a, b) <==> (old(out).spec_contains(a, b) || (
                    exists|q: int|
                        lo <= q < rr && #[trigger] spec_ring_points(cx, cy, q).contains((a, b))
                            && self.in_bounds(a, b))),
            decreases vstd::math::max(radius - rr + 1, 0),
        {
            let ring = self.tiles_on_radius(center_x, center_y, rr);
            proof {
                crate::geometry::lemma_clip_points_membership(
                    spec_ring_points(cx, cy, rr as int),
                    self.spec_width(),
                    self.spec_height(),
                );
            }
            let ghost out_row = *out;
            let mut k: usize = 0;
            while k < ring.len()
                invariant
                    self.inv(),
                    out.inv(),
                    0 <= k <= ring@.len(),
                    upts_view(ring@) == spec_clip_points(
                        spec_ring_points(cx, cy, rr as int),
                        self.spec_width(),
                        self.spec_height(),
                    ),
                    forall|p: (int, int)|
                        #[trigger] upts_view(ring@).contains(p) <==> (spec_ring_points(
                            cx,
                            cy,
                            rr as int,
                        ).contains(p) && self.in_bounds(p.0, p.1)),
                    forall|a: int, b: int|
                        #[trigger] out.spec_contains(a, b) <==> (out_row.spec_contains(a, b) || (
                        exists|j: int|
                            0 <= j < k && (#[trigger] ring@[j]).0 == a && ring@[j].1 == b)),
                decreases ring@.len() - k,
            {
                let cell = ring[k];
                out.insert(cell.0, cell.1);
                proof {
                    assert forall|a: int, b: int| #[trigger] out.spec_contains(a, b) <==> (
                    out_row.spec_contains(a, b) || (exists|j: int|
                        0 <= j < k + 1 && (#[trigger] ring@[j]).0 == a && ring@[j].1 == b)) by {
                        if out.spec_contains(a, b) && !out_row.spec_contains(a, b) {
                            if a == cell.0 as int && b == cell.1 as int {
                                assert(ring@[k as int].0 == a && ring@[k as int].1 == b);
                            }
                        }
                    }
                }
                k = k + 1;
            }
            proof {
                assert forall|a: int, b: int| #[trigger] out.spec_contains(a, b) <==> (old(
                    out,
                ).spec_contains(a, b) || (exists|q: int|
                    lo <= q < rr + 1 && #[trigger] spec_ring_points(cx, cy, q).contains((a, b))
                        && self.in_bounds(a, b))) by {
                    if out.spec_contains(a, b) {
                        if !out_row.spec_contains(a, b) {
                            let j = choose|j: int|
                                0 <= j < ring@.len() && (#[trigger] ring@[j]).0 == a && ring@[j].1
                                    == b;
                            assert(upts_view(ring@)[j] == (a, b));
                            assert(upts_view(ring@).contains((a, b)));
                            assert(spec_ring_points(cx, cy, rr as int).contains((a, b)));
                        }
                    }
                    if old(out).spec_contains(a, b) {
                        assert(out_row.spec_contains(a, b));
                    }
                    if exists|q: int|
                        lo <= q < rr + 1 && #[trigger] spec_ring_points(cx, cy, q).contains((a, b))
                            && self.in_bounds(a, b) {
                        let q = choose|q: int|
                            lo <= q < rr + 1 && #[trigger] spec_ring_points(cx, cy, q).contains(
                                (a, b),
                            ) && self.in_bounds(a, b);
                        if q == rr as int {
                            assert(upts_view(ring@).contains((a, b)));
                            let j = choose|j: int|
                                0 <= j < upts_view(ring@).len() && upts_view(ring@)[j] == (a, b);
                            assert((ring@[j]).0 == a && ring@[j].1 == b);
                            assert(out.spec_contains(a, b));
                        } else {
                            assert(out_row.spec_contains(a, b));
                        }
                    }
                }
            }
            rr = rr + 1;
        }
        proof {
            assert forall|a: int, b: int| #[trigger] final(out).spec_contains(a, b) <==> (old(
                out,
            ).spec_contains(a, b) || (Self::spec_in_ring_band(
                cx,
                cy,
                radius as int,
                thickness as int,
                a,
                b,
            ) && self.in_bounds(a, b))) by {}
        }
    }

    /// The keys of the existing layers, in ascending order: the order tiles
    /// draw in, lower layers first.
    pub fn layer_keys(&self) -> (r: Vec<i8>)
        requires
            self.inv(),
        ensures
            forall|i: int| 0 <= i < r@.len() ==> self.has_layer(#[trigger] r@[i] as int),
            forall|l: int|
                #[trigger] self.has_layer(l) ==> exists|i: int|
                    0 <= i < r@.len() && #[trigger] r@[i] as int == l,
            forall|i: int, j: int| 0 <= i < j < r@.len() ==> r@[i] < r@[j],
    {
        let mut out: Vec<i8> = Vec::new();
        let mut i: usize = 0;
        while i < self.layers.len()
            invariant
                self.inv(),
                0 <= i <= self.layers@.len(),
                out@.len() == i,
                forall|k: int| 0 <= k < i ==> #[trigger] out@[k] == self.layers@[k].key,
            decreases self.layers@.len() - i,
        {
            out.push(self.layers[i].key);
            i = i + 1;
        }
        proof {
            assert forall|l: int| #[trigger] self.has_layer(l) implies exists|i: int|
                0 <= i < out@.len() && #[trigger] out@[i] as int == l by {
                let k = choose|k: int|
                    0 <= k < self.layers@.len() && (#[trigger] self.layers@[k]).key == l;
                assert(out@[k] as int == l);
            }
        }
        out
    }
}
/// Number of cells among the first `n` whose canonical color matches `c` on
/// the RGB channels.
pub open spec fn spec_match_count(cells: Seq<(Tile, TileState)>, c: Rgba, n: int) -> int
    decreases n,
{
    if n <= 0 {
        0
    } else {
        spec_match_count(cells, c, n - 1) + if cells[n - 1].1.original_blend_color.spec_same_rgb(
            c,
        ) {
            1int
        } else {
            0int
        }
    }
}

/// Number of cells among the first `n` whose canonical color differs between
/// `a` and `b`.
pub open spec fn spec_changed_count(
    a: Seq<(Tile, TileState)>,
    b: Seq<(Tile, TileState)>,
    n: int,
) -> int
    decreases n,
{
    if n <= 0 {
        0
    } else {
        spec_changed_count(a, b, n - 1) + if a[n - 1].1.original_blend_color == b[n
            - 1].1.original_blend_color {
            0int
        } else {
            1int
        }
    }
}

/// Both counters stay between zero and the prefix length.
proof fn lemma_counts_bounds(a: Seq<(Tile, TileState)>, b: Seq<(Tile, TileState)>, c: Rgba, n: int)
    ensures
        0 <= spec_match_count(a, c, n) <= vstd::math::max(n, 0),
        0 <= spec_changed_count(a, b, n) <= vstd::math::max(n, 0),
    decreases n,
{
    if n > 0 {
        lemma_counts_bounds(a, b, c, n - 1);
    }
}

/// The match counter reads only the first `n` cells.
proof fn lemma_match_count_congruence(
    s1: Seq<(Tile, TileState)>,
    s2: Seq<(Tile, TileState)>,
    c: Rgba,
    n: int,
)
    requires
        forall|i: int| 0 <= i < n ==> s1[i] == s2[i],
    ensures
        spec_match_count(s1, c, n) == spec_match_count(s2, c, n),
    decreases n,
{
    if n > 0 {
        lemma_match_count_congruence(s1, s2, c, n - 1);
    }
}

/// The change counter reads only the first `n` cells of its second sequence.
proof fn lemma_changed_count_congruence(
    a: Seq<(Tile, TileState)>,
    b1: Seq<(Tile, TileState)>,
    b2: Seq<(Tile, TileState)>,
    n: int,
)
    requires
        forall|i: int| 0 <= i < n ==> b1[i] == b2[i],
    ensures
        spec_changed_count(a, b1, n) == spec_changed_count(a, b2, n),
    decreases n,
{
    if n > 0 {
        lemma_changed_count_congruence(a, b1, b2, n - 1);
    }
}

/// Recoloring one matching cell away from `c` lowers the match counter by
/// one.
proof fn lemma_match_count_update(
    cells: Seq<(Tile, TileState)>,
    v: (Tile, TileState),
    c: Rgba,
    k: int,
    n: int,
)
    requires
        0 <= k < n <= cells.len(),
        cells[k].1.original_blend_color.spec_same_rgb(c),
        !v.1.original_blend_color.spec_same_rgb(c),
    ensures
        spec_match_count(cells.update(k, v), c, n) == spec_match_count(cells, c, n) - 1,
    decreases n,
{
    if k == n - 1 {
        lemma_match_count_congruence(cells.update(k, v), cells, c, n - 1);
    } else {
        lemma_match_count_update(cells, v, c, k, n - 1);
    }
}

/// Recoloring one so-far-unchanged cell raises the change counter by one.
proof fn lemma_changed_count_update(
    a: Seq<(Tile, TileState)>,
    b: Seq<(Tile, TileState)>,
    v: (Tile, TileState),
    k: int,
    n: int,
)
    requires
        0 <= k < n <= a.len(),
        n <= b.len(),
        a[k].1.original_blend_color == b[k].1.original_blend_color,
        v.1.original_blend_color != a[k].1.original_blend_color,
    ensures
        spec_changed_count(a, b.update(k, v), n) == spec_changed_count(a, b, n) + 1,
    decreases n,
{
    if k == n - 1 {
        lemma_changed_count_congruence(a, b.update(k, v), b, n - 1);
    } else {
        lemma_changed_count_update(a, b, v, k, n - 1);
    }
}

/// A sequence never differs from itself.
proof fn lemma_changed_count_self(a: Seq<(Tile, TileState)>, n: int)
    ensures
        spec_changed_count(a, a, n) == 0,
    decreases n,
{
    if n > 0 {
        lemma_changed_count_self(a, n - 1);
    }
}

/// Number of recolored cells (canonical colors differing between `a` and
/// `b`) among the first `n` cells of column `x` of `layer`.
pub open spec fn spec_recolored_col(a: TileMap, b: TileMap, layer: int, x: int, n: int) -> int
    decreases n,
{
    if n <= 0 {
        0
    } else {
        spec_recolored_col(a, b, layer, x, n - 1) + if a.spec_state(
            layer,
            x,
            n - 1,
        ).original_blend_color == b.spec_state(layer, x, n - 1).original_blend_color {
            0int
        } else {
            1int
        }
    }
}

/// Number of recolored cells among the first `n` columns of `layer`.
pub open spec fn spec_recolored_count(a: TileMap, b: TileMap, layer: int, n: int) -> int
    decreases n,
{
    if n <= 0 {
        0
    } else {
        spec_recolored_count(a, b, layer, n - 1) + spec_recolored_col(
            a,
            b,
            layer,
            n - 1,
            a.spec_height(),
        )
    }
}

/// Whether two cells are 4-connected neighbors.
pub open spec fn four_adjacent(x: int, y: int, nx: int, ny: int) -> bool {
    ||| (nx == x + 1 && ny == y)
    ||| (nx == x - 1 && ny == y)
    ||| (nx == x && ny == y + 1)
    ||| (nx == x && ny == y - 1)
}

/// Whether `path` is a fill path on `layer` of `m`: a nonempty chain of
/// 4-connected, in-bounds cells whose canonical colors all match `old_blend`
/// on the RGB channels.
pub open spec fn spec_fill_path(
    m: TileMap,
    layer: int,
    old_blend: Rgba,
    path: Seq<(int, int)>,
) -> bool {
    &&& path.len() >= 1
    &&& forall|k: int| 0 <= k < path.len() ==> m.in_bounds((#[trigger] path[k]).0, path[k].1)
    &&& forall|k: int|
        0 <= k < path.len() ==> m.spec_state(
            layer,
            (#[trigger] path[k]).0,
            path[k].1,
        ).original_blend_color.spec_same_rgb(old_blend)
    &&& forall|k: int|
        0 < k < path.len() ==> four_adjacent(
            path[k - 1].0,
            path[k - 1].1,
            (#[trigger] path[k]).0,
            path[k].1,
        )
}

/// Whether the cell `(tx, ty)` is 4-connected to `(sx, sy)` on `layer` of
/// `m` through cells whose canonical color matches `old_blend`, both ends
/// included.
pub open spec fn spec_fill_reachable(
    m: TileMap,
    layer: int,
    old_blend: Rgba,
    sx: int,
    sy: int,
    tx: int,
    ty: int,
) -> bool {
    exists|path: Seq<(int, int)>|
        #[trigger] spec_fill_path(m, layer, old_blend, path) && path.first() == (sx, sy)
            && path.last() == (tx, ty)
}

/// A matching cell is a fill path of its own.
proof fn lemma_fill_path_single(m: TileMap, layer: int, old_blend: Rgba, x: int, y: int)
    requires
        m.in_bounds(x, y),
        m.spec_state(layer, x, y).original_blend_color.spec_same_rgb(old_blend),
    ensures
        spec_fill_reachable(m, layer, old_blend, x, y, x, y),
{
    let path = seq![(x, y)];
    assert(path[0] == (x, y));
    assert(spec_fill_path(m, layer, old_blend, path));
}

/// A fill path extends by one matching 4-connected neighbor.
proof fn lemma_fill_path_extend(
    m: TileMap,
    layer: int,
    old_blend: Rgba,
    path: Seq<(int, int)>,
    nx: int,
    ny: int,
)
    requires
        spec_fill_path(m, layer, old_blend, path),
        m.in_bounds(nx, ny),
        m.spec_state(layer, nx, ny).original_blend_color.spec_same_rgb(old_blend),
        four_adjacent(path.last().0, path.last().1, nx, ny),
    ensures
        spec_fill_path(m, layer, old_blend, path.push((nx, ny))),
        path.push((nx, ny)).first() == path.first(),
        path.push((nx, ny)).last() == (nx, ny),
{
    let p2 = path.push((nx, ny));
    assert forall|k: int| 0 <= k < p2.len() implies m.in_bounds((#[trigger] p2[k]).0, p2[k].1)
        && m.spec_state(layer, p2[k].0, p2[k].1).original_blend_color.spec_same_rgb(old_blend) by {
        if k < path.len() {
            assert(p2[k] == path[k]);
        }
    }
    assert forall|k: int| 0 < k < p2.len() implies four_adjacent(
        p2[k - 1].0,
        p2[k - 1].1,
        (#[trigger] p2[k]).0,
        p2[k].1,
    ) by {
        if k < path.len() {
            assert(p2[k] == path[k] && p2[k - 1] == path[k - 1]);
        } else {
            assert(p2[k - 1] == path[path.len() - 1]);
        }
    }
}

/// Whether the coordinate pair `(x, y)` occurs in a worklist.
pub open spec fn on_stack(s: Seq<(usize, usize)>, x: int, y: int) -> bool {
    exists|k: int| 0 <= k < s.len() && (#[trigger] s[k]).0 == x && s[k].1 == y
}

/// Pushing keeps everything on the worklist and adds the new pair.
proof fn lemma_on_stack_push(s: Seq<(usize, usize)>, v: (usize, usize))
    ensures
        on_stack(s.push(v), v.0 as int, v.1 as int),
        forall|a: int, b: int| on_stack(s, a, b) ==> on_stack(s.push(v), a, b),
{
    assert(s.push(v)[s.len() as int] == v);
    assert forall|a: int, b: int| on_stack(s, a, b) implies on_stack(s.push(v), a, b) by {
        let k = choose|k: int| 0 <= k < s.len() && (#[trigger] s[k]).0 == a && s[k].1 == b;
        assert(s.push(v)[k] == s[k]);
    }
}

/// Pushes a cell onto a flood-fill worklist.
fn push_cell(stack: &mut Vec<(usize, usize)>, cx: usize, cy: usize)
    ensures
        final(stack)@ == old(stack)@.push((cx, cy)),
        on_stack(final(stack)@, cx as int, cy as int),
        forall|a: int, b: int|
            #[trigger] on_stack(final(stack)@, a, b) <==> (on_stack(old(stack)@, a, b) || (a
                == cx as int && b == cy as int)),
{
    let ghost s0 = stack@;
    stack.push((cx, cy));
    proof {
        lemma_on_stack_push(s0, (cx, cy));
        assert forall|a: int, b: int| #[trigger] on_stack(stack@, a, b) implies (on_stack(
            s0,
            a,
            b,
        ) || (a == cx as int && b == cy as int)) by {
            let k = choose|k: int|
                0 <= k < stack@.len() && (#[trigger] stack@[k]).0 == a && stack@[k].1 == b;
            if k < s0.len() {
                assert(s0[k] == stack@[k]);
            }
        }
    }
}

/// Division rounding toward negative infinity, for a positive divisor.
fn div_floor(a: i64, b: i64) -> (q: i64)
    requires
        0 < b,
        -0x2000000000000000 <= a <= 0x2000000000000000,
        b <= 0x2000000000000000,
    ensures
        q == a as int / b as int,
        0 <= a ==> 0 <= q <= a,
        a < 0 ==> a <= q <= 0,
{
    if a >= 0 {
        proof {
            vstd::arithmetic::div_mod::lemma_div_pos_is_pos(a as int, b as int);
            vstd::arithmetic::div_mod::lemma_div_nonincreasing(a as int, b as int);
        }
        a / b
    } else {
        let na = -a;
        let ghost s = na as int / b as int;
        let ghost t0 = na as int % b as int;
        proof {
            vstd::arithmetic::div_mod::lemma_fundamental_div_mod(na as int, b as int);
            vstd::arithmetic::div_mod::lemma_mod_division_less_than_divisor(na as int, b as int);
            vstd::arithmetic::div_mod::lemma_div_pos_is_pos(na as int, b as int);
            vstd::arithmetic::div_mod::lemma_div_nonincreasing(na as int, b as int);
            assert((b as int) * (s + 1) == (b as int) * s + b && (s + 1) * (b as int) == (
            b as int) * s + b) by (nonlinear_arith);
            assert(s * (b as int) == (b as int) * s) by (nonlinear_arith);
            if t0 >= 1 {
                lemma_fundamental_div_mod_converse(na as int + b - 1, b as int, s + 1, t0 - 1);
                assert(s <= (b as int) * s) by (nonlinear_arith)
                    requires
                        s >= 0,
                        b >= 1,
                ;
                assert((b as int) * (-(s + 1)) == -((b as int) * (s + 1)) && (-(s + 1)) * (
                b as int) == -((b as int) * (s + 1))) by (nonlinear_arith);
                lemma_fundamental_div_mod_converse(a as int, b as int, -(s + 1), b - t0);
            } else {
                lemma_fundamental_div_mod_converse(na as int + b - 1, b as int, s, b - 1);
                assert((b as int) * (-s) == -((b as int) * s) && (-s) * (b as int) == -((
                b as int) * s)) by (nonlinear_arith);
                lemma_fundamental_div_mod_converse(a as int, b as int, -s, 0);
            }
        }
        -((na + b - 1) / b)
    }
}

} // verus!
