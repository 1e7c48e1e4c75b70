//! Loading a tile map from a decoded bitmap: every pixel is handed to a
//! caller-supplied color mapper, which decides whether it becomes a tile, a
//! tile plus a spawn point, or nothing.
use vstd::prelude::*;

verus! {

use crate::color::Rgba;
use crate::tilemap::{Tile, TileMap, TileMapError, TileState};

/// Declares `image::DynamicImage`, the decoded bitmap type levels are read
/// from, so its values can pass through verified signatures.
#[verifier::external_type_specification]
#[verifier::external_body]
pub struct ExDynamicImage(image::DynamicImage);

/// The width and height a decoded image stores.
pub uninterp spec fn image_dims(img: image::DynamicImage) -> (u32, u32);

/// The RGBA8 channels of the pixel at `(x, y)` of a decoded image.
pub uninterp spec fn image_pixel(img: image::DynamicImage, x: u32, y: u32) -> (u8, u8, u8, u8);

/// The pixel at `(x, y)` of a decoded image, as a color.
pub open spec fn spec_image_color(img: image::DynamicImage, x: u32, y: u32) -> Rgba {
    let p = image_pixel(img, x, y);
    Rgba { red: p.0, green: p.1, blue: p.2, alpha: p.3 }
}

/// Relies on `image::DynamicImage::width`: the stored width of the image.
#[verifier::external_body]
fn bitmap_width(img: &image::DynamicImage) -> (w: u32)
    ensures
        w == image_dims(*img).0,
{
    img.width()
}

/// Relies on `image::DynamicImage::height`: the stored height of the image.
#[verifier::external_body]
fn bitmap_height(img: &image::DynamicImage) -> (h: u32)
    ensures
        h == image_dims(*img).1,
{
    img.height()
}

/// Relies on `image::GenericImageView::get_pixel` for `image::DynamicImage`:
/// the RGBA8 value of a pixel, a function of the image alone. It panics off
/// the image, so the coordinates must lie inside the dimensions.
#[verifier::external_body]
fn bitmap_pixel(img: &image::DynamicImage, x: u32, y: u32) -> (c: Rgba)
    requires
        x < image_dims(*img).0,
        y < image_dims(*img).1,
    ensures
        (c.red, c.green, c.blue, c.alpha) == image_pixel(*img, x, y),
{
    let p = image::GenericImageView::get_pixel(img, x, y);
    Rgba { red: p.0[0], green: p.0[1], blue: p.0[2], alpha: p.0[3] }
}

/// Result of mapping one bitmap pixel during tile map loading.
#[derive(Clone, Copy, Debug)]
pub enum TileLoadResult {
    /// Create this tile at the pixel's cell.
    Tile(Tile),
    /// Create this tile and report a spawn point.
    TileWithSpawn(Tile, u32, u32),
    /// Create no tile for this pixel.
    Skip,
}

/// Maps bitmap pixels to tiles, so that each game defines its own color
/// semantics without the engine hardcoding them.
pub trait ColorMapper: Sized {
    /// What the mapper decides for the pixel at `(x, y)` with color `color`.
    spec fn spec_map_pixel(&self, x: u32, y: u32, color: Rgba) -> TileLoadResult;

    /// Maps the pixel at `(x, y)` with color `color` to a tile decision.
    fn map_pixel(&self, x: u32, y: u32, color: Rgba) -> (r: TileLoadResult)
        ensures
            r == self.spec_map_pixel(x, y, color),
    ;
}

/// Whether a pixel decision reports a spawn point.
pub open spec fn is_spawn(d: TileLoadResult) -> bool {
    d is TileWithSpawn
}

/// Whether a pixel decision creates a tile, and which.
pub open spec fn decided_tile(d: TileLoadResult) -> Option<Tile> {
    match d {
        TileLoadResult::Tile(t) => Some(t),
        TileLoadResult::TileWithSpawn(t, _, _) => Some(t),
        TileLoadResult::Skip => None,
    }
}

/// Whether pixel `(x1, y1)` comes before `(x2, y2)` in the loader's
/// row-major scan.
pub open spec fn pixel_before(x1: u32, y1: u32, x2: u32, y2: u32) -> bool {
    y1 < y2 || (y1 == y2 && x1 < x2)
}

impl TileMap {
    /// Loads tiles into `layer` from a decoded bitmap, one cell per pixel in
    /// row-major order, delegating each pixel's meaning to `color_mapper`.
    /// The bitmap must match the grid size exactly. Returns the first spawn
    /// point a pixel reports, if any; later reports are ignored.
    pub fn load_from_bitmap<M: ColorMapper>(
        &mut self,
        bitmap: &image::DynamicImage,
        layer: i8,
        color_mapper: M,
    ) -> (r: Result<Option<(u32, u32)>, TileMapError>)
        requires
            old(self).inv(),
        ensures
            final(self).inv(),
            r is Ok <==> (image_dims(*bitmap).0 == old(self).spec_width() && image_dims(
                *bitmap,
            ).1 == old(self).spec_height()),
            r is Err ==> r == Err::<Option<(u32, u32)>, TileMapError>(
                TileMapError::DimensionMismatch,
            ) && *final(self) == *old(self),
            r is Ok ==> {
                &&& final(self).spec_width() == old(self).spec_width()
                &&& final(self).spec_height() == old(self).spec_height()
                &&& final(self).spec_color_bg() == old(self).spec_color_bg()
                &&& final(self).spec_color_default() == old(self).spec_color_default()
                &&& final(self).spec_viewport() == old(self).spec_viewport()
                &&& forall|l: int|
                    l != layer as int ==> #[trigger] final(self).has_layer(l) == old(
                        self,
                    ).has_layer(l)
                &&& forall|l: int, xx: int, yy: int|
                    l != layer as int && old(self).has_layer(l) && old(self).in_bounds(xx, yy)
                        ==> #[trigger] final(self).spec_cell(l, xx, yy) == old(self).spec_cell(
                        l,
                        xx,
                        yy,
                    )
                &&& (final(self).has_layer(layer as int) <==> (old(self).has_layer(layer as int)
                    || (exists|x: u32, y: u32|
                    x < image_dims(*bitmap).0 && y < image_dims(*bitmap).1 && decided_tile(
                        #[trigger] color_mapper.spec_map_pixel(
                            x,
                            y,
                            spec_image_color(*bitmap, x, y),
                        ),
                    ) is Some)))
                &&& final(self).has_layer(layer as int) ==> forall|x: u32, y: u32|
                    x < image_dims(*bitmap).0 && y < image_dims(*bitmap).1
                        ==> #[trigger] final(self).spec_cell(layer as int, x as int, y as int)
                        == (match decided_tile(
                        color_mapper.spec_map_pixel(x, y, spec_image_color(*bitmap, x, y)),
                    ) {
                        Some(t) => (
                            t,
                            TileState::spec_from_tile(t, old(self).spec_color_default()),
                        ),
                        None => (if old(self).has_layer(layer as int) {
                            old(self).spec_cell(layer as int, x as int, y as int)
                        } else {
                            (Tile::Empty, TileState::spec_default())
                        }),
                    })
                &&& (match r {
                    Ok(Some(s)) => exists|x: u32, y: u32|
                        x < image_dims(*bitmap).0 && y < image_dims(*bitmap).1 && (
                        #[trigger] color_mapper.spec_map_pixel(
                            x,
                            y,
                            spec_image_color(*bitmap, x, y),
                        ) matches TileLoadResult::TileWithSpawn(_, sx, sy) && (sx, sy) == s)
                            && (forall|x2: u32, y2: u32|
                            x2 < image_dims(*bitmap).0 && y2 < image_dims(*bitmap).1
                                && pixel_before(x2, y2, x, y) ==> !is_spawn(
                                #[trigger] color_mapper.spec_map_pixel(
                                    x2,
                                    y2,
                                    spec_image_color(*bitmap, x2, y2),
                                ),
                            )),
                    Ok(None) => forall|x: u32, y: u32|
                        x < image_dims(*bitmap).0 && y < image_dims(*bitmap).1 ==> !is_spawn(
                            #[trigger] color_mapper.spec_map_pixel(
                                x,
                                y,
                                spec_image_color(*bitmap, x, y),
                            ),
                        ),
                    Err(_) => false,
                })
            },
    {
        let ghost pre = *self;
        let w = bitmap_width(bitmap);
        let h = bitmap_height(bitmap);
        proof {
            self.lemma_inv_bounds();
        }
        if w as usize != self.width() || h as usize != self.height() {
            return Err(TileMapError::DimensionMismatch);
        }
        let mut spawn_point: Option<(u32, u32)> = None;
        let mut y: u32 = 0;
        while y < h
            invariant
                self.inv(),
                pre.inv(),
                w == image_dims(*bitmap).0,
                h == image_dims(*bitmap).1,
                w as int == pre.spec_width(),
                h as int == pre.spec_height(),
                0 <= y <= h,
                self.spec_width() == pre.spec_width(),
                self.spec_height() == pre.spec_height(),
                self.spec_color_bg() == pre.spec_color_bg(),
                self.spec_color_default() == pre.spec_color_default(),
                self.spec_viewport() == pre.spec_viewport(),
                forall|l: int|
                    l != layer as int ==> #[trigger] self.has_layer(l) == pre.has_layer(l),
                forall|l: int, xx: int, yy: int|
                    l != layer as int && pre.has_layer(l) && pre.in_bounds(xx, yy)
                        ==> #[trigger] self.spec_cell(l, xx, yy) == pre.spec_cell(l, xx, yy),
                (self.has_layer(layer as int) <==> (pre.has_layer(layer as int) || (exists|
                    x2: u32,
                    y2: u32,
                |
                    x2 < w && y2 < h && pixel_before(x2, y2, 0, y) && decided_tile(
                        #[trigger] color_mapper.spec_map_pixel(
                            x2,
                            y2,
                            spec_image_color(*bitmap, x2, y2),
                        ),
                    ) is Some))),
                self.has_layer(layer as int) ==> forall|x2: u32, y2: u32|
                    x2 < w && y2 < h && pixel_before(x2, y2, 0, y)
                        ==> #[trigger] self.spec_cell(layer as int, x2 as int, y2 as int) == (
                    match decided_tile(
                        color_mapper.spec_map_pixel(x2, y2, spec_image_color(*bitmap, x2, y2)),
                    ) {
                        Some(t) => (t, TileState::spec_from_tile(t, pre.spec_color_default())),
                        None => (if pre.has_layer(layer as int) {
                            pre.spec_cell(layer as int, x2 as int, y2 as int)
                        } else {
                            (Tile::Empty, TileState::spec_default())
                        }),
                    }),
                self.has_layer(layer as int) ==> forall|x2: u32, y2: u32|
                    x2 < w && y2 < h && !pixel_before(x2, y2, 0, y)
                        ==> #[trigger] self.spec_cell(layer as int, x2 as int, y2 as int) == (if pre.has_layer(
                        layer as int,
                    ) {
                        pre.spec_cell(layer as int, x2 as int, y2 as int)
                    } else {
                        (Tile::Empty, TileState::spec_default())
                    }),
                (match spawn_point {
                    Some(s) => exists|x2: u32, y2: u32|
                        x2 < w && y2 < h && pixel_before(x2, y2, 0, y) && (
                        #[trigger] color_mapper.spec_map_pixel(
                            x2,
                            y2,
                            spec_image_color(*bitmap, x2, y2),
                        ) matches TileLoadResult::TileWithSpawn(_, sx, sy) && (sx, sy) == s) && (
                        forall|x3: u32, y3: u32|
                            x3 < w && y3 < h && pixel_before(x3, y3, x2, y2) ==> !is_spawn(
                                #[trigger] color_mapper.spec_map_pixel(
                                    x3,
                                    y3,
                                    spec_image_color(*bitmap, x3, y3),
                                ),
                            )),
                    None => forall|x2: u32, y2: u32|
                        x2 < w && y2 < h && pixel_before(x2, y2, 0, y) ==> !is_spawn(
                            #[trigger] color_mapper.spec_map_pixel(
                                x2,
                                y2,
                                spec_image_color(*bitmap, x2, y2),
                            ),
                        ),
                }),
            decreases h - y,
        {
            let mut x: u32 = 0;
            while x < w
                invariant
                    self.inv(),
                    pre.inv(),
                    w == image_dims(*bitmap).0,
                    h == image_dims(*bitmap).1,
                    w as int == pre.spec_width(),
                    h as int == pre.spec_height(),
                    0 <= y < h,
                    0 <= x <= w,
                    self.spec_width() == pre.spec_width(),
                    self.spec_height() == pre.spec_height(),
                    self.spec_color_bg() == pre.spec_color_bg(),
                    self.spec_color_default() == pre.spec_color_default(),
                    self.spec_viewport() == pre.spec_viewport(),
                    forall|l: int|
                        l != layer as int ==> #[trigger] self.has_layer(l) == pre.has_layer(l),
                    forall|l: int, xx: int, yy: int|
                        l != layer as int && pre.has_layer(l) && pre.in_bounds(xx, yy)
                            ==> #[trigger] self.spec_cell(l, xx, yy) == pre.spec_cell(l, xx, yy),
                    (self.has_layer(layer as int) <==> (pre.has_layer(layer as int) || (exists|
                        x2: u32,
                        y2: u32,
                    |
                        x2 < w && y2 < h && pixel_before(x2, y2, x, y) && decided_tile(
                            #[trigger] color_mapper.spec_map_pixel(
                                x2,
                                y2,
                                spec_image_color(*bitmap, x2, y2),
                            ),
                        ) is Some))),
                    self.has_layer(layer as int) ==> forall|x2: u32, y2: u32|
                        x2 < w && y2 < h && pixel_before(x2, y2, x, y)
                            ==> #[trigger] self.spec_cell(layer as int, x2 as int, y2 as int) == (
                        match decided_tile(
                            color_mapper.spec_map_pixel(x2, y2, spec_image_color(*bitmap, x2, y2)),
                        ) {
                            Some(t) => (
                                t,
                                TileState::spec_from_tile(t, pre.spec_color_default()),
                            ),
                            None => (if pre.has_layer(layer as int) {
                                pre.spec_cell(layer as int, x2 as int, y2 as int)
                            } else {
                                (Tile::Empty, TileState::spec_default())
                            }),
                        }),
                    self.has_layer(layer as int) ==> forall|x2: u32, y2: u32|
                        x2 < w && y2 < h && !pixel_before(x2, y2, x, y)
                            ==> #[trigger] self.spec_cell(layer as int, x2 as int, y2 as int) == (
                        if pre.has_layer(layer as int) {
                            pre.spec_cell(layer as int, x2 as int, y2 as int)
                        } else {
                            (Tile::Empty, TileState::spec_default())
                        }),
                    (match spawn_point {
                        Some(s) => exists|x2: u32, y2: u32|
                            x2 < w && y2 < h && pixel_before(x2, y2, x, y) && (
                            #[trigger] color_mapper.spec_map_pixel(
                                x2,
                                y2,
                                spec_image_color(*bitmap, x2, y2),
                            ) matches TileLoadResult::TileWithSpawn(_, sx, sy) && (sx, sy) == s)
                                && (forall|x3: u32, y3: u32|
                                x3 < w && y3 < h && pixel_before(x3, y3, x2, y2) ==> !is_spawn(
                                    #[trigger] color_mapper.spec_map_pixel(
                                        x3,
                                        y3,
                                        spec_image_color(*bitmap, x3, y3),
                                    ),
                                )),
                        None => forall|x2: u32, y2: u32|
                            x2 < w && y2 < h && pixel_before(x2, y2, x, y) ==> !is_spawn(
                                #[trigger] color_mapper.spec_map_pixel(
                                    x2,
                                    y2,
                                    spec_image_color(*bitmap, x2, y2),
                                ),
                            ),
                    }),
                decreases w - x,
            {
                let color = bitmap_pixel(bitmap, x, y);
                proof {
                    assert(color == spec_image_color(*bitmap, x, y));
                }
                let decision = color_mapper.map_pixel(x, y, color);
                match decision {
                    TileLoadResult::Tile(tile) => {
                        let res = self.set_tile(x as usize, y as usize, layer, tile);
                        proof {
                            assert(res is Ok);
                        }
                    },
                    TileLoadResult::TileWithSpawn(tile, spawn_x, spawn_y) => {
                        let res = self.set_tile(x as usize, y as usize, layer, tile);
                        proof {
                            assert(res is Ok);
                        }
                        if spawn_point.is_none() {
                            spawn_point = Some((spawn_x, spawn_y));
                        }
                    },
                    TileLoadResult::Skip => {},
                }
                x = x + 1;
            }
            y = y + 1;
        }
        Ok(spawn_point)
    }
}

} // verus!
