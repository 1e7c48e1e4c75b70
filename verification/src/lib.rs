//! A 2.5D dimetric tile-grid engine with a fog-of-war subsystem.
//!
//! The crate owns the mapping between logical grid coordinates and projected
//! screen coordinates, layered sparse tile storage with per-tile animated
//! visual state, discrete geometry primitives (line, ring and disc
//! rasterization, flood fill), and a wavefront "pulse" visibility system with
//! line-of-sight occlusion. Rendering, audio and input are left to the
//! embedding application; the engine works on plain integer values supplied by
//! it (viewport sizes in pixels, frame deltas in milliseconds, texture
//! handles as opaque identifiers).

pub mod color;
pub mod fog;
pub mod game_map;
pub mod geometry;
pub mod loader;
pub mod tilemap;
pub mod transition;
