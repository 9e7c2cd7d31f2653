//! Core of a server-rendered multiplayer game engine: the draw-command wire
//! format, a uniform-grid spatial index, the debug rasterizer's paint plan, and
//! the decisions of the tick loop, the session handshake and frame delivery.
//!
//! World geometry is integral: positions are `i16` world units and radii,
//! ranges and cell sizes `u16`, so that every narrowphase test is exact.
//! Draw-command payloads keep their `f32` fields as raw bits.
pub mod codec;
pub mod delivery;
pub mod raster;
pub mod sdk;
pub mod session;
pub mod spatial;
