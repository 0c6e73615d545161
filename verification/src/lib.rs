//! A text shaping and layout engine for immediate-mode rendering.
//!
//! Given per-character glyph metrics (resolved through a monotonically
//! growing cache), an optional wrap width, and a piece of text, the
//! library produces a fully positioned, line-broken layout (a
//! [`galley::Galley`]) plus bidirectional mapping between positions and
//! character indices for cursor and selection logic.
//!
//! All coordinates are whole device pixels: every horizontal advance is
//! snapped to a device-pixel boundary when metrics enter the cache, so
//! integer arithmetic here is exact. Conversion between floating-point
//! points and device pixels belongs to the caller that owns the
//! rasterizer.

pub mod font;
pub mod galley;
pub mod glyph;
pub mod laws;
