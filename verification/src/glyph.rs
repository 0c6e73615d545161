use vstd::prelude::*;

verus! {

/// A two-dimensional offset or extent, in whole device pixels.
#[derive(Clone, Copy, Debug, PartialEq, Eq, Structural)]
pub struct Vec2i {
    pub x: i64,
    pub y: i64,
}

/// Where a rasterized glyph sits in the shared texture atlas, plus the
/// positional correction to apply when rendering it.
#[derive(Clone, Copy, Debug, PartialEq)]
pub struct UvRect {
    /// Positional correction applied at render time (device pixels).
    pub offset: Vec2i,
    /// Extent of the rasterized coverage (device pixels).
    pub size: Vec2i,
    /// Top left corner in texture coordinates.
    pub min: (u16, u16),
    /// Bottom right corner in texture coordinates (exclusive).
    pub max: (u16, u16),
}

impl UvRect {
    /// A rectangle freshly handed out by the atlas packer: the exclusive
    /// bottom-right corner lies exactly `size` past the top-left corner.
    pub fn from_allocation(offset: Vec2i, pos: (u16, u16), width: u16, height: u16) -> (r: UvRect)
        requires
            pos.0 + width <= u16::MAX,
            pos.1 + height <= u16::MAX,
        ensures
            r.offset == offset,
            r.size == (Vec2i { x: width as i64, y: height as i64 }),
            r.min == pos,
            r.max.0 == pos.0 + width,
            r.max.1 == pos.1 + height,
    {
        UvRect {
            offset,
            size: Vec2i { x: width as i64, y: height as i64 },
            min: pos,
            max: (pos.0 + width, pos.1 + height),
        }
    }
}

/// Per-character metrics, immutable once created and cheap to copy.
#[derive(Clone, Copy, Debug, PartialEq)]
pub struct GlyphInfo {
    /// Identifier of the glyph inside its font.
    pub id: u32,
    /// Horizontal advance, in whole device pixels (pixel-snapped).
    pub advance_width: u32,
    /// Texture coordinates; `None` for glyphs with no visible pixels,
    /// such as a space.
    pub uv_rect: Option<UvRect>,
}

} // verus!
