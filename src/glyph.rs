use crate::custom_glyph::ContentType;
use etagere::AllocId;
use vstd::prelude::*;

verus! {

/// The fractional pixel offset of a glyph's origin, in quarter-pixel buckets.
#[derive(Debug, Clone, Copy, PartialEq, Eq, Hash, Structural)]
pub enum SubpixelBin {
    Zero,
    One,
    Two,
    Three,
}

/// Identifies one rasterized bitmap of a shaped-text glyph.
#[derive(Debug, Clone, Copy, PartialEq, Eq, Hash, Structural)]
pub struct TextCacheKey {
    /// The font the glyph comes from.
    pub font_id: u64,
    /// The glyph within the font.
    pub glyph_id: u16,
    /// The font size, as the bits of its floating-point value.
    pub font_size_bits: u32,
    /// Binning of the fractional X offset.
    pub x_bin: SubpixelBin,
    /// Binning of the fractional Y offset.
    pub y_bin: SubpixelBin,
    /// Rendering flags.
    pub flags: u32,
}

/// Identifies one rasterized bitmap of a custom glyph.
#[derive(Debug, Clone, Copy, PartialEq, Eq, Hash, Structural)]
pub struct CustomGlyphCacheKey {
    /// The custom glyph's identifier.
    pub glyph_id: u16,
    /// Glyph width in physical pixels.
    pub width: u16,
    /// Glyph height in physical pixels.
    pub height: u16,
    /// Binning of the fractional X offset.
    pub x_bin: SubpixelBin,
    /// Binning of the fractional Y offset.
    pub y_bin: SubpixelBin,
}

/// The key of a cached glyph bitmap: two glyphs with the same key look the same.
#[derive(Debug, Clone, Copy, PartialEq, Eq, Hash, Structural)]
pub enum GlyphonCacheKey {
    Text(TextCacheKey),
    Custom(CustomGlyphCacheKey),
}

/// Where a cached glyph's bitmap lives.
#[derive(Debug, Clone, Copy)]
pub enum GpuCacheStatus {
    /// At `(x, y)` in the texture of the plane for `content_type`.
    InAtlas { x: u16, y: u16, content_type: ContentType },
    /// Nothing to draw (an empty bitmap, such as whitespace).
    SkipRasterization,
}

/// What the cache knows of one glyph.
#[derive(Debug, Clone, Copy)]
pub struct GlyphDetails {
    pub width: u16,
    pub height: u16,
    pub gpu_cache: GpuCacheStatus,
    /// The packer allocation holding the bitmap, if it is in the atlas.
    pub atlas_id: Option<AllocId>,
    pub top: i16,
    pub left: i16,
}

/// A rectangle `(x, y, width, height)`.
pub type Rect = (int, int, int, int);

/// Two rectangles share no pixel.
pub open spec fn rects_disjoint(a: Rect, b: Rect) -> bool {
    a.0 + a.2 <= b.0 || b.0 + b.2 <= a.0 || a.1 + a.3 <= b.1 || b.1 + b.3 <= a.1
}

/// The size and placement of a freshly rasterized glyph bitmap.
#[derive(Debug, Clone, Copy, PartialEq, Eq, Structural)]
pub struct GlyphImageInfo {
    pub content_type: ContentType,
    pub top: i16,
    pub left: i16,
    pub width: u16,
    pub height: u16,
}

} // verus!
