//! Glyph atlas caching and per-frame glyph preparation for GPU text rendering.

mod custom_glyph;
mod error;
mod glyph;
mod external;
mod recently_used;
mod text_atlas;
mod text_render;

pub use custom_glyph::{ContentType, RasterizedCustomGlyph};
pub use glyph::{
    CustomGlyphCacheKey, GlyphDetails, GlyphImageInfo, GlyphonCacheKey, GpuCacheStatus,
    SubpixelBin, TextCacheKey,
};
pub use recently_used::RecentlyUsedMap;
pub use error::{PrepareError, RenderError};
pub use text_atlas::{
    ColorMode, Entry, InnerAtlas, InsertedGlyph, Kind, TextAtlas, INITIAL_SIZE, MAX_PLANE_SIZE,
};
pub use text_render::{
    clip_rect, glyph_vertex, next_copy_buffer_size, vertex_buffer_size_for, visible_bounds,
    ClippedRect, GlyphPlacement, GlyphToRender, TextColorConversion, TextRenderer,
};

use vstd::prelude::*;

verus! {

/// The screen resolution to use when rendering text.
#[derive(Clone, Copy, Debug, Eq, PartialEq, Structural)]
pub struct Resolution {
    /// The width of the screen in pixels.
    pub width: u32,
    /// The height of the screen in pixels.
    pub height: u32,
}

/// Controls the visible area of the text. Any text outside of the visible area will be clipped.
#[derive(Clone, Copy, Debug, Eq, PartialEq, Structural)]
pub struct TextBounds {
    /// The position of the left edge of the visible area.
    pub left: i32,
    /// The position of the top edge of the visible area.
    pub top: i32,
    /// The position of the right edge of the visible area.
    pub right: i32,
    /// The position of the bottom edge of the visible area.
    pub bottom: i32,
}

/// The default visible area doesn't clip any text.
impl Default for TextBounds {
    fn default() -> (r: Self)
        ensures
            r == (TextBounds { left: i32::MIN, top: i32::MIN, right: i32::MAX, bottom: i32::MAX }),
    {
        TextBounds { left: i32::MIN, top: i32::MIN, right: i32::MAX, bottom: i32::MAX }
    }
}

/// A unique identifier for a given source of icon data.
#[derive(Clone, Copy, Debug, PartialEq, Eq, PartialOrd, Ord, Hash, Structural)]
pub struct IconSourceID(pub u16);

} // verus!
