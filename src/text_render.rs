use crate::custom_glyph::ContentType;
use crate::error::{PrepareError, RenderError};
use crate::glyph::{GlyphDetails, GlyphImageInfo, GlyphonCacheKey, GpuCacheStatus};
use crate::text_atlas::{insertion, lookup, promoted, ColorMode, InsertedGlyph, TextAtlas};
use crate::{Resolution, TextBounds};
use vstd::prelude::*;

verus! {

/// Whether the shader converts a glyph's color from sRGB to linear.
#[derive(Debug, Clone, Copy, PartialEq, Eq, Structural)]
pub enum TextColorConversion {
    NoConversion,
    ConvertToLinear,
}

/// One glyph quad to draw: where on screen, its size, where in the atlas, and how to color it.
#[derive(Debug, Clone, Copy, PartialEq, Eq)]
pub struct GlyphToRender {
    pub pos: [i32; 2],
    pub dim: [u16; 2],
    pub uv: [u16; 2],
    pub color: u32,
    /// The content type (0 for color, 1 for mask) and the color conversion (0 for none,
    /// 1 for sRGB to linear).
    pub content_type_with_srgb: [u16; 2],
    /// The metadata the glyph was placed with, from which its depth is computed.
    pub metadata: usize,
}

/// The part of a rectangle that lies inside a visible area, and where that part starts
/// in the atlas.
#[derive(Debug, Clone, Copy, PartialEq, Eq, Structural)]
pub struct ClippedRect {
    pub x: i32,
    pub y: i32,
    pub width: u16,
    pub height: u16,
    pub atlas_x: u16,
    pub atlas_y: u16,
}

pub open spec fn min_int(a: int, b: int) -> int {
    if a < b {
        a
    } else {
        b
    }
}

pub open spec fn max_int(a: int, b: int) -> int {
    if a > b {
        a
    } else {
        b
    }
}

/// A `width` by `height` rectangle at `(x, y)` overlaps the area: they share at least
/// one pixel.
pub open spec fn overlaps(x: int, y: int, width: int, height: int, bounds: TextBounds) -> bool {
    &&& width > 0
    &&& height > 0
    &&& bounds.left < bounds.right
    &&& bounds.top < bounds.bottom
    &&& x < bounds.right
    &&& x + width > bounds.left
    &&& y < bounds.bottom
    &&& y + height > bounds.top
}

/// The part of the rectangle inside the area, with the atlas corner shifted by what was
/// cut from the left and from the top.
pub open spec fn spec_clip(
    x: int,
    y: int,
    width: int,
    height: int,
    atlas_x: int,
    atlas_y: int,
    bounds: TextBounds,
) -> Option<(int, int, int, int, int, int)> {
    if overlaps(x, y, width, height, bounds) {
        let cx = max_int(x, bounds.left as int);
        let cy = max_int(y, bounds.top as int);
        Some(
            (
                cx,
                cy,
                min_int(x + width, bounds.right as int) - cx,
                min_int(y + height, bounds.bottom as int) - cy,
                atlas_x + (cx - x),
                atlas_y + (cy - y),
            ),
        )
    } else {
        None
    }
}

/// Clips a `width` by `height` rectangle at `(x, y)`, whose pixels start at
/// `(atlas_x, atlas_y)` in the atlas, to the visible area `bounds`. Nothing is left of a
/// rectangle that does not overlap the area (one that only shares an edge with it
/// included); of one that does, exactly the overlapping part, with the atlas corner
/// moved along.
pub fn clip_rect(
    x: i64,
    y: i64,
    width: u16,
    height: u16,
    atlas_x: u16,
    atlas_y: u16,
    bounds: TextBounds,
) -> (r: Option<ClippedRect>)
    requires
        atlas_x + width <= u16::MAX,
        atlas_y + height <= u16::MAX,
        -0x100_0000_0000 <= x <= 0x100_0000_0000,
        -0x100_0000_0000 <= y <= 0x100_0000_0000,
    ensures
        match spec_clip(x as int, y as int, width as int, height as int, atlas_x as int, atlas_y as int, bounds) {
            Some((cx, cy, w, h, ax, ay)) => r == Some(
                ClippedRect {
                    x: cx as i32,
                    y: cy as i32,
                    width: w as u16,
                    height: h as u16,
                    atlas_x: ax as u16,
                    atlas_y: ay as u16,
                },
            ) && 0 < w <= width && 0 < h <= height,
            None => r is None,
        },
{
    let min_x = bounds.left as i64;
    let min_y = bounds.top as i64;
    let max_x_bound = bounds.right as i64;
    let max_y_bound = bounds.bottom as i64;
    if width == 0 || height == 0 || min_x >= max_x_bound || min_y >= max_y_bound {
        return None;
    }
    // Starts at or beyond the right edge, or ends at or before the left edge
    let max_x = x + width as i64;
    if x >= max_x_bound || max_x <= min_x {
        return None;
    }
    // Starts at or beyond the bottom edge, or ends at or before the top edge
    let max_y = y + height as i64;
    if y >= max_y_bound || max_y <= min_y {
        return None;
    }
    let mut cx = x;
    let mut w = width as i64;
    let mut ax = atlas_x as i64;
    // Clip the left edge
    if cx < min_x {
        let right_shift = min_x - cx;
        cx = min_x;
        w = max_x - min_x;
        ax = ax + right_shift;
    }
    // Clip the right edge
    if cx + w > max_x_bound {
        w = max_x_bound - cx;
    }
    let mut cy = y;
    let mut h = height as i64;
    let mut ay = atlas_y as i64;
    // Clip the top edge
    if cy < min_y {
        let bottom_shift = min_y - cy;
        cy = min_y;
        h = max_y - min_y;
        ay = ay + bottom_shift;
    }
    // Clip the bottom edge
    if cy + h > max_y_bound {
        h = max_y_bound - cy;
    }
    assert(0 < w <= width && 0 < h <= height);
    assert(ax == atlas_x + (cx - x) && ay == atlas_y + (cy - y));
    Some(
        ClippedRect {
            x: cx as i32,
            y: cy as i32,
            width: w as u16,
            height: h as u16,
            atlas_x: ax as u16,
            atlas_y: ay as u16,
        },
    )
}


/// The visible area of a text area: its bounds cut to the screen.
pub open spec fn spec_visible_bounds(bounds: TextBounds, resolution: Resolution) -> TextBounds {
    TextBounds {
        left: max_int(bounds.left as int, 0) as i32,
        top: max_int(bounds.top as int, 0) as i32,
        right: min_int(bounds.right as int, min_int(resolution.width as int, i32::MAX as int)) as i32,
        bottom: min_int(bounds.bottom as int, min_int(resolution.height as int, i32::MAX as int)) as i32,
    }
}

/// Cuts a text area's bounds to the screen.
pub fn visible_bounds(bounds: TextBounds, resolution: Resolution) -> (r: TextBounds)
    ensures
        r == spec_visible_bounds(bounds, resolution),
{
    let width = if resolution.width > i32::MAX as u32 {
        i32::MAX
    } else {
        resolution.width as i32
    };
    let height = if resolution.height > i32::MAX as u32 {
        i32::MAX
    } else {
        resolution.height as i32
    };
    TextBounds {
        left: if bounds.left > 0 {
            bounds.left
        } else {
            0
        },
        top: if bounds.top > 0 {
            bounds.top
        } else {
            0
        },
        right: if bounds.right < width {
            bounds.right
        } else {
            width
        },
        bottom: if bounds.bottom < height {
            bounds.bottom
        } else {
            height
        },
    }
}

/// A glyph placed on the screen, ready to be looked up in the atlas.
#[derive(Debug, Clone, Copy, PartialEq, Eq, Structural)]
pub struct GlyphPlacement {
    pub cache_key: GlyphonCacheKey,
    /// The physical position of the glyph's origin.
    pub x: i32,
    pub y: i32,
    /// The baseline of the glyph's line, in physical pixels.
    pub line_y: i32,
    /// The color, as packed rgba.
    pub color: u32,
    pub metadata: usize,
}

pub open spec fn content_type_code(content_type: ContentType) -> u16 {
    match content_type {
        ContentType::Color => 0,
        ContentType::Mask => 1,
    }
}

pub open spec fn conversion_code(color_mode: ColorMode) -> u16 {
    match color_mode {
        ColorMode::Accurate => 1,
        ColorMode::Web => 0,
    }
}

/// The quad drawn for a cached glyph placed at `glyph`, clipped to `bounds`; none for a
/// glyph with nothing to draw or outside the bounds.
pub open spec fn spec_glyph_vertex(
    details: GlyphDetails,
    glyph: GlyphPlacement,
    bounds: TextBounds,
    color_mode: ColorMode,
) -> Option<GlyphToRender> {
    match details.gpu_cache {
        GpuCacheStatus::InAtlas { x: atlas_x, y: atlas_y, content_type } => {
            let x = glyph.x + details.left;
            let y = glyph.line_y + glyph.y - details.top;
            match spec_clip(x, y, details.width as int, details.height as int, atlas_x as int, atlas_y as int, bounds) {
                Some((cx, cy, w, h, ax, ay)) => Some(
                    GlyphToRender {
                        pos: [cx as i32, cy as i32],
                        dim: [w as u16, h as u16],
                        uv: [ax as u16, ay as u16],
                        color: glyph.color,
                        content_type_with_srgb: [content_type_code(content_type), conversion_code(color_mode)],
                        metadata: glyph.metadata,
                    },
                ),
                None => None,
            }
        },
        GpuCacheStatus::SkipRasterization => None,
    }
}

/// The quad drawn for a cached glyph (see `spec_glyph_vertex`).
pub fn glyph_vertex(
    details: GlyphDetails,
    glyph: &GlyphPlacement,
    bounds: TextBounds,
    color_mode: ColorMode,
) -> (r: Option<GlyphToRender>)
    requires
        details.gpu_cache matches GpuCacheStatus::InAtlas { x, y, .. } ==> x + details.width
            <= u16::MAX && y + details.height <= u16::MAX,
    ensures
        r == spec_glyph_vertex(details, *glyph, bounds, color_mode),
{
    let (atlas_x, atlas_y, content_type) = match details.gpu_cache {
        GpuCacheStatus::InAtlas { x, y, content_type } => (x, y, content_type),
        GpuCacheStatus::SkipRasterization => return None,
    };
    let x = glyph.x as i64 + details.left as i64;
    let y = glyph.line_y as i64 + glyph.y as i64 - details.top as i64;
    let clipped = match clip_rect(x, y, details.width, details.height, atlas_x, atlas_y, bounds) {
        Some(c) => c,
        None => return None,
    };
    let content_code: u16 = match content_type {
        ContentType::Color => 0,
        ContentType::Mask => 1,
    };
    let conversion = match color_mode {
        ColorMode::Accurate => TextColorConversion::ConvertToLinear,
        ColorMode::Web => TextColorConversion::NoConversion,
    };
    let conversion_code: u16 = match conversion {
        TextColorConversion::NoConversion => 0,
        TextColorConversion::ConvertToLinear => 1,
    };
    Some(
        GlyphToRender {
            pos: [clipped.x, clipped.y],
            dim: [clipped.width, clipped.height],
            uv: [clipped.atlas_x, clipped.atlas_y],
            color: glyph.color,
            content_type_with_srgb: [content_code, conversion_code],
            metadata: glyph.metadata,
        },
    )
}


/// `s` with `o` appended when there is one.
pub open spec fn push_opt<T>(s: Seq<T>, o: Option<T>) -> Seq<T> {
    match o {
        Some(v) => s.push(v),
        None => s,
    }
}

/// What `render` decides for a prepared batch: nothing to draw, a stale batch, or the
/// number of glyph quads to draw.
pub open spec fn spec_instances_to_draw(
    vertices: Seq<GlyphToRender>,
    keys: Seq<GlyphonCacheKey>,
    prepared: Resolution,
    atlas: TextAtlas,
    resolution: Resolution,
) -> Result<usize, RenderError> {
    if vertices.len() == 0 {
        Ok(0)
    } else if resolution != prepared {
        Err(RenderError::ScreenResolutionChanged)
    } else if exists|i: int| 0 <= i < keys.len() && (#[trigger] atlas.spec_glyph(keys[i])) is None {
        Err(RenderError::RemovedFromAtlas)
    } else {
        Ok(vertices.len() as usize)
    }
}

/// Turns text areas into glyph quads: the quads of the last prepared batch, the keys of
/// the glyphs they draw, and the resolution they were prepared for.
pub struct TextRenderer {
    glyph_vertices: Vec<GlyphToRender>,
    glyph_keys: Vec<GlyphonCacheKey>,
    prepared_resolution: Resolution,
}

impl TextRenderer {
    pub closed spec fn vertices(&self) -> Seq<GlyphToRender> {
        self.glyph_vertices@
    }

    pub closed spec fn keys(&self) -> Seq<GlyphonCacheKey> {
        self.glyph_keys@
    }

    pub closed spec fn spec_resolution(&self) -> Resolution {
        self.prepared_resolution
    }

    /// A renderer with nothing prepared.
    pub fn new() -> (r: Self)
        ensures
            r.vertices().len() == 0,
            r.keys().len() == 0,
    {
        TextRenderer {
            glyph_vertices: Vec::new(),
            glyph_keys: Vec::new(),
            prepared_resolution: Resolution { width: 0, height: 0 },
        }
    }

    /// Starts a batch for a screen of the given resolution, dropping the previous one.
    pub fn begin_prepare(&mut self, resolution: Resolution)
        ensures
            final(self).vertices().len() == 0,
            final(self).keys().len() == 0,
            final(self).spec_resolution() == resolution,
    {
        self.glyph_vertices.clear();
        self.glyph_keys.clear();
        self.prepared_resolution = resolution;
    }

    fn push_vertex(&mut self, vertex: Option<GlyphToRender>, key: GlyphonCacheKey)
        ensures
            final(self).vertices() == push_opt(old(self).vertices(), vertex),
            final(self).keys() == push_opt(old(self).keys(), if vertex is Some { Some(key) } else { None }),
            final(self).spec_resolution() == old(self).spec_resolution(),
    {
        if let Some(v) = vertex {
            self.glyph_vertices.push(v);
            self.glyph_keys.push(key);
        }
    }

    /// Prepares a glyph if the atlas already holds it: the glyph becomes the most
    /// recently used of its plane and in use by this frame, and its quad, clipped to
    /// `bounds`, is added to the batch. Returns whether the glyph was cached; if not,
    /// nothing changes and the caller rasterizes it for `prepare_rasterized`.
    pub fn prepare_cached(&mut self, atlas: &mut TextAtlas, glyph: &GlyphPlacement, bounds: TextBounds) -> (r: bool)
        requires
            old(atlas).wf(),
        ensures
            final(atlas).wf(),
            r == old(atlas).spec_glyph(glyph.cache_key) is Some,
            r ==> promoted(*old(atlas), *final(atlas), glyph.cache_key),
            r ==> final(self).vertices() == push_opt(
                old(self).vertices(),
                spec_glyph_vertex(
                    old(atlas).spec_glyph(glyph.cache_key).unwrap(),
                    *glyph,
                    bounds,
                    old(atlas).spec_color_mode(),
                ),
            ),
            !r ==> *final(self) == *old(self) && *final(atlas) == *old(atlas),
            final(self).spec_resolution() == old(self).spec_resolution(),
    {
        let ghost before = *atlas;
        let details = match atlas.promote_cached(glyph.cache_key) {
            Some(d) => d,
            None => return false,
        };
        proof {
            if lookup(before.mask().entries(), glyph.cache_key) is Some {
                before.mask().lemma_lookup_fits(glyph.cache_key);
            } else {
                before.color().lemma_lookup_fits(glyph.cache_key);
            }
        }
        let vertex = glyph_vertex(details, glyph, bounds, atlas.color_mode());
        self.push_vertex(vertex, glyph.cache_key);
        true
    }

    /// Prepares a glyph that the atlas does not hold yet, from the size and placement of
    /// its freshly rasterized image: the glyph is cached (see `TextAtlas::insert_glyph`)
    /// and its quad, clipped to `bounds`, is added to the batch. The caller uploads the
    /// image to the place returned, and uploads the whole plane again if it grew. When the
    /// atlas is full the whole batch is dropped: nothing of it is drawn.
    pub fn prepare_rasterized(
        &mut self,
        atlas: &mut TextAtlas,
        glyph: &GlyphPlacement,
        bounds: TextBounds,
        image: GlyphImageInfo,
    ) -> (r: Result<InsertedGlyph, PrepareError>)
        requires
            old(atlas).wf(),
            old(atlas).spec_glyph(glyph.cache_key) is None,
        ensures
            final(atlas).wf(),
            final(self).spec_resolution() == old(self).spec_resolution(),
            insertion(*old(atlas), *final(atlas), glyph.cache_key, image, r),
            match r {
                Ok(ins) => {
                    &&& final(self).vertices() == push_opt(
                        old(self).vertices(),
                        spec_glyph_vertex(ins.details, *glyph, bounds, old(atlas).spec_color_mode()),
                    )
                },
                Err(e) => {
                    &&& final(self).vertices().len() == 0
                    &&& final(self).keys().len() == 0
                },
            },
    {
        let inserted = match atlas.insert_glyph(glyph.cache_key, image) {
            Ok(ins) => ins,
            Err(e) => {
                // A failed batch is not drawn, not even in part.
                self.glyph_vertices.clear();
                self.glyph_keys.clear();
                return Err(e);
            },
        };
        proof {
            if lookup(atlas.mask().entries(), glyph.cache_key) is Some {
                atlas.mask().lemma_lookup_fits(glyph.cache_key);
            } else {
                atlas.color().lemma_lookup_fits(glyph.cache_key);
            }
        }
        let vertex = glyph_vertex(inserted.details, glyph, bounds, atlas.color_mode());
        self.push_vertex(vertex, glyph.cache_key);
        Ok(inserted)
    }

    /// The quads of the prepared batch.
    pub fn vertices_to_render(&self) -> (r: &Vec<GlyphToRender>)
        ensures
            r@ == self.vertices(),
    {
        &self.glyph_vertices
    }

    /// Decides whether the prepared batch can be drawn against `atlas` on a screen of
    /// `resolution` (see `spec_instances_to_draw`): with nothing prepared there is nothing to
    /// draw; a batch prepared for another resolution, or one of whose glyphs has left the
    /// atlas, is refused; otherwise the number of quads to draw.
    pub fn instances_to_draw(&self, atlas: &TextAtlas, resolution: Resolution) -> (r: Result<usize, RenderError>)
        requires
            atlas.wf(),
        ensures
            r == spec_instances_to_draw(self.vertices(), self.keys(), self.spec_resolution(), *atlas, resolution),
    {
        if self.glyph_vertices.len() == 0 {
            return Ok(0);
        }
        if resolution != self.prepared_resolution {
            return Err(RenderError::ScreenResolutionChanged);
        }
        let mut i: usize = 0;
        while i < self.glyph_keys.len()
            invariant
                i <= self.glyph_keys@.len(),
                atlas.wf(),
                self.vertices().len() > 0,
                resolution == self.spec_resolution(),
                forall|j: int| 0 <= j < i ==> (#[trigger] atlas.spec_glyph(self.glyph_keys@[j])) is Some,
            decreases self.glyph_keys@.len() - i,
        {
            if atlas.glyph(&self.glyph_keys[i]).is_none() {
                assert(0 <= i < self.keys().len() && atlas.spec_glyph(self.keys()[i as int]) is None);
                assert(self.vertices().len() > 0 && resolution == self.spec_resolution());
                return Err(RenderError::RemovedFromAtlas);
            }
            i += 1;
        }
        Ok(self.glyph_vertices.len())
    }
}

/// A batch prepared for one resolution is refused, not drawn, once the screen has
/// another resolution, whatever the atlas holds.
pub proof fn lemma_resolution_change_invalidates(renderer: TextRenderer, atlas: TextAtlas, resolution: Resolution)
    requires
        renderer.vertices().len() > 0,
        resolution != renderer.spec_resolution(),
    ensures
        spec_instances_to_draw(renderer.vertices(), renderer.keys(), renderer.spec_resolution(), atlas, resolution)
            == Err::<usize, RenderError>(RenderError::ScreenResolutionChanged),
{
}


/// The first of `p`, `2p`, `4p`, ... that is at least `n`: from `p == 1`, the smallest
/// power of two that is at least `n`.
pub open spec fn next_power_of_two_from(p: nat, n: nat) -> nat
    decreases (if p < n {
        n - p
    } else {
        0
    }),
{
    if p >= n || p == 0 {
        p
    } else {
        next_power_of_two_from(2 * p, n)
    }
}

/// `n` rounded up to a multiple of `alignment`.
pub open spec fn round_up(n: nat, alignment: nat) -> nat {
    if alignment == 0 {
        n
    } else {
        ((n + alignment - 1) / alignment as int * alignment) as nat
    }
}

/// The size of a buffer that holds `size` bytes: the next power of two, rounded up to
/// the copy alignment, and at least one alignment unit.
pub open spec fn spec_next_copy_buffer_size(size: nat, alignment: nat) -> nat {
    let rounded = round_up(next_power_of_two_from(1, size), alignment);
    if rounded < alignment {
        alignment
    } else {
        rounded
    }
}

/// The size of a buffer that holds `size` bytes (see `spec_next_copy_buffer_size`).
pub fn next_copy_buffer_size(size: u64, alignment: u64) -> (r: u64)
    requires
        size <= 0x4000_0000_0000_0000,
        0 < alignment <= 0x4000_0000_0000_0000,
    ensures
        r == spec_next_copy_buffer_size(size as nat, alignment as nat),
        r >= size,
        r >= alignment,
        r % alignment == 0,
{
    let mut p: u64 = 1;
    while p < size
        invariant
            1 <= p <= 0x8000_0000_0000_0000,
            size <= 0x4000_0000_0000_0000,
            next_power_of_two_from(p as nat, size as nat) == next_power_of_two_from(1, size as nat),
        decreases 0x8000_0000_0000_0000 - p,
    {
        p = p * 2;
    }
    assert(next_power_of_two_from(p as nat, size as nat) == p);
    let q = (p + (alignment - 1)) / alignment;
    proof {
        let pi = p as int;
        let ai = alignment as int;
        let qi = q as int;
        assert(qi * ai <= pi + ai - 1 && qi * ai >= pi && (qi * ai) % ai == 0 && ai % ai == 0)
            by (nonlinear_arith)
            requires
                qi == (pi + (ai - 1)) / ai,
                ai > 0,
                pi >= 0,
        ;
    }
    let rounded = q * alignment;
    if rounded < alignment {
        alignment
    } else {
        rounded
    }
}

/// The size of the vertex buffer after uploading `needed` bytes to one of `current`
/// bytes: the same buffer when they fit, else a new one of `next_copy_buffer_size`.
/// The buffer never shrinks.
pub fn vertex_buffer_size_for(current: u64, needed: u64, alignment: u64) -> (r: u64)
    requires
        needed <= 0x4000_0000_0000_0000,
        0 < alignment <= 0x4000_0000_0000_0000,
    ensures
        current >= needed ==> r == current,
        current < needed ==> r == spec_next_copy_buffer_size(needed as nat, alignment as nat),
        r >= needed,
        r >= current,
{
    if current >= needed {
        current
    } else {
        next_copy_buffer_size(needed, alignment)
    }
}

} // verus!
