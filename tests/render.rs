use glyphon::{
    clip_rect, next_copy_buffer_size, vertex_buffer_size_for, visible_bounds, ClippedRect,
    ContentType, CustomGlyphCacheKey, GlyphImageInfo, GlyphPlacement, GlyphonCacheKey,
    PrepareError, RasterizedCustomGlyph, RenderError, Resolution, SubpixelBin, TextAtlas,
    TextBounds, TextRenderer,
};

fn key(id: u16) -> GlyphonCacheKey {
    GlyphonCacheKey::Custom(CustomGlyphCacheKey {
        glyph_id: id,
        width: 20,
        height: 20,
        x_bin: SubpixelBin::Zero,
        y_bin: SubpixelBin::Zero,
    })
}

fn placement(id: u16, x: i32, y: i32) -> GlyphPlacement {
    GlyphPlacement { cache_key: key(id), x, y, line_y: 0, color: 0xff00_00ff, metadata: 3 }
}

fn image() -> GlyphImageInfo {
    GlyphImageInfo { content_type: ContentType::Mask, top: 0, left: 0, width: 20, height: 20 }
}

#[test]
fn partial_overlap_keeps_exactly_the_overlap() {
    let bounds = TextBounds { left: 0, top: 0, right: 15, bottom: 100 };
    let clipped = clip_rect(10, 10, 20, 20, 40, 50, bounds).unwrap();
    assert_eq!(
        clipped,
        ClippedRect { x: 10, y: 10, width: 5, height: 20, atlas_x: 40, atlas_y: 50 }
    );
}

#[test]
fn clipping_on_the_left_and_top_shifts_the_atlas_corner() {
    let bounds = TextBounds { left: 15, top: 12, right: 100, bottom: 100 };
    let clipped = clip_rect(10, 10, 20, 20, 40, 50, bounds).unwrap();
    assert_eq!(
        clipped,
        ClippedRect { x: 15, y: 12, width: 15, height: 18, atlas_x: 45, atlas_y: 52 }
    );
}

#[test]
fn glyph_outside_bounds_emits_nothing() {
    let bounds = TextBounds { left: 0, top: 0, right: 5, bottom: 5 };
    assert_eq!(clip_rect(10, 10, 20, 20, 0, 0, bounds), None);
    assert_eq!(clip_rect(-30, 0, 20, 20, 0, 0, bounds), None);
    let empty = TextBounds { left: 10, top: 0, right: 5, bottom: 5 };
    assert_eq!(clip_rect(0, 0, 20, 20, 0, 0, empty), None);
}

#[test]
fn glyph_touching_an_edge_emits_nothing() {
    let bounds = TextBounds { left: 10, top: 10, right: 50, bottom: 50 };
    // right edge on the left bound, left edge on the right bound
    assert_eq!(clip_rect(0, 20, 10, 10, 0, 0, bounds), None);
    assert_eq!(clip_rect(50, 20, 10, 10, 0, 0, bounds), None);
    // bottom edge on the top bound, top edge on the bottom bound
    assert_eq!(clip_rect(20, 0, 10, 10, 0, 0, bounds), None);
    assert_eq!(clip_rect(20, 50, 10, 10, 0, 0, bounds), None);
    // one pixel inside
    assert_eq!(
        clip_rect(1, 20, 10, 10, 0, 0, bounds),
        Some(ClippedRect { x: 10, y: 20, width: 1, height: 10, atlas_x: 9, atlas_y: 0 })
    );
}

#[test]
fn bounds_are_cut_to_the_screen() {
    let res = Resolution { width: 800, height: 600 };
    assert_eq!(
        visible_bounds(TextBounds::default(), res),
        TextBounds { left: 0, top: 0, right: 800, bottom: 600 }
    );
    let b = TextBounds { left: 10, top: -5, right: 300, bottom: 700 };
    assert_eq!(visible_bounds(b, res), TextBounds { left: 10, top: 0, right: 300, bottom: 600 });
}

#[test]
fn buffer_sizes_round_up() {
    assert_eq!(next_copy_buffer_size(4096, 4), 4096);
    assert_eq!(next_copy_buffer_size(4097, 4), 8192);
    assert_eq!(next_copy_buffer_size(0, 4), 4);
    assert_eq!(next_copy_buffer_size(3, 4), 4);
    assert_eq!(next_copy_buffer_size(5, 16), 16);
    assert_eq!(vertex_buffer_size_for(8192, 100, 4), 8192);
    assert_eq!(vertex_buffer_size_for(64, 100, 4), 128);
}

#[test]
fn prepare_then_render_and_resolution_change_is_refused() {
    let mut atlas = TextAtlas::new(1024);
    let mut renderer = TextRenderer::new();
    let r1 = Resolution { width: 800, height: 600 };
    let bounds = visible_bounds(TextBounds::default(), r1);
    renderer.begin_prepare(r1);
    let g = placement(1, 10, 10);
    assert!(!renderer.prepare_cached(&mut atlas, &g, bounds));
    let ins = renderer.prepare_rasterized(&mut atlas, &g, bounds, image()).unwrap();
    assert!(!ins.plane_grew);
    let v = renderer.vertices_to_render()[0];
    assert_eq!(v.pos, [10, 10]);
    assert_eq!(v.dim, [20, 20]);
    assert_eq!(v.color, 0xff00_00ff);
    assert_eq!(v.content_type_with_srgb, [1, 1]);
    assert_eq!(v.metadata, 3);
    assert_eq!(renderer.instances_to_draw(&atlas, r1), Ok(1));
    assert_eq!(renderer.instances_to_draw(&atlas, r1), Ok(1));
    let r2 = Resolution { width: 1024, height: 768 };
    assert_eq!(renderer.instances_to_draw(&atlas, r2), Err(RenderError::ScreenResolutionChanged));
}

#[test]
fn render_with_nothing_prepared_draws_nothing() {
    let atlas = TextAtlas::new(1024);
    let renderer = TextRenderer::new();
    assert_eq!(renderer.instances_to_draw(&atlas, Resolution { width: 1, height: 1 }), Ok(0));
}

#[test]
fn glyph_evicted_by_another_batch_is_refused() {
    let mut atlas = TextAtlas::new(32);
    let res = Resolution { width: 100, height: 100 };
    let bounds = visible_bounds(TextBounds::default(), res);
    let mut first = TextRenderer::new();
    first.begin_prepare(res);
    let g = placement(1, 0, 0);
    first.prepare_rasterized(&mut atlas, &g, bounds, image()).unwrap();
    atlas.trim();
    let mut second = TextRenderer::new();
    second.begin_prepare(res);
    let h = placement(2, 0, 0);
    second.prepare_rasterized(&mut atlas, &h, bounds, image()).unwrap();
    assert!(atlas.glyph(&key(1)).is_none());
    assert_eq!(first.instances_to_draw(&atlas, res), Err(RenderError::RemovedFromAtlas));
    assert_eq!(second.instances_to_draw(&atlas, res), Ok(1));
}

#[test]
fn second_glyph_that_does_not_fit_fails_the_batch() {
    let mut atlas = TextAtlas::new(32);
    let res = Resolution { width: 100, height: 100 };
    let bounds = visible_bounds(TextBounds::default(), res);
    let mut renderer = TextRenderer::new();
    renderer.begin_prepare(res);
    renderer.prepare_rasterized(&mut atlas, &placement(1, 0, 0), bounds, image()).unwrap();
    assert_eq!(renderer.vertices_to_render().len(), 1);
    let r = renderer.prepare_rasterized(&mut atlas, &placement(2, 0, 0), bounds, image());
    assert_eq!(r.err(), Some(PrepareError::AtlasFull));
    // the glyph placed before the failure stays cached, the failed one does not
    assert!(atlas.glyph(&key(1)).is_some());
    assert!(atlas.glyph(&key(2)).is_none());
    // nothing of the failed batch is drawn
    assert_eq!(renderer.vertices_to_render().len(), 0);
    assert_eq!(renderer.instances_to_draw(&atlas, res), Ok(0));
}

#[test]
fn glyph_outside_the_screen_is_cached_but_not_drawn() {
    let mut atlas = TextAtlas::new(1024);
    let res = Resolution { width: 100, height: 100 };
    let bounds = visible_bounds(TextBounds::default(), res);
    let mut renderer = TextRenderer::new();
    renderer.begin_prepare(res);
    renderer.prepare_rasterized(&mut atlas, &placement(1, 500, 500), bounds, image()).unwrap();
    assert_eq!(renderer.vertices_to_render().len(), 0);
    assert!(atlas.glyph(&key(1)).is_some());
}

#[test]
fn content_types_and_custom_output_validation() {
    assert_eq!(ContentType::Color.bytes_per_pixel(), 4);
    assert_eq!(ContentType::Mask.bytes_per_pixel(), 1);
    let good = RasterizedCustomGlyph { data: vec![0; 2 * 3 * 4], content_type: ContentType::Color };
    assert!(good.validate(2, 3, None));
    assert!(good.validate(2, 3, Some(ContentType::Color)));
    assert!(!good.validate(2, 3, Some(ContentType::Mask)));
    assert!(!good.validate(3, 3, None));
    let mask = RasterizedCustomGlyph { data: vec![0; 6], content_type: ContentType::Mask };
    assert!(mask.validate(2, 3, Some(ContentType::Mask)));
}

#[test]
fn default_bounds_clip_nothing() {
    let b = TextBounds::default();
    assert_eq!(b, TextBounds { left: i32::MIN, top: i32::MIN, right: i32::MAX, bottom: i32::MAX });
}
