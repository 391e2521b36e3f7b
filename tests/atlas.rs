use glyphon::{
    ColorMode, ContentType, CustomGlyphCacheKey, GlyphImageInfo, GlyphonCacheKey, GpuCacheStatus,
    PrepareError, SubpixelBin, TextAtlas, TextCacheKey,
};

fn custom_key(id: u16, size: u16) -> GlyphonCacheKey {
    GlyphonCacheKey::Custom(CustomGlyphCacheKey {
        glyph_id: id,
        width: size,
        height: size,
        x_bin: SubpixelBin::Zero,
        y_bin: SubpixelBin::Zero,
    })
}

fn mask_image(size: u16) -> GlyphImageInfo {
    GlyphImageInfo { content_type: ContentType::Mask, top: 0, left: 0, width: size, height: size }
}

#[test]
fn new_atlas_starts_small_and_empty() {
    let atlas = TextAtlas::new(1024);
    assert_eq!(atlas.color_mode(), ColorMode::Accurate);
    assert_eq!(atlas.mask_atlas().size(), 256);
    assert_eq!(atlas.color_atlas().size(), 256);
    assert_eq!(atlas.mask_atlas().len(), 0);
    assert_eq!(atlas.mask_atlas().num_channels(), 1);
    assert_eq!(atlas.color_atlas().num_channels(), 4);
    let small = TextAtlas::with_color_mode(100, ColorMode::Web);
    assert_eq!(small.mask_atlas().size(), 100);
    assert_eq!(small.color_mode(), ColorMode::Web);
}

#[test]
fn inserted_glyph_is_found_again_without_rasterizing() {
    let mut atlas = TextAtlas::new(1024);
    let key = custom_key(1, 16);
    assert!(atlas.promote_cached(key).is_none());
    let inserted = atlas.insert_glyph(key, mask_image(16)).unwrap();
    assert!(!inserted.plane_grew);
    let first = atlas.glyph(&key).unwrap();
    let second = atlas.promote_cached(key).unwrap();
    let third = atlas.promote_cached(key).unwrap();
    match (first.gpu_cache, second.gpu_cache, third.gpu_cache) {
        (
            GpuCacheStatus::InAtlas { x: x1, y: y1, content_type: c1 },
            GpuCacheStatus::InAtlas { x: x2, y: y2, .. },
            GpuCacheStatus::InAtlas { x: x3, y: y3, .. },
        ) => {
            assert_eq!((x1, y1), (x2, y2));
            assert_eq!((x1, y1), (x3, y3));
            assert_eq!(c1, ContentType::Mask);
        }
        _ => panic!("glyph should be in the atlas"),
    }
    assert_eq!(first.width, 16);
    assert_eq!(atlas.mask_atlas().len(), 1);
    assert!(atlas.mask_atlas().is_in_use(&key));
}

#[test]
fn empty_glyph_is_cached_without_atlas_space() {
    let mut atlas = TextAtlas::new(1024);
    let key = GlyphonCacheKey::Text(TextCacheKey {
        font_id: 7,
        glyph_id: 3,
        font_size_bits: 0x4180_0000,
        x_bin: SubpixelBin::One,
        y_bin: SubpixelBin::Zero,
        flags: 0,
    });
    let image = GlyphImageInfo { content_type: ContentType::Mask, top: 2, left: 1, width: 0, height: 5 };
    let inserted = atlas.insert_glyph(key, image).unwrap();
    assert!(matches!(inserted.details.gpu_cache, GpuCacheStatus::SkipRasterization));
    assert!(inserted.details.atlas_id.is_none());
    assert_eq!(atlas.color_atlas().len(), 1);
    assert_eq!(atlas.mask_atlas().len(), 0);
    assert!(atlas.promote_cached(key).is_some());
}

#[test]
fn glyphs_in_use_are_never_evicted_and_full_atlas_is_reported() {
    // A 64 by 64 plane that may not grow holds four 32 by 32 glyphs.
    let mut atlas = TextAtlas::new(64);
    let mut inserted = 0u16;
    let mut result = Ok(());
    for id in 0..5u16 {
        match atlas.insert_glyph(custom_key(id, 32), mask_image(32)) {
            Ok(_) => inserted += 1,
            Err(e) => {
                result = Err(e);
                break;
            }
        }
    }
    assert_eq!(result, Err(PrepareError::AtlasFull));
    assert!(inserted >= 1);
    for id in 0..inserted {
        assert!(atlas.glyph(&custom_key(id, 32)).is_some());
    }
}

#[test]
fn least_recently_used_glyph_is_evicted_once_frame_ends() {
    let mut atlas = TextAtlas::new(64);
    let a = custom_key(100, 32);
    atlas.insert_glyph(a, mask_image(32)).unwrap();
    assert!(atlas.promote_cached(a).is_some());
    atlas.trim();
    let mut misses = 0;
    let mut id = 0u16;
    // One new glyph per frame: nothing older than the current frame is in use.
    while atlas.glyph(&a).is_some() {
        let _ = atlas.insert_glyph(custom_key(id, 32), mask_image(32));
        atlas.trim();
        id += 1;
        assert!(id < 100);
    }
    // A was the least recently used glyph and is gone: looking it up misses once more.
    if atlas.promote_cached(a).is_none() {
        misses += 1;
        atlas.trim();
        atlas.insert_glyph(a, mask_image(32)).unwrap();
    }
    assert_eq!(misses, 1);
    assert!(atlas.promote_cached(a).is_some());
}

#[test]
fn trim_twice_changes_nothing_more() {
    let mut atlas = TextAtlas::new(256);
    let key = custom_key(9, 8);
    atlas.insert_glyph(key, mask_image(8)).unwrap();
    atlas.trim();
    let after_one = atlas.glyph(&key).unwrap();
    assert!(!atlas.mask_atlas().is_in_use(&key));
    atlas.trim();
    let after_two = atlas.glyph(&key).unwrap();
    assert!(!atlas.mask_atlas().is_in_use(&key));
    assert_eq!(after_one.width, after_two.width);
    assert_eq!(atlas.mask_atlas().len(), 1);
    assert_eq!(atlas.mask_atlas().size(), 256);
}

#[test]
fn growth_keeps_every_glyph_in_place() {
    let mut atlas = TextAtlas::new(1024);
    let mut keys = Vec::new();
    for id in 0..6u16 {
        let key = custom_key(id, 50);
        atlas.insert_glyph(key, mask_image(50)).unwrap();
        keys.push(key);
    }
    let before: Vec<_> = keys.iter().map(|k| atlas.glyph(k).unwrap()).collect();
    assert!(atlas.grow(ContentType::Mask));
    assert_eq!(atlas.mask_atlas().size(), 512);
    for (k, d) in keys.iter().zip(before.iter()) {
        let now = atlas.glyph(k).unwrap();
        match (now.gpu_cache, d.gpu_cache) {
            (GpuCacheStatus::InAtlas { x, y, .. }, GpuCacheStatus::InAtlas { x: x0, y: y0, .. }) => {
                assert_eq!((x, y), (x0, y0));
            }
            _ => panic!("glyph should stay in the atlas"),
        }
    }
    let to_upload = atlas.mask_atlas().glyphs_in_atlas();
    assert_eq!(to_upload.len(), 6);
    assert!(atlas.grow(ContentType::Mask));
    assert_eq!(atlas.mask_atlas().size(), 1024);
    assert!(!atlas.grow(ContentType::Mask));
}

#[test]
fn growing_plane_makes_room() {
    let mut atlas = TextAtlas::new(512);
    let mut grew = false;
    for id in 0..8u16 {
        let ins = atlas.insert_glyph(custom_key(id, 100), mask_image(100)).unwrap();
        grew |= ins.plane_grew;
    }
    assert!(grew);
    assert_eq!(atlas.mask_atlas().size(), 512);
    assert_eq!(atlas.mask_atlas().glyphs_in_atlas().len(), 8);
}

#[test]
fn empty_glyphs_are_skipped_not_evicted() {
    // A 32 by 32 plane holds one 32 by 32 glyph.
    let mut atlas = TextAtlas::new(32);
    let blank = GlyphonCacheKey::Text(TextCacheKey {
        font_id: 1,
        glyph_id: 32,
        font_size_bits: 0,
        x_bin: SubpixelBin::Zero,
        y_bin: SubpixelBin::Zero,
        flags: 0,
    });
    let empty = GlyphImageInfo { content_type: ContentType::Color, top: 0, left: 0, width: 0, height: 0 };
    atlas.insert_glyph(blank, empty).unwrap();
    let color = |size: u16| GlyphImageInfo { content_type: ContentType::Color, top: 0, left: 0, width: size, height: size };
    atlas.insert_glyph(custom_key(1, 32), color(32)).unwrap();
    atlas.trim();
    // The blank glyph is the least recently used, but holds no space: the sized one goes.
    atlas.insert_glyph(custom_key(2, 32), color(32)).unwrap();
    assert!(atlas.glyph(&blank).is_some());
    assert!(atlas.glyph(&custom_key(1, 32)).is_none());
    assert!(atlas.glyph(&custom_key(2, 32)).is_some());
}

#[test]
fn full_plane_reports_full_and_keeps_the_failed_glyph_uncached() {
    let mut atlas = TextAtlas::new(32);
    atlas.insert_glyph(custom_key(1, 32), mask_image(32)).unwrap();
    assert_eq!(atlas.insert_glyph(custom_key(2, 32), mask_image(32)).err(), Some(PrepareError::AtlasFull));
    assert!(atlas.glyph(&custom_key(2, 32)).is_none());
    assert!(atlas.glyph(&custom_key(1, 32)).is_some());
    assert!(atlas.mask_atlas().is_in_use(&custom_key(1, 32)));
}

#[test]
fn eviction_takes_the_oldest_glyph_not_in_use() {
    let mut atlas = TextAtlas::new(64);
    let mut placed = 0u16;
    while atlas.insert_glyph(custom_key(placed, 32), mask_image(32)).is_ok() {
        placed += 1;
        assert!(placed < 50);
    }
    assert!(placed >= 2);
    atlas.trim();
    // Glyph 0 is the oldest but drawn in this frame; glyph 1 is the oldest one free.
    assert!(atlas.promote_cached(custom_key(0, 32)).is_some());
    atlas.insert_glyph(custom_key(200, 32), mask_image(32)).unwrap();
    assert!(atlas.glyph(&custom_key(0, 32)).is_some());
    assert!(atlas.glyph(&custom_key(1, 32)).is_none());
    assert!(atlas.glyph(&custom_key(200, 32)).is_some());
}

#[test]
fn nothing_is_evicted_while_there_is_room() {
    let mut atlas = TextAtlas::new(256);
    atlas.insert_glyph(custom_key(1, 16), mask_image(16)).unwrap();
    atlas.trim();
    atlas.insert_glyph(custom_key(2, 16), mask_image(16)).unwrap();
    assert!(atlas.glyph(&custom_key(1, 16)).is_some());
    assert_eq!(atlas.mask_atlas().len(), 2);
}
