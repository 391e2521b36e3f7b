use vstd::prelude::*;

verus! {

/// The type of image data contained in a rasterized glyph.
#[derive(Debug, Clone, Copy, PartialEq, Eq, Hash, Structural)]
pub enum ContentType {
    /// Each pixel contains 32 bits of rgba data.
    Color,
    /// Each pixel contains a single 8 bit channel.
    Mask,
}

impl ContentType {
    pub open spec fn spec_bytes_per_pixel(self) -> nat {
        match self {
            ContentType::Color => 4,
            ContentType::Mask => 1,
        }
    }

    /// The number of bytes per pixel for this content type.
    pub fn bytes_per_pixel(&self) -> (r: usize)
        ensures
            r == self.spec_bytes_per_pixel(),
    {
        match self {
            ContentType::Color => 4,
            ContentType::Mask => 1,
        }
    }
}

/// A rasterized custom glyph.
#[derive(Debug, Clone)]
pub struct RasterizedCustomGlyph {
    /// The raw image data.
    pub data: Vec<u8>,
    /// The type of image data contained in `data`.
    pub content_type: ContentType,
}

impl RasterizedCustomGlyph {
    /// Whether this output fits a request of `width` by `height` pixels: when a content
    /// type is expected it is the one produced, and the data holds exactly one pixel of
    /// that type per requested pixel.
    pub open spec fn spec_is_valid(
        &self,
        width: u16,
        height: u16,
        expected_type: Option<ContentType>,
    ) -> bool {
        &&& (expected_type matches Some(t) ==> self.content_type == t)
        &&& self.data@.len() == width * height * self.content_type.spec_bytes_per_pixel()
    }

    /// Checks this output against the request it answers (see `spec_is_valid`).
    pub fn validate(&self, width: u16, height: u16, expected_type: Option<ContentType>) -> (r: bool)
        ensures
            r == self.spec_is_valid(width, height, expected_type),
    {
        if let Some(t) = expected_type {
            if self.content_type != t {
                return false;
            }
        }
        let w = width as u64;
        let h = height as u64;
        let bpp = self.content_type.bytes_per_pixel() as u64;
        assert(w * h <= 0xffff * 0xffff) by (nonlinear_arith)
            requires
                w <= 0xffff,
                h <= 0xffff,
        ;
        assert(w * h * bpp <= 0xffff * 0xffff * 4) by (nonlinear_arith)
            requires
                w * h <= 0xffff * 0xffff,
                bpp <= 4,
        ;
        let expected = w * h * bpp;
        self.data.len() as u64 == expected
    }
}

} // verus!
