use vstd::prelude::*;

verus! {

/// An error that occurred while preparing text for rendering.
#[derive(Clone, Copy, Debug, Eq, PartialEq, Structural)]
pub enum PrepareError {
    /// A glyph found no room in its atlas plane, even after evicting every glyph not in
    /// use and growing the plane to its largest size.
    AtlasFull,
}

/// An error that occurred while rendering text.
#[derive(Clone, Copy, Debug, Eq, PartialEq, Structural)]
pub enum RenderError {
    /// A glyph drawn by the prepared batch is no longer in the atlas.
    RemovedFromAtlas,
    /// The screen resolution differs from the one the batch was prepared for.
    ScreenResolutionChanged,
    /// A range of text areas that the renderer does not hold.
    RangeOutOfBounds { start: usize, end: usize, num_text_areas: usize },
}

} // verus!
