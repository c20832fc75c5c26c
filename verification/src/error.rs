use vstd::prelude::*;

use crate::domain::CanvasSize;

verus! {

/// A domain validation failure.
#[derive(Debug, Clone, PartialEq, Eq)]
#[non_exhaustive]
pub enum DomainError {
    /// The caption held no printable text.
    EmptyCaption,
    /// The requested canvas width was zero.
    ZeroWidth,
    /// The requested canvas height was zero.
    ZeroHeight,
    /// An explicit font size of zero was requested.
    ZeroFontSize,
    /// The colour was neither a known name nor an RGB hex value.
    InvalidColor(String),
}

/// A failure encountered while turning a valid image specification into pixels.
#[derive(Debug)]
#[non_exhaustive]
pub enum RenderError {
    /// The text renderer could not draw the caption.
    TextRender(text_to_png::TextToPngError),
    /// The renderer produced a PNG that could not be decoded.
    Decode(image::ImageError),
    /// The caption cannot be laid out legibly within the requested canvas.
    DoesNotFit {
        /// Canvas width in pixels.
        width: u32,
        /// Canvas height in pixels.
        height: u32,
    },
}

impl RenderError {
    /// The error for a caption that cannot be laid out legibly on `canvas`.
    pub fn does_not_fit(canvas: CanvasSize) -> (error: Self)
        ensures
            error == (RenderError::DoesNotFit { width: canvas@.0, height: canvas@.1 }),
    {
        RenderError::DoesNotFit { width: canvas.width(), height: canvas.height() }
    }
}

} // verus!
