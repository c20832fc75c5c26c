//! Validated captions, canvases and styles for rendering text into an image,
//! and the integer side of laying a caption out: which words share a line.
//!
//! A caption, a canvas and a style are validated into an [`ImageSpec`]; the
//! caption's words are wrapped greedily into lines ([`layout::wrap`]), and a
//! safe PNG file name is derived from the caption
//! ([`Caption::output_file_name`]).

pub mod domain;
pub mod error;
pub mod layout;
pub mod naming;
pub mod renderer;
pub mod text;

pub use domain::{
    blank_canvas,
    Background, CanvasSize, Caption, Color, FontPixels, FontSizing, ImageSpec, OutputFileName,
    TextStyle,
};
pub use error::{DomainError, RenderError};
pub use layout::{join_lines, line_width, space_width, widest_line, wrap};
