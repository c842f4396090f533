//! A meme-image renderer: given a base bitmap, a pre-rasterized font, and a
//! set of rectangular text fields, the library fits each field's text into
//! its box (shrinking the font size as needed), rasterizes the text into
//! coverage masks (optionally dilated for borders), and alpha-blends the
//! colored masks onto the canvas in a fixed stacking order.

use vstd::prelude::*;

pub mod canvas;
pub mod encode;
pub mod field;
pub mod font;
pub mod layout;
pub mod mask;
pub mod render;
pub mod text;

verus! {

/// A solid fill color in RGB, one byte per channel.
#[derive(Clone, Copy, Debug, PartialEq, Eq, Structural)]
pub struct Color {
    pub r: u8,
    pub g: u8,
    pub b: u8,
}

/// Command-line options of the companion tool: which template to render.
#[derive(Clone, Debug)]
pub struct Cli {
    /// The name of the template to use.
    pub template_name: String,
}

impl Default for Cli {
    /// The default template choice asks for a random one.
    fn default() -> (r: Cli)
        ensures
            r.template_name@ == "random"@,
    {
        Cli { template_name: String::from_str("random") }
    }
}

} // verus!
