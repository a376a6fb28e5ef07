use vstd::prelude::*;

use crate::handler::texture::Texture;

verus! {

/// A rectangle in UI coordinates.
#[derive(Clone, Copy, Debug, PartialEq, Eq, Structural)]
pub struct Dimension {
    pub x: u32,
    pub y: u32,
    pub width: u32,
    pub height: u32,
}

/// One drawing instruction recorded by a UI element; the renderer
/// executes them in order.
#[derive(Clone, Debug, PartialEq, Eq)]
pub enum RenderCommand {
    DrawBackground(Texture),
    DrawText { text: String, x: u32, y: u32 },
}

/// How a UI element answered an input event.
#[derive(Clone, Copy, Debug, PartialEq, Eq, Structural)]
pub enum EventResult {
    Unhandled,
    Handled,
    SelectNext,
}

/// Which screen of the UI is loaded.
#[derive(Clone, Copy, Debug, PartialEq, Eq, Structural)]
pub enum UIView {
    Login,
    Blank,
}

} // verus!
