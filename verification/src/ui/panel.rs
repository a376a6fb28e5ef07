use vstd::prelude::*;

use crate::handler::texture::Texture;
use crate::ui::render_state::UIRender;
use crate::ui::utils::RenderCommand;

verus! {

/// A plain background panel. It holds no state of its own; its look is
/// the drawing instructions it records.
pub struct Panel {}

impl Panel {
    pub fn new() -> (r: Panel) {
        Panel {  }
    }

    /// The instructions to draw this panel: its background texture and
    /// a greeting.
    pub fn draw(&self, render: &mut UIRender)
        ensures
            final(render).commands@.len() == old(render).commands@.len() + 2,
            final(render).commands@[final(render).commands@.len() - 2] == (
            RenderCommand::DrawBackground(Texture::PanelBackground)),
            final(render).commands@.last() matches RenderCommand::DrawText { text, x, y }
                && text@ == "Hello world!"@ && x == 50 && y == 90,
            final(render).width == old(render).width,
            final(render).height == old(render).height,
    {
        render.set_background(Texture::PanelBackground);
        render.draw_text_at(hello_text(), 50, 90);
    }
}

/// The greeting the panel shows.
fn hello_text() -> (r: String)
    ensures
        r@ == "Hello world!"@,
{
    "Hello world!".to_owned()
}

} // verus!
