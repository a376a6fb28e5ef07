use vstd::prelude::*;

use crate::handler::texture::Texture;
use crate::ui::utils::RenderCommand;

verus! {

/// The drawing instructions one UI element produced for one frame, with
/// the area it may draw into.
pub struct UIRender {
    pub height: u32,
    pub width: u32,
    pub commands: Vec<RenderCommand>,
}

impl UIRender {
    pub fn new(width: u32, height: u32) -> (r: UIRender)
        ensures
            r.width == width,
            r.height == height,
            r.commands@ == Seq::<RenderCommand>::empty(),
    {
        UIRender { width, height, commands: Vec::new() }
    }

    /// Records that the element's background is drawn with `texture`.
    pub fn set_background(&mut self, texture: Texture)
        ensures
            final(self).commands@ == old(self).commands@.push(
                RenderCommand::DrawBackground(texture),
            ),
            final(self).width == old(self).width,
            final(self).height == old(self).height,
    {
        self.commands.push(RenderCommand::DrawBackground(texture));
    }

    /// Records text to draw at the given position within the element.
    pub fn draw_text_at(&mut self, text: String, x: u32, y: u32)
        ensures
            final(self).commands@ == old(self).commands@.push(
                (RenderCommand::DrawText { text: text, x: x, y: y }),
            ),
            final(self).width == old(self).width,
            final(self).height == old(self).height,
    {
        self.commands.push(RenderCommand::DrawText { text, x, y });
    }
}

} // verus!
