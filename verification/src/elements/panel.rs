use vstd::prelude::*;

use crate::handler::texture::Texture;
use crate::ui::render_state::UIRender;
use crate::ui::utils::Dimension;
use crate::ui::utils::RenderCommand;

verus! {

/// A plain background panel, sized relative to its parent.
pub struct Panel {}

impl Panel {
    pub fn new() -> (r: Panel) {
        Panel {  }
    }

    /// Where the panel first appears inside its parent.
    pub fn get_initial_position(&self, parent_dimensions: &Dimension) -> (r: (u32, u32))
        ensures
            r == (50u32, 50u32),
    {
        (50, 50)
    }

    /// The size the panel asks for: the parent's width minus a margin,
    /// and a fixed height.
    pub fn get_desired_size(&self, parent_dimensions: &Dimension) -> (r: (u32, u32))
        requires
            parent_dimensions.width >= 100,
        ensures
            r == (((parent_dimensions.width - 100) as u32), 200u32),
    {
        (parent_dimensions.width - 100, 200)
    }

    /// The instructions to draw this panel: its background texture.
    pub fn draw(&self, render: &mut UIRender)
        ensures
            final(render).commands@ == old(render).commands@.push(
                (RenderCommand::DrawBackground(Texture::PanelBackground)),
            ),
            final(render).width == old(render).width,
            final(render).height == old(render).height,
    {
        render.set_background(Texture::PanelBackground);
    }
}

} // verus!
