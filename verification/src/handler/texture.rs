use vstd::prelude::*;

verus! {

/// The textures the renderer knows how to load. The pixel data itself
/// lives with the graphics stack; the library only names the assets.
#[derive(Clone, Copy, Debug, PartialEq, Eq, Hash, Structural)]
pub enum Texture {
    Wall,
    WallNormal,
    PanelBackground,
}

} // verus!
