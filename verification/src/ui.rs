pub mod panel;
pub mod render_state;
pub mod utils;
