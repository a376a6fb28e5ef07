pub mod panel;
