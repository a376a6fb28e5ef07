pub mod client;
pub mod clock;
pub mod codec;
pub mod elements;
pub mod error;
pub mod file_handler;
pub mod handler;
pub mod message;
pub mod server;
pub mod transport;
pub mod ui;
