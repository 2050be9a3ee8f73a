//! The HTTP/2 side of the server.

pub mod frames;
pub mod settings;
pub mod window;
pub mod stream;
pub mod connection;
pub mod server;
