//! An HTTP/1.1 and HTTP/2 server library: frame codec, settings, flow-control
//! windows, stream state machines, request assembly and the per-connection
//! protocol decisions, each stated over a mathematical model and proved.

pub mod buf;
pub mod text;
pub mod http;
pub mod http2;
pub mod http1_1;
pub mod site;
