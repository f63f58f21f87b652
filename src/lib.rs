//! Client-side decoding of a STOMP message feed: incremental frame
//! extraction from a byte stream and decoding of compressed bodies.
pub mod frame;
pub mod message;
pub mod reader;
pub mod request;
pub mod text;
