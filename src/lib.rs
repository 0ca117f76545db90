//! Codec for a length-prefixed, tag-typed request/response protocol, and the
//! request decoding of the key-value service built on it.
pub mod command;
pub mod laws;
pub mod parser;
pub mod types;
pub mod writer;
