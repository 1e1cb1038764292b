//! A small verified key/value server core: the wire codec (encoding and
//! decoding of simple strings, errors, integers, binary-safe bulk strings
//! and nested arrays), a key/value store with optional millisecond expiry,
//! and the command dispatch that ties the two together.
pub mod bytes;
pub mod decode;
pub mod kvstore;
pub mod laws;
pub mod numbers;
pub mod redis;
pub mod resp;
