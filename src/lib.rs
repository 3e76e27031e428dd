//! Hexadecimal encoding and decoding of byte sequences, whole or in
//! bounded chunks.
pub mod codec;
pub mod chunked;
mod text;
