//! A verified model of the PNG chunk container format: chunk type codes with
//! their property bits, length-prefixed CRC-protected chunks, and a container
//! that parses from and serializes to the exact byte layout.

pub mod args;
pub mod chunk;
pub mod chunk_type;
pub mod codec;
pub mod crc32;
pub mod png;
