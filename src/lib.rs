//! Codec for the "cfg.bin" configuration container: CRC-keyed records,
//! a string table, a key table, and the tree that record names imply.

pub mod crc32;
pub mod model;
pub mod bytes;
pub mod text;
pub mod names;
pub mod layout;
pub mod encode;
pub mod tree;
pub mod decode;
pub mod texts;
pub mod txt;
pub mod address;
pub mod laws;
