//! Primitives of the Minecraft Java Edition network protocol: data types,
//! their wire encodings, packet framing, compression and stream encryption.

pub mod compression;
pub mod encryption;
pub mod num;
pub mod packet;
pub mod ser;
pub mod types;
pub mod varint;
