//! Relay layer: wire framing, ChaCha20-Poly1305 encryption and Reed-Solomon
//! forward error correction for tunnel packets.

pub mod wire;
pub mod fec;
pub mod crypto;
pub mod blocks;
pub mod receiver;
