//! Sockets: the handshaking wrapper, its wire format, and an in-memory transport.

pub mod handshake;
pub mod memory;
pub mod wire;
