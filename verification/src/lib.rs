//! Verified engine for the GBA multiboot upload protocol: the handshake, the
//! per-word stream cipher, the bit-serial CRC-16 digest, and the transfer
//! state machine, all specified over an abstract word-exchange transport.

pub mod crc;
pub mod multiboot;
pub mod rom;
pub mod transport;
