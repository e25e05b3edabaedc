//! The verified core of a protocol-aware reverse proxy for a binary
//! game-network wire protocol. The library holds everything that
//! demands bit-level fidelity or careful sequencing: the wire type
//! codec and its exact encode/decode contracts, the frame envelope
//! with its size bound, the packet catalog for the handshake, status
//! and login phases, the JSON rewrite applied to status responses,
//! the pool of outbound source addresses, the relay buffer that
//! preserves byte order, and the per-connection decisions. Sockets,
//! name resolution, threads and logging stay with the binary that
//! drives these pieces.

pub mod handler;
pub mod json;
pub mod pool;
pub mod protocol;
pub mod relay;
pub mod text;
