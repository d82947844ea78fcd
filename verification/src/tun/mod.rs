//! IP packets of a TUN interface, as they go through the holes.

pub mod bridge;
pub mod checksum;
pub mod compose;
pub mod hub;
pub mod laws;
pub mod packet;
pub mod tally;
