//! The shared board: the values that clients and server exchange, the
//! server's authoritative state and the client's mirror of it.

pub mod common;
pub mod global_board;
pub mod id_map;
pub mod local_board;
