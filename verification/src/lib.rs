//! The core of a shared drawing board.
//!
//! Clients paste images onto a board that they share; a server keeps the
//! board, names what is on it and tells every client what the others did.
//!
//! - `board`: the messages, the server's board and the client's mirror of it;
//! - `room`: what a room answers to what happens in it;
//! - `store`: the stored form of a board and of its events, their bytes, the
//!   files that hold them and the replay on a restart;
//! - `image_atlas`, `textures`, `pixels`: where a client keeps the images;
//! - `client_info`, `server_list`, `auth`: who is there, and which rooms.
//!
//! Coordinates are carried as bit patterns and never computed with. Files
//! and connections belong to the user of the library: the library is handed
//! bytes and hands back bytes, or says what is to be done.

pub mod auth;
pub mod board;
pub mod client_info;
pub mod image_atlas;
pub mod pixels;
pub mod room;
pub mod server_list;
pub mod store;
pub mod textures;
