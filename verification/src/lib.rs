//! The RC4 stream cipher: a keystream generator and a reader that masks
//! whatever it reads with that keystream.

pub mod data;
pub mod error;
pub mod laws;
pub mod mem;
pub mod model;
pub mod raw;
pub mod reader;
