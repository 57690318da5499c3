//! A small notes library: an ordered list of text notes with completion
//! flags, a draft input slot for the note being written, and a persistence
//! codec that stores the list as a JSON string under a single key.

pub mod codec;
pub mod state;
