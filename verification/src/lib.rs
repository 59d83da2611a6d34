//! A small key-value store served over a line protocol: framing of the byte
//! stream, parsing of commands, and the store that answers them.

pub mod buffer;
pub mod text;
pub mod command;
pub mod memory;
pub mod channel;
pub mod connect;
