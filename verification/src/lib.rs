//! Core of a TCP relay: a length-delimited frame codec, the per-connection
//! packet accumulator that deframes a raw byte stream, and the registry that
//! fans every received frame out to all live connections.
//!
//! The modules here hold only the relay's logic; the sockets, tasks and the
//! event loop that drive it live outside the library.

pub mod bytebuf;
pub mod packet;
pub mod packet_factory;
pub mod relay;
pub mod wire;
