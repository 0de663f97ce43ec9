//! The decision-making core of a command-line BitTorrent client.
//!
//! Everything here is a computation on plain values: wire formats, bencode
//! scanning, peer and piece bookkeeping, and the state machines that say which
//! network action comes next. Sockets, threads, files and hashing live in the
//! program around this library, which performs the actions and reports back.

pub mod bencode;
pub mod bytes;
pub mod client;
pub mod error;
pub mod handshake;
pub mod magnet;
pub mod message;
pub mod metadata;
pub mod output;
pub mod peer;
pub mod piece;
mod random;
pub mod text;
pub mod torrent;
pub mod tracker;
pub mod uri;
pub mod worker;
