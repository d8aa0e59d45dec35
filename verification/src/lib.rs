//! Core of a low-latency voice-over-UDP system: the typed packet codec, the
//! authenticated-encryption datagram framing with its reliable sub-channel,
//! the server's channel/remote state machine with its tick bookkeeping, and
//! the command registry.
//!
//! Byte-level logic, state transitions and their invariants are verified.
//! Cipher and key-derivation primitives are called through narrow trusted
//! wrappers; all network and audio-device I/O lives outside this crate.

pub mod bytes;
pub mod protocol;
pub mod listing;
pub mod crypto;
pub mod link;
pub mod strutil;
pub mod server;
pub mod commands;
pub mod sync;
pub mod console_cmd;
pub mod console;
pub mod parse;
pub mod client;
