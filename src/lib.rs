//! Mux: a binary, tag-multiplexed RPC wire protocol.
//!
//! - `tags`: the 24-bit tag and its fragment flag.
//! - `types`: the wire type codes.
//! - `wire`, `fields`: big-endian integers, length-prefixed bytes and pair
//!   lists, each with its parser and round-trip lemma.
//! - `message`, `init`, `decode`: the message kinds, their abstract model,
//!   the encoder and the decoder, and the round-trip law.
//! - `header`: the frame-size entry of the session header list.
//! - `fragment`, `framer`: fragmentation, per-tag reassembly and the
//!   round-robin outbound queue, as a model with its laws and as the
//!   transport state machine that follows it.
pub mod tags;
pub mod types;
pub mod wire;
pub mod fields;
pub mod message;
pub mod init;
pub mod decode;
pub mod header;
pub mod fragment;
pub mod framer;
