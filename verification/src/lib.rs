//! A recursive DNS resolver core: a growable byte cursor, the DNS wire-format
//! codec built on it, and the decisions of recursive resolution.
//!
//! The crate is verified with Verus. Contracts are stated over mathematical
//! models: a store is a byte sequence with a position, a message is a record
//! of sequences, and the wire format is a pair of specification functions,
//! one that says which bytes are written and one that says what is read, that
//! the executable code is proved to follow.
//!
//! - `buffer`: the byte store, `BytePacketBuffer`, and its model, `Cursor`.
//! - `qname`: domain names on the wire, with compression on reading.
//! - `dns_types`, `dns_record`, `dns_packet`: header, questions, records and
//!   whole messages, and the look-ups that following a referral needs.
//! - `roundtrip`, `compression`: what is proved of the wire format as a
//!   whole; `roundtrip::lemma_message_round_trip` is the main statement.
//! - `resolver`: the state machine of one resolution. `server` and `prompt`:
//!   the rules of the two front ends.
//!
//! Two calls into the standard library are taken on trust, both in `qname`:
//! the lossy conversion of bytes that are not valid UTF-8, and the lowering
//! of text that is not ASCII. Sockets, clocks and the terminal are left to
//! the caller.

pub mod error;
pub mod buffer;
pub mod qname;
pub mod dns_types;
pub mod dns_record;
pub mod dns_packet;
pub mod resolver;
pub mod roundtrip;
pub mod compression;
pub mod server;
pub mod prompt;
