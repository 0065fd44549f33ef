//! A runtime for message-passing nodes in a distributed-systems test harness.
//!
//! A node reads newline-delimited JSON messages, reacts to them through a
//! pluggable state machine, and emits newline-delimited JSON replies. This
//! crate holds the verified core: the wire codec (`codec`, `encode`,
//! `decode`, with the round-trip proof in `roundtrip`), the protocol
//! envelope and its reply helper (`protocol`), the handshake, event queue
//! and main loop (`runtime`), and two example state machines (`nodes`).
//! Reading stdin and writing stdout are left to a thin unverified shell
//! around the library.

use vstd::prelude::*;

pub mod codec;
pub mod decode;
pub mod encode;
pub mod newline_writer;
pub mod nodes;
pub mod protocol;
pub mod roundtrip;
pub mod runtime;
