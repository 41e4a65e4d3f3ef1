//! Communication front end of a reflow-oven controller.
//!
//! The crate reassembles newline-terminated messages out of bounded
//! transport chunks, decodes each message as a tagged JSON command, and
//! exposes a single poll step that a driver loop can run forever.

pub mod codec;
pub mod dispatch;
pub mod framing;
pub mod grammar;
pub mod laws;
pub mod protocol;
