//! Interactive worksheet engine for bech32/codex32 checksums over GF(32).
//!
//! The library models a paper "volvelle" worksheet: a staircase of cells in
//! which a user fills in share characters and the engine back-propagates the
//! arithmetic consequences, emitting a stream of cell-update actions for a
//! host UI to paint.

pub mod checksum_worksheet;
pub mod dom_action;
pub mod error;
pub mod fe;
pub mod poly;
pub mod session;
pub mod share_str;
mod text;
