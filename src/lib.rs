//! Coordination of a t-of-n threshold signing ceremony: a distributed key
//! generation followed by a distributed signing, exchanged through files in
//! a shared working directory.
//!
//! The library decides every step that does not need the curve arithmetic:
//! which artifacts exist and where, how index-tagged sets are stored and
//! read back, when a round may run (threshold, completeness, duplicates,
//! single use of a nonce), what each primitive is to be called with, and the
//! exact bytes that a balance-chain block asks the group to sign.

pub mod artifacts;
pub mod ceremony;
pub mod cli;
pub mod ledger;
pub mod paths;
pub mod primitives;
pub mod text;
