//! Scans a chain's sequential blocks for transactions that pay cross-chain
//! relay fees, tallies those fees per account and denomination with exact
//! arithmetic, keeps a resumable crash-safe checkpoint, and re-aggregates the
//! emitted record stream offline.

#![verifier::loop_isolation(false)]

pub mod block;
pub mod bytestr;
pub mod classify;
pub mod codec;
pub mod coin;
pub mod digits;
pub mod envelope;
pub mod scan;
pub mod summary;
pub mod tally;
