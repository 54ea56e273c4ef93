//! Stake-weighted BLS quorum verification and a hash-chained finality puller.
//!
//! The library has two independent pieces. `registry` builds an immutable
//! operator snapshot and decides whether a claimed result was approved by a
//! sufficient stake-weighted quorum of operators, checked with an aggregate
//! BLS signature over the BLS12-381 pairing. `puller` reconstructs an
//! ordered, hash-chained batch log from a sequencer's responses up to the
//! sequencer's declared finality pointer; the network loop itself lives
//! outside the library and feeds the state machine one response at a time.

pub mod bls;
pub mod encoding;
pub mod errors;
pub mod hashing;
pub mod puller;
pub mod registry;
