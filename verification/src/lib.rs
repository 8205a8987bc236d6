//! Core of an asynchronous BFT weak-secret-sharing (WSS) subsystem built on a
//! Cachin–Tessaro erasure-coded reliable broadcast.  Among `n = 3f + 1`
//! replicas, of which up to `f` may be Byzantine, each replica secret-shares a
//! field element so that any `f + 1` honest replicas can reconstruct it.
//!
//! The protocol state machines are pure transition functions from a state and
//! an inbound message to a new state and a list of outbound effects; a driver
//! (or a test) delivers the effects.  Hashing, erasure coding and randomness
//! are reached through a small set of trusted wrappers.
#![verifier::loop_isolation(false)]

pub mod field;
pub mod hashing;
pub mod merkle;
pub mod shamir;
pub mod erasure;
pub mod msg;
pub mod wss;
pub mod batch;
pub mod laws;
