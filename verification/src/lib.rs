//! Crosslink winning-root selection.
//!
//! Per-epoch, per-shard computation deciding which crosslink data root the
//! committee of attesting validators has collectively endorsed: the root with
//! the highest total attesting effective balance, ties broken by the smaller
//! root value. Every node must compute an identical result from identical
//! inputs, so the selection is specified and proved order-independent.

pub mod hash256;
pub mod attestation;
pub mod beacon_state;
pub mod winning_root;
