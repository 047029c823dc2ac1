//! Attestation records and the configuration value consumed by the selection.
//!
//! Attestations are consumed read-only: the selection only reads the shard,
//! the claimed crosslink data root, the slot (to locate the committee) and the
//! participation bitfield, one bit per committee seat.

use vstd::prelude::*;
use crate::hash256::Hash256;

verus! {

/// The part of an attestation's data that the selection reads: which shard it
/// is scoped to, which crosslink data root it endorses, and at which slot the
/// attesting committee sat.
pub struct AttestationData {
    pub slot: u64,
    pub shard: u64,
    pub crosslink_data_root: Hash256,
}

/// An attestation pending processing: its data together with the participation
/// bitfield recording which committee seats actually signed.
pub struct PendingAttestation {
    pub data: AttestationData,
    pub aggregation_bitfield: Vec<bool>,
}

/// Failures of the external lookups. Any such error aborts the whole per-shard
/// computation: a partial result would desynchronize nodes.
#[derive(Clone, Copy, Debug, PartialEq, Eq, Structural)]
pub enum LookupError {
    /// A participation bitfield's length, or the committee it refers to, is
    /// inconsistent with the committee data.
    InvalidParticipation,
    /// A balance lookup named a validator index outside the known registry.
    UnknownValidator,
}

/// Protocol configuration, passed explicitly to every lookup that needs it.
pub struct ChainSpec {
    /// Cap on the stake a single validator contributes as voting weight.
    pub max_effective_balance: u64,
}

} // verus!
