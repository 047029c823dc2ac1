//! The state the two external lookups read: committee assignments and
//! validator balances, held as plain values.
//!
//! The selection consumes two collaborators: a committee/participation lookup
//! (expand a bitfield into the validator indices that signed) and a balance
//! lookup (a validator's effective balance, capped by configuration). Both are
//! pure reads of this state and are verified here against exact contracts.

use vstd::prelude::*;
use crate::attestation::{AttestationData, ChainSpec, LookupError};

verus! {

/// The committee assigned to one (slot, shard) pair: the validator indices
/// holding its seats, in seat order.
pub struct CrosslinkCommittee {
    pub slot: u64,
    pub shard: u64,
    pub committee: Vec<usize>,
}

/// The slice of chain state that the selection reads: the balance registry and
/// the committee assignments relevant to the attestations under consideration.
pub struct BeaconState {
    /// Balance of each validator, indexed by validator index.
    pub validator_balances: Vec<u64>,
    /// Committee assignments; lookups take the first entry matching a
    /// (slot, shard) pair.
    pub crosslink_committees: Vec<CrosslinkCommittee>,
}

/// The committee for `(slot, shard)` among the entries from position `i` on:
/// the first matching entry's seats, or `None` when no entry matches.
pub open spec fn committee_for_from(
    entries: Seq<CrosslinkCommittee>,
    slot: u64,
    shard: u64,
    i: int,
) -> Option<Seq<usize>>
    decreases entries.len() - i,
{
    if i < 0 || i >= entries.len() {
        None
    } else if entries[i].slot == slot && entries[i].shard == shard {
        Some(entries[i].committee@)
    } else {
        committee_for_from(entries, slot, shard, i + 1)
    }
}

/// The validator indices of the seats from position `i` on whose bit is set,
/// in seat order.
pub open spec fn participants_from(committee: Seq<usize>, bits: Seq<bool>, i: int) -> Seq<usize>
    decreases committee.len() - i,
{
    if i < 0 || i >= committee.len() || i >= bits.len() {
        Seq::empty()
    } else if bits[i] {
        seq![committee[i]] + participants_from(committee, bits, i + 1)
    } else {
        participants_from(committee, bits, i + 1)
    }
}

impl BeaconState {
    /// The committee assigned to `(slot, shard)`, if any.
    pub open spec fn spec_committee_for(self, slot: u64, shard: u64) -> Option<Seq<usize>> {
        committee_for_from(self.crosslink_committees@, slot, shard, 0)
    }

    /// A participation lookup succeeds exactly when a committee exists for the
    /// attestation's (slot, shard) and the bitfield has one bit per seat.
    pub open spec fn spec_participation_ok(self, data: AttestationData, bits: Seq<bool>) -> bool {
        match self.spec_committee_for(data.slot, data.shard) {
            Some(committee) => bits.len() == committee.len(),
            None => false,
        }
    }

    /// The validator indices that participated in an attestation: the seats of
    /// its committee whose bit is set, in seat order.
    pub open spec fn spec_participants(self, data: AttestationData, bits: Seq<bool>) -> Seq<usize> {
        match self.spec_committee_for(data.slot, data.shard) {
            Some(committee) => participants_from(committee, bits, 0),
            None => Seq::empty(),
        }
    }

    /// A validator index is known when it lies inside the balance registry.
    pub open spec fn spec_validator_known(self, validator_index: usize) -> bool {
        (validator_index as int) < self.validator_balances@.len()
    }

    /// A known validator's effective balance: its registered balance, capped
    /// by the configured maximum. Unknown indices are given weight zero; the
    /// executable lookup rejects them instead.
    pub open spec fn spec_effective_balance(self, validator_index: usize, config: ChainSpec) -> u64 {
        if (validator_index as int) < self.validator_balances@.len() {
            if self.validator_balances@[validator_index as int] < config.max_effective_balance {
                self.validator_balances@[validator_index as int]
            } else {
                config.max_effective_balance
            }
        } else {
            0u64
        }
    }

    /// Committee/participation lookup: expand an attestation's bitfield into
    /// the concrete validator indices that signed, using the committee
    /// assigned to the attestation's (slot, shard).
    ///
    /// Fails with `InvalidParticipation` exactly when no committee matches or
    /// the bitfield's length differs from the committee size; this is never
    /// silently skipped.
    pub fn get_attestation_participants(
        &self,
        data: &AttestationData,
        aggregation_bitfield: &Vec<bool>,
    ) -> (r: Result<Vec<usize>, LookupError>)
        ensures
            self.spec_participation_ok(*data, aggregation_bitfield@) ==> (r matches Ok(v)
                && v@ == self.spec_participants(*data, aggregation_bitfield@)),
            !self.spec_participation_ok(*data, aggregation_bitfield@) ==> (r matches Err(e)
                && e == LookupError::InvalidParticipation),
    {
        let mut ci: usize = 0;
        while ci < self.crosslink_committees.len()
            invariant
                0 <= ci <= self.crosslink_committees@.len(),
                self.spec_committee_for(data.slot, data.shard) == committee_for_from(
                    self.crosslink_committees@,
                    data.slot,
                    data.shard,
                    ci as int,
                ),
            decreases self.crosslink_committees@.len() - ci,
        {
            let entry = &self.crosslink_committees[ci];
            if entry.slot == data.slot && entry.shard == data.shard {
                let committee = &entry.committee;
                if aggregation_bitfield.len() != committee.len() {
                    return Err(LookupError::InvalidParticipation);
                }
                let mut participants: Vec<usize> = Vec::new();
                let mut j: usize = 0;
                while j < committee.len()
                    invariant
                        0 <= j <= committee@.len(),
                        aggregation_bitfield@.len() == committee@.len(),
                        self.spec_committee_for(data.slot, data.shard) == Some(committee@),
                        participants@ + participants_from(
                            committee@,
                            aggregation_bitfield@,
                            j as int,
                        ) == participants_from(committee@, aggregation_bitfield@, 0),
                    decreases committee@.len() - j,
                {
                    let ghost done = participants@;
                    if aggregation_bitfield[j] {
                        participants.push(committee[j]);
                        proof {
                            assert(participants@ + participants_from(
                                committee@,
                                aggregation_bitfield@,
                                j + 1,
                            ) =~= done + (seq![committee@[j as int]] + participants_from(
                                committee@,
                                aggregation_bitfield@,
                                j + 1,
                            )));
                        }
                    }
                    j = j + 1;
                }
                proof {
                    assert(participants@ + participants_from(
                        committee@,
                        aggregation_bitfield@,
                        committee@.len() as int,
                    ) =~= participants@);
                }
                return Ok(participants);
            }
            ci = ci + 1;
        }
        Err(LookupError::InvalidParticipation)
    }

    /// Balance lookup: a validator's effective balance, its registered balance
    /// capped by `config.max_effective_balance`.
    ///
    /// Fails with `UnknownValidator` exactly when the index lies outside the
    /// registry.
    pub fn get_effective_balance(
        &self,
        validator_index: usize,
        config: &ChainSpec,
    ) -> (r: Result<u64, LookupError>)
        ensures
            self.spec_validator_known(validator_index) ==> (r matches Ok(b) && b
                == self.spec_effective_balance(validator_index, *config)),
            !self.spec_validator_known(validator_index) ==> (r matches Err(e) && e
                == LookupError::UnknownValidator),
    {
        if validator_index < self.validator_balances.len() {
            let balance = self.validator_balances[validator_index];
            if balance < config.max_effective_balance {
                Ok(balance)
            } else {
                Ok(config.max_effective_balance)
            }
        } else {
            Err(LookupError::UnknownValidator)
        }
    }
}

} // verus!
