//! Crosslink winning-root selection.
//!
//! Given the attestations of the current and previous epoch and a shard,
//! determine the crosslink data root with the highest total attesting
//! effective balance, the stake backing it, and the validator indices that
//! contributed. Ties are broken by the smaller root under the canonical byte
//! ordering, so the winner is unique and independent of any enumeration
//! order used internally.

use vstd::prelude::*;
use crate::hash256::{
    bytes_lt, lemma_bytes_lt_asymmetric, lemma_bytes_lt_irreflexive, lemma_bytes_lt_total,
    lemma_bytes_lt_transitive, Hash256,
};
use crate::attestation::{ChainSpec, LookupError, PendingAttestation};
use crate::beacon_state::BeaconState;

verus! {

/// An attestation is counted for `(shard, root)` when its data names exactly
/// that shard and that crosslink data root.
pub open spec fn att_matches(a: PendingAttestation, shard: u64, root: Seq<u8>) -> bool {
    a.data.shard == shard && a.data.crosslink_data_root@ == root
}

/// Some attestation of the list claims `root` for `shard`.
pub open spec fn claims_root(atts: Seq<PendingAttestation>, shard: u64, root: Seq<u8>) -> bool {
    exists|j: int| 0 <= j < atts.len() && att_matches(#[trigger] atts[j], shard, root)
}

/// The distinct crosslink data roots that the attestations of one list claim
/// for `shard`.
pub open spec fn roots_in(atts: Seq<PendingAttestation>, shard: u64) -> Set<Seq<u8>> {
    Set::new(|root: Seq<u8>| claims_root(atts, shard, root))
}

/// The distinct crosslink data roots claimed for `shard` in either epoch's
/// attestations: the candidates of the selection.
pub open spec fn shard_roots(
    current: Seq<PendingAttestation>,
    previous: Seq<PendingAttestation>,
    shard: u64,
) -> Set<Seq<u8>> {
    roots_in(current, shard).union(roots_in(previous, shard))
}

/// The participants credited for `(shard, root)` by the attestations from
/// position `i` on: the concatenation, in list order, of each matching
/// record's participants. Duplicates are preserved.
pub open spec fn indices_from(
    state: BeaconState,
    shard: u64,
    root: Seq<u8>,
    atts: Seq<PendingAttestation>,
    i: int,
) -> Seq<usize>
    decreases atts.len() - i,
{
    if i < 0 || i >= atts.len() {
        Seq::empty()
    } else if att_matches(atts[i], shard, root) {
        state.spec_participants(atts[i].data, atts[i].aggregation_bitfield@) + indices_from(
            state,
            shard,
            root,
            atts,
            i + 1,
        )
    } else {
        indices_from(state, shard, root, atts, i + 1)
    }
}

/// Every attestation of the list that matches `(shard, root)` has a
/// well-formed participation record.
pub open spec fn participations_ok_in(
    state: BeaconState,
    shard: u64,
    root: Seq<u8>,
    atts: Seq<PendingAttestation>,
) -> bool {
    forall|j: int|
        0 <= j < atts.len() && att_matches(#[trigger] atts[j], shard, root)
            ==> state.spec_participation_ok(atts[j].data, atts[j].aggregation_bitfield@)
}

/// All validator indices that voted for `(shard, root)`, current epoch's
/// records first, then the previous epoch's, duplicates preserved: a validator
/// credited by several records appears once per record.
pub open spec fn attesting_indices(
    state: BeaconState,
    shard: u64,
    current: Seq<PendingAttestation>,
    previous: Seq<PendingAttestation>,
    root: Seq<u8>,
) -> Seq<usize> {
    indices_from(state, shard, root, current, 0) + indices_from(state, shard, root, previous, 0)
}

/// The participation lookups for `(shard, root)` succeed on both lists.
pub open spec fn participations_ok(
    state: BeaconState,
    shard: u64,
    current: Seq<PendingAttestation>,
    previous: Seq<PendingAttestation>,
    root: Seq<u8>,
) -> bool {
    participations_ok_in(state, shard, root, current) && participations_ok_in(
        state,
        shard,
        root,
        previous,
    )
}

/// Every index of the sequence lies inside the validator registry.
pub open spec fn all_validators_known(state: BeaconState, indices: Seq<usize>) -> bool {
    forall|k: int| 0 <= k < indices.len() ==> state.spec_validator_known(#[trigger] indices[k])
}

/// The summed effective balance of the indices from position `i` on, one
/// summand per occurrence.
pub open spec fn balance_sum_from(
    state: BeaconState,
    config: ChainSpec,
    indices: Seq<usize>,
    i: int,
) -> int
    decreases indices.len() - i,
{
    if i < 0 || i >= indices.len() {
        0
    } else {
        state.spec_effective_balance(indices[i], config) + balance_sum_from(
            state,
            config,
            indices,
            i + 1,
        )
    }
}

/// The summed effective balance of a sequence of validator indices. A
/// duplicate index contributes its balance once per occurrence.
pub open spec fn balance_sum(state: BeaconState, config: ChainSpec, indices: Seq<usize>) -> int {
    balance_sum_from(state, config, indices, 0)
}

/// The total attesting balance behind `root` for `shard`.
pub open spec fn root_balance(
    state: BeaconState,
    config: ChainSpec,
    shard: u64,
    current: Seq<PendingAttestation>,
    previous: Seq<PendingAttestation>,
    root: Seq<u8>,
) -> int {
    balance_sum(state, config, attesting_indices(state, shard, current, previous, root))
}

/// The error that scoring `root` runs into, if any: a malformed participation
/// record, or else a credited validator index outside the registry.
pub open spec fn root_error(
    state: BeaconState,
    config: ChainSpec,
    shard: u64,
    current: Seq<PendingAttestation>,
    previous: Seq<PendingAttestation>,
    root: Seq<u8>,
) -> Option<LookupError> {
    if !participations_ok(state, shard, current, previous, root) {
        Some(LookupError::InvalidParticipation)
    } else if !all_validators_known(
        state,
        attesting_indices(state, shard, current, previous, root),
    ) {
        Some(LookupError::UnknownValidator)
    } else {
        None
    }
}

/// Some candidate root of the shard cannot be scored.
pub open spec fn some_root_fails(
    state: BeaconState,
    config: ChainSpec,
    shard: u64,
    current: Seq<PendingAttestation>,
    previous: Seq<PendingAttestation>,
) -> bool {
    exists|root: Seq<u8>|
        #[trigger] shard_roots(current, previous, shard).contains(root) && root_error(
            state,
            config,
            shard,
            current,
            previous,
            root,
        ) is Some
}

/// The selection's ordering on candidate roots: a strictly higher total
/// attesting balance wins, and equal balances are decided by the smaller root
/// under the canonical byte ordering.
pub open spec fn root_better(
    state: BeaconState,
    config: ChainSpec,
    shard: u64,
    current: Seq<PendingAttestation>,
    previous: Seq<PendingAttestation>,
    r1: Seq<u8>,
    r2: Seq<u8>,
) -> bool {
    ||| root_balance(state, config, shard, current, previous, r1) > root_balance(
        state,
        config,
        shard,
        current,
        previous,
        r2,
    )
    ||| (root_balance(state, config, shard, current, previous, r1) == root_balance(
        state,
        config,
        shard,
        current,
        previous,
        r2,
    ) && bytes_lt(r1, r2))
}

/// The winning candidate for a shard: the root that received the most backing,
/// the stake behind it, and the indices that contributed.
pub struct WinningRoot {
    pub crosslink_data_root: Hash256,
    pub attesting_validator_indices: Vec<usize>,
    pub total_attesting_balance: u64,
}

impl WinningRoot {
    /// What `is_better_than` decides, over the scored fields alone.
    pub open spec fn spec_is_better_than(self, other: WinningRoot) -> bool {
        ||| self.total_attesting_balance > other.total_attesting_balance
        ||| (self.total_attesting_balance == other.total_attesting_balance && bytes_lt(
            self.crosslink_data_root@,
            other.crosslink_data_root@,
        ))
    }

    /// Returns `true` if `self` is a "better" candidate than `other`: a higher
    /// `total_attesting_balance`, ties broken by favouring the lower
    /// `crosslink_data_root` value.
    pub fn is_better_than(&self, other: &Self) -> (r: bool)
        ensures
            r == self.spec_is_better_than(*other),
    {
        if self.total_attesting_balance > other.total_attesting_balance {
            true
        } else if self.total_attesting_balance == other.total_attesting_balance {
            self.crosslink_data_root.lt(&other.crosslink_data_root)
        } else {
            false
        }
    }
}

/// `w` is the winner for `shard`: its root is a candidate, its fields are
/// exactly that root's credited indices and summed balance, and it beats every
/// other candidate root.
pub open spec fn is_winning_root(
    state: BeaconState,
    config: ChainSpec,
    shard: u64,
    current: Seq<PendingAttestation>,
    previous: Seq<PendingAttestation>,
    w: WinningRoot,
) -> bool {
    &&& shard_roots(current, previous, shard).contains(w.crosslink_data_root@)
    &&& w.attesting_validator_indices@ == attesting_indices(
        state,
        shard,
        current,
        previous,
        w.crosslink_data_root@,
    )
    &&& w.total_attesting_balance as int == root_balance(
        state,
        config,
        shard,
        current,
        previous,
        w.crosslink_data_root@,
    )
    &&& forall|other: Seq<u8>|
        #[trigger] shard_roots(current, previous, shard).contains(other) && other
            != w.crosslink_data_root@ ==> root_better(
            state,
            config,
            shard,
            current,
            previous,
            w.crosslink_data_root@,
            other,
        )
}

/// Returns all indices which voted for a given crosslink, the current epoch's
/// records first. May contain duplicates: a validator credited by more than
/// one matching record appears once per record.
///
/// Fails with `InvalidParticipation` exactly when some matching record's
/// participation lookup fails; the failure is propagated, never skipped.
pub fn get_attesting_validator_indices(
    state: &BeaconState,
    shard: u64,
    current_epoch_attestations: &Vec<PendingAttestation>,
    previous_epoch_attestations: &Vec<PendingAttestation>,
    crosslink_data_root: &Hash256,
) -> (r: Result<Vec<usize>, LookupError>)
    ensures
        participations_ok(
            *state,
            shard,
            current_epoch_attestations@,
            previous_epoch_attestations@,
            crosslink_data_root@,
        ) ==> (r matches Ok(v) && v@ == attesting_indices(
            *state,
            shard,
            current_epoch_attestations@,
            previous_epoch_attestations@,
            crosslink_data_root@,
        )),
        !participations_ok(
            *state,
            shard,
            current_epoch_attestations@,
            previous_epoch_attestations@,
            crosslink_data_root@,
        ) ==> (r matches Err(e) && e == LookupError::InvalidParticipation),
{
    let ghost root = crosslink_data_root@;
    let mut indices: Vec<usize> = Vec::new();
    proof {
        assert(indices@ + indices_from(*state, shard, root, current_epoch_attestations@, 0)
            =~= indices_from(*state, shard, root, current_epoch_attestations@, 0));
    }
    let mut t: usize = 0;
    while t < current_epoch_attestations.len()
        invariant
            0 <= t <= current_epoch_attestations@.len(),
            crosslink_data_root@ == root,
            forall|j: int|
                0 <= j < t && att_matches(
                    #[trigger] current_epoch_attestations@[j],
                    shard,
                    root,
                ) ==> state.spec_participation_ok(
                    current_epoch_attestations@[j].data,
                    current_epoch_attestations@[j].aggregation_bitfield@,
                ),
            indices@ + indices_from(*state, shard, root, current_epoch_attestations@, t as int)
                == indices_from(*state, shard, root, current_epoch_attestations@, 0),
        decreases current_epoch_attestations@.len() - t,
    {
        let a = &current_epoch_attestations[t];
        if a.data.shard == shard && a.data.crosslink_data_root.eq_bytes(crosslink_data_root) {
            match state.get_attestation_participants(&a.data, &a.aggregation_bitfield) {
                Ok(mut p) => {
                    let ghost done = indices@;
                    let ghost part = p@;
                    indices.append(&mut p);
                    proof {
                        assert(indices@ + indices_from(
                            *state,
                            shard,
                            root,
                            current_epoch_attestations@,
                            t + 1,
                        ) =~= done + (part + indices_from(
                            *state,
                            shard,
                            root,
                            current_epoch_attestations@,
                            t + 1,
                        )));
                    }
                }
                Err(e) => {
                    return Err(e);
                }
            }
        }
        t = t + 1;
    }
    proof {
        assert(indices@ + indices_from(
            *state,
            shard,
            root,
            previous_epoch_attestations@,
            0,
        ) =~= indices_from(*state, shard, root, current_epoch_attestations@, 0) + indices_from(
            *state,
            shard,
            root,
            previous_epoch_attestations@,
            0,
        ));
    }
    let ghost curr_part = indices@;
    let mut t: usize = 0;
    while t < previous_epoch_attestations.len()
        invariant
            0 <= t <= previous_epoch_attestations@.len(),
            crosslink_data_root@ == root,
            participations_ok_in(*state, shard, root, current_epoch_attestations@),
            forall|j: int|
                0 <= j < t && att_matches(
                    #[trigger] previous_epoch_attestations@[j],
                    shard,
                    root,
                ) ==> state.spec_participation_ok(
                    previous_epoch_attestations@[j].data,
                    previous_epoch_attestations@[j].aggregation_bitfield@,
                ),
            indices@ + indices_from(*state, shard, root, previous_epoch_attestations@, t as int)
                == attesting_indices(
                *state,
                shard,
                current_epoch_attestations@,
                previous_epoch_attestations@,
                root,
            ),
        decreases previous_epoch_attestations@.len() - t,
    {
        let a = &previous_epoch_attestations[t];
        if a.data.shard == shard && a.data.crosslink_data_root.eq_bytes(crosslink_data_root) {
            match state.get_attestation_participants(&a.data, &a.aggregation_bitfield) {
                Ok(mut p) => {
                    let ghost done = indices@;
                    let ghost part = p@;
                    indices.append(&mut p);
                    proof {
                        assert(indices@ + indices_from(
                            *state,
                            shard,
                            root,
                            previous_epoch_attestations@,
                            t + 1,
                        ) =~= done + (part + indices_from(
                            *state,
                            shard,
                            root,
                            previous_epoch_attestations@,
                            t + 1,
                        )));
                    }
                }
                Err(e) => {
                    return Err(e);
                }
            }
        }
        t = t + 1;
    }
    Ok(indices)
}

/// Partial balance sums never go negative: every summand is a balance.
pub proof fn lemma_balance_sum_from_nonneg(
    state: BeaconState,
    config: ChainSpec,
    indices: Seq<usize>,
    i: int,
)
    requires
        0 <= i <= indices.len(),
    ensures
        balance_sum_from(state, config, indices, i) >= 0,
    decreases indices.len() - i,
{
    if i < indices.len() {
        lemma_balance_sum_from_nonneg(state, config, indices, i + 1);
    }
}

/// Sum the effective balances of the given indices, one lookup per occurrence.
fn sum_balances(state: &BeaconState, config: &ChainSpec, indices: &Vec<usize>) -> (r: Result<
    u64,
    LookupError,
>)
    requires
        balance_sum(*state, *config, indices@) <= u64::MAX,
    ensures
        all_validators_known(*state, indices@) ==> (r matches Ok(total) && total as int
            == balance_sum(*state, *config, indices@)),
        !all_validators_known(*state, indices@) ==> (r matches Err(e) && e
            == LookupError::UnknownValidator),
{
    let mut total: u64 = 0;
    let mut j: usize = 0;
    while j < indices.len()
        invariant
            0 <= j <= indices@.len(),
            balance_sum(*state, *config, indices@) <= u64::MAX,
            forall|k: int| 0 <= k < j ==> state.spec_validator_known(#[trigger] indices@[k]),
            total as int + balance_sum_from(*state, *config, indices@, j as int) == balance_sum(
                *state,
                *config,
                indices@,
            ),
        decreases indices@.len() - j,
    {
        match state.get_effective_balance(indices[j], config) {
            Ok(b) => {
                proof {
                    lemma_balance_sum_from_nonneg(*state, *config, indices@, j as int + 1);
                }
                total = total + b;
            }
            Err(e) => {
                return Err(e);
            }
        }
        j = j + 1;
    }
    Ok(total)
}

/// No two candidate roots are each better than the other.
proof fn lemma_root_better_asymmetric(
    state: BeaconState,
    config: ChainSpec,
    shard: u64,
    current: Seq<PendingAttestation>,
    previous: Seq<PendingAttestation>,
    r1: Seq<u8>,
    r2: Seq<u8>,
)
    requires
        r1.len() == r2.len(),
    ensures
        !(root_better(state, config, shard, current, previous, r1, r2) && root_better(
            state,
            config,
            shard,
            current,
            previous,
            r2,
            r1,
        )),
{
    lemma_bytes_lt_asymmetric(r1, r2);
}

/// Distinct candidate roots are always comparable.
proof fn lemma_root_better_total(
    state: BeaconState,
    config: ChainSpec,
    shard: u64,
    current: Seq<PendingAttestation>,
    previous: Seq<PendingAttestation>,
    r1: Seq<u8>,
    r2: Seq<u8>,
)
    requires
        r1.len() == r2.len(),
        r1 != r2,
    ensures
        root_better(state, config, shard, current, previous, r1, r2) || root_better(
            state,
            config,
            shard,
            current,
            previous,
            r2,
            r1,
        ),
{
    lemma_bytes_lt_total(r1, r2);
}

/// The candidate ordering is transitive.
proof fn lemma_root_better_transitive(
    state: BeaconState,
    config: ChainSpec,
    shard: u64,
    current: Seq<PendingAttestation>,
    previous: Seq<PendingAttestation>,
    r1: Seq<u8>,
    r2: Seq<u8>,
    r3: Seq<u8>,
)
    requires
        r1.len() == r2.len(),
        r2.len() == r3.len(),
        root_better(state, config, shard, current, previous, r1, r2),
        root_better(state, config, shard, current, previous, r2, r3),
    ensures
        root_better(state, config, shard, current, previous, r1, r3),
{
    if root_balance(state, config, shard, current, previous, r1) == root_balance(
        state,
        config,
        shard,
        current,
        previous,
        r2,
    ) && root_balance(state, config, shard, current, previous, r2) == root_balance(
        state,
        config,
        shard,
        current,
        previous,
        r3,
    ) {
        lemma_bytes_lt_transitive(r1, r2, r3);
    }
}

/// The root appears among the collected hash values.
spec fn root_listed(roots: Seq<Hash256>, root: Seq<u8>) -> bool {
    exists|m: int| 0 <= m < roots.len() && roots[m]@ == root
}

/// Linear scan for a root among those already collected.
fn contains_root(roots: &Vec<Hash256>, root: &Hash256) -> (found: bool)
    ensures
        found == root_listed(roots@, root@),
{
    let mut m: usize = 0;
    while m < roots.len()
        invariant
            0 <= m <= roots@.len(),
            forall|j: int| 0 <= j < m ==> roots@[j]@ != root@,
        decreases roots@.len() - m,
    {
        if roots[m].eq_bytes(root) {
            return true;
        }
        m = m + 1;
    }
    false
}

/// Append to `roots` each crosslink data root that an attestation of the list
/// claims for `shard` and that is not yet listed, keeping the listed roots
/// distinct.
fn collect_matching_roots(roots: &mut Vec<Hash256>, atts: &Vec<PendingAttestation>, shard: u64)
    requires
        forall|m1: int, m2: int|
            0 <= m1 < m2 < old(roots)@.len() ==> old(roots)@[m1]@ != old(roots)@[m2]@,
    ensures
        final(roots)@.len() >= old(roots)@.len(),
        forall|m: int| 0 <= m < old(roots)@.len() ==> final(roots)@[m] == old(roots)@[m],
        forall|m1: int, m2: int|
            0 <= m1 < m2 < final(roots)@.len() ==> final(roots)@[m1]@ != final(roots)@[m2]@,
        forall|m: int|
            #![trigger final(roots)@[m]]
            old(roots)@.len() <= m < final(roots)@.len() ==> claims_root(
                atts@,
                shard,
                final(roots)@[m]@,
            ),
        forall|j: int|
            0 <= j < atts@.len() && (#[trigger] atts@[j]).data.shard == shard ==> root_listed(
                final(roots)@,
                atts@[j].data.crosslink_data_root@,
            ),
{
    let ghost base = roots@;
    let mut t: usize = 0;
    while t < atts.len()
        invariant
            0 <= t <= atts@.len(),
            roots@.len() >= base.len(),
            forall|m: int| 0 <= m < base.len() ==> roots@[m] == base[m],
            forall|m1: int, m2: int| 0 <= m1 < m2 < base.len() ==> base[m1]@ != base[m2]@,
            forall|m1: int, m2: int|
                0 <= m1 < m2 < roots@.len() ==> roots@[m1]@ != roots@[m2]@,
            forall|m: int|
                #![trigger roots@[m]]
                base.len() <= m < roots@.len() ==> claims_root(atts@, shard, roots@[m]@),
            forall|j: int|
                0 <= j < t && (#[trigger] atts@[j]).data.shard == shard ==> root_listed(
                    roots@,
                    atts@[j].data.crosslink_data_root@,
                ),
        decreases atts@.len() - t,
    {
        let a = &atts[t];
        if a.data.shard == shard {
            if !contains_root(roots, &a.data.crosslink_data_root) {
                let ghost before = roots@;
                roots.push(a.data.crosslink_data_root);
                proof {
                    assert(roots@[roots@.len() - 1]@ == atts@[t as int].data.crosslink_data_root@);
                    assert(att_matches(atts@[t as int], shard, roots@[roots@.len() - 1]@));
                    assert forall|j: int|
                        0 <= j < t + 1 && (#[trigger] atts@[j]).data.shard == shard
                            implies root_listed(roots@, atts@[j].data.crosslink_data_root@) by {
                        if j < t {
                            let m = choose|m: int|
                                0 <= m < before.len() && before[m]@
                                    == atts@[j].data.crosslink_data_root@;
                            assert(roots@[m]@ == atts@[j].data.crosslink_data_root@);
                        } else {
                            assert(roots@[roots@.len() - 1]@
                                == atts@[j].data.crosslink_data_root@);
                        }
                    }
                }
            } else {
                proof {
                    assert(root_listed(roots@, atts@[t as int].data.crosslink_data_root@));
                }
            }
        }
        t = t + 1;
    }
}

/// Returns the `crosslink_data_root` with the highest total attesting balance
/// for the given shard, or `None` when no attestation references the shard.
/// Breaks ties by favouring the smaller `crosslink_data_root` hash, so the
/// winner is unique and independent of the order in which the distinct roots
/// are enumerated.
///
/// Any failing lookup aborts the whole computation: the first error met is
/// propagated and no partial result is returned.
pub fn winning_root(
    state: &BeaconState,
    shard: u64,
    current_epoch_attestations: &Vec<PendingAttestation>,
    previous_epoch_attestations: &Vec<PendingAttestation>,
    config: &ChainSpec,
) -> (r: Result<Option<WinningRoot>, LookupError>)
    requires
        forall|root: Seq<u8>|
            #[trigger] shard_roots(
                current_epoch_attestations@,
                previous_epoch_attestations@,
                shard,
            ).contains(root) ==> root_balance(
                *state,
                *config,
                shard,
                current_epoch_attestations@,
                previous_epoch_attestations@,
                root,
            ) <= u64::MAX,
    ensures
        shard_roots(current_epoch_attestations@, previous_epoch_attestations@, shard).is_empty()
            ==> r == Result::<Option<WinningRoot>, LookupError>::Ok(None),
        (r is Err) == some_root_fails(
            *state,
            *config,
            shard,
            current_epoch_attestations@,
            previous_epoch_attestations@,
        ),
        r matches Err(e) ==> exists|root: Seq<u8>|
            #[trigger] shard_roots(
                current_epoch_attestations@,
                previous_epoch_attestations@,
                shard,
            ).contains(root) && root_error(
                *state,
                *config,
                shard,
                current_epoch_attestations@,
                previous_epoch_attestations@,
                root,
            ) == Some(e),
        (!some_root_fails(
            *state,
            *config,
            shard,
            current_epoch_attestations@,
            previous_epoch_attestations@,
        ) && !shard_roots(
            current_epoch_attestations@,
            previous_epoch_attestations@,
            shard,
        ).is_empty()) ==> (r matches Ok(w) && w matches Some(w) && is_winning_root(
            *state,
            *config,
            shard,
            current_epoch_attestations@,
            previous_epoch_attestations@,
            w,
        )),
{
    let ghost ca = current_epoch_attestations@;
    let ghost pa = previous_epoch_attestations@;

    let mut roots: Vec<Hash256> = Vec::new();
    collect_matching_roots(&mut roots, current_epoch_attestations, shard);
    let ghost roots1 = roots@;
    collect_matching_roots(&mut roots, previous_epoch_attestations, shard);

    proof {
        assert forall|m: int| 0 <= m < roots@.len() implies shard_roots(ca, pa, shard).contains(
            (#[trigger] roots@[m])@,
        ) by {
            if m < roots1.len() {
                assert(roots@[m] == roots1[m]);
                assert(claims_root(ca, shard, roots1[m]@));
                assert(roots_in(ca, shard).contains(roots@[m]@));
            } else {
                assert(claims_root(pa, shard, roots@[m]@));
                assert(roots_in(pa, shard).contains(roots@[m]@));
            }
        }
        assert forall|root: Seq<u8>| #[trigger] shard_roots(ca, pa, shard).contains(root)
            implies root_listed(roots@, root) by {
            if roots_in(ca, shard).contains(root) {
                let j = choose|j: int|
                    0 <= j < ca.len() && att_matches(#[trigger] ca[j], shard, root);
                assert(root_listed(roots1, root));
                let m = choose|m: int| 0 <= m < roots1.len() && roots1[m]@ == root;
                assert(roots@[m] == roots1[m]);
            } else {
                assert(roots_in(pa, shard).contains(root));
                let j = choose|j: int|
                    0 <= j < pa.len() && att_matches(#[trigger] pa[j], shard, root);
                assert(root_listed(roots@, root));
            }
        }
    }

    let mut winner: Option<WinningRoot> = None;
    let mut k: usize = 0;
    while k < roots.len()
        invariant
            0 <= k <= roots@.len(),
            ca == current_epoch_attestations@,
            pa == previous_epoch_attestations@,
            forall|root: Seq<u8>|
                #[trigger] shard_roots(ca, pa, shard).contains(root) ==> root_balance(
                    *state,
                    *config,
                    shard,
                    ca,
                    pa,
                    root,
                ) <= u64::MAX,
            forall|m: int|
                0 <= m < roots@.len() ==> shard_roots(ca, pa, shard).contains(
                    (#[trigger] roots@[m])@,
                ),
            forall|m1: int, m2: int|
                0 <= m1 < m2 < roots@.len() ==> roots@[m1]@ != roots@[m2]@,
            forall|root: Seq<u8>|
                #[trigger] shard_roots(ca, pa, shard).contains(root) ==> root_listed(
                    roots@,
                    root,
                ),
            (winner is None) == (k == 0),
            winner matches Some(w) ==> ({
                &&& exists|m: int| 0 <= m < k && (#[trigger] roots@[m])@ == w.crosslink_data_root@
                &&& w.attesting_validator_indices@ == attesting_indices(
                    *state,
                    shard,
                    ca,
                    pa,
                    w.crosslink_data_root@,
                )
                &&& w.total_attesting_balance as int == root_balance(
                    *state,
                    *config,
                    shard,
                    ca,
                    pa,
                    w.crosslink_data_root@,
                )
                &&& forall|m: int|
                    0 <= m < k && (#[trigger] roots@[m])@ != w.crosslink_data_root@
                        ==> root_better(
                        *state,
                        *config,
                        shard,
                        ca,
                        pa,
                        w.crosslink_data_root@,
                        roots@[m]@,
                    )
            }),
            forall|m: int|
                0 <= m < k ==> root_error(*state, *config, shard, ca, pa, (#[trigger] roots@[m])@)
                    is None,
        decreases roots@.len() - k,
    {
        let root = roots[k];
        let ghost groot = roots@[k as int]@;
        proof {
            assert(shard_roots(ca, pa, shard).contains(groot));
        }
        let indices = match get_attesting_validator_indices(
            state,
            shard,
            current_epoch_attestations,
            previous_epoch_attestations,
            &root,
        ) {
            Ok(v) => v,
            Err(e) => {
                proof {
                    assert(!participations_ok(*state, shard, ca, pa, groot));
                    assert(root_error(*state, *config, shard, ca, pa, groot) == Some(
                        LookupError::InvalidParticipation,
                    ));
                    assert(some_root_fails(*state, *config, shard, ca, pa));
                }
                return Err(e);
            }
        };
        proof {
            assert(participations_ok(*state, shard, ca, pa, groot));
            assert(indices@ == attesting_indices(*state, shard, ca, pa, groot));
            assert(balance_sum(*state, *config, indices@) == root_balance(
                *state,
                *config,
                shard,
                ca,
                pa,
                groot,
            ));
        }
        let total = match sum_balances(state, config, &indices) {
            Ok(t) => t,
            Err(e) => {
                proof {
                    assert(!all_validators_known(*state, indices@));
                    assert(root_error(*state, *config, shard, ca, pa, groot) == Some(
                        LookupError::UnknownValidator,
                    ));
                    assert(some_root_fails(*state, *config, shard, ca, pa));
                }
                return Err(e);
            }
        };
        let candidate = WinningRoot {
            crosslink_data_root: root,
            attesting_validator_indices: indices,
            total_attesting_balance: total,
        };
        proof {
            assert(candidate.crosslink_data_root@ == groot);
            assert(root_error(*state, *config, shard, ca, pa, groot) is None);
        }
        winner = match winner {
            None => Some(candidate),
            Some(w) => {
                if candidate.is_better_than(&w) {
                    proof {
                        let wroot = w.crosslink_data_root@;
                        assert(root_better(*state, *config, shard, ca, pa, groot, wroot));
                        assert forall|m: int|
                            0 <= m < k + 1 && (#[trigger] roots@[m])@ != groot
                                implies root_better(
                            *state,
                            *config,
                            shard,
                            ca,
                            pa,
                            groot,
                            roots@[m]@,
                        ) by {
                            if m < k && roots@[m]@ != wroot {
                                lemma_root_better_transitive(
                                    *state,
                                    *config,
                                    shard,
                                    ca,
                                    pa,
                                    groot,
                                    wroot,
                                    roots@[m]@,
                                );
                            }
                        }
                    }
                    Some(candidate)
                } else {
                    proof {
                        let wroot = w.crosslink_data_root@;
                        let m0 = choose|m: int| 0 <= m < k && (#[trigger] roots@[m])@ == wroot;
                        assert(roots@[m0]@ != roots@[k as int]@);
                        lemma_root_better_total(*state, *config, shard, ca, pa, wroot, groot);
                        assert(root_better(*state, *config, shard, ca, pa, wroot, groot));
                    }
                    Some(w)
                }
            }
        };
        k = k + 1;
    }

    match winner {
        None => {
            proof {
                assert(roots@.len() == 0);
                assert forall|root: Seq<u8>| !(#[trigger] shard_roots(ca, pa, shard).contains(
                    root,
                )) by {
                    if shard_roots(ca, pa, shard).contains(root) {
                        let m = choose|m: int| 0 <= m < roots@.len() && roots@[m]@ == root;
                        assert(false);
                    }
                }
                assert(shard_roots(ca, pa, shard) =~= Set::<Seq<u8>>::empty());
                assert(!some_root_fails(*state, *config, shard, ca, pa)) by {
                    if some_root_fails(*state, *config, shard, ca, pa) {
                        let root = choose|root: Seq<u8>|
                            #[trigger] shard_roots(ca, pa, shard).contains(root) && root_error(
                                *state,
                                *config,
                                shard,
                                ca,
                                pa,
                                root,
                            ) is Some;
                        assert(shard_roots(ca, pa, shard).contains(root));
                        assert(false);
                    }
                }
            }
            Ok(None)
        }
        Some(w) => {
            proof {
                let wroot = w.crosslink_data_root@;
                let m0 = choose|m: int| 0 <= m < k && (#[trigger] roots@[m])@ == wroot;
                assert(shard_roots(ca, pa, shard).contains(wroot));
                assert forall|other: Seq<u8>|
                    #[trigger] shard_roots(ca, pa, shard).contains(other) && other != wroot
                        implies root_better(*state, *config, shard, ca, pa, wroot, other) by {
                    assert(root_listed(roots@, other));
                    let m = choose|m: int| 0 <= m < roots@.len() && roots@[m]@ == other;
                    assert(roots@[m]@ != wroot);
                    assert(root_better(*state, *config, shard, ca, pa, wroot, roots@[m]@));
                }
                assert(is_winning_root(*state, *config, shard, ca, pa, w));
                assert forall|root: Seq<u8>| #[trigger] shard_roots(ca, pa, shard).contains(root)
                    implies !(root_error(*state, *config, shard, ca, pa, root) is Some) by {
                    assert(root_listed(roots@, root));
                    let m = choose|m: int| 0 <= m < roots@.len() && roots@[m]@ == root;
                    assert(root_error(*state, *config, shard, ca, pa, roots@[m]@) is None);
                }
                assert(!some_root_fails(*state, *config, shard, ca, pa)) by {
                    if some_root_fails(*state, *config, shard, ca, pa) {
                        let root = choose|root: Seq<u8>|
                            #[trigger] shard_roots(ca, pa, shard).contains(root) && root_error(
                                *state,
                                *config,
                                shard,
                                ca,
                                pa,
                                root,
                            ) is Some;
                        assert(!(root_error(*state, *config, shard, ca, pa, root) is Some));
                        assert(false);
                    }
                }
                assert(!shard_roots(ca, pa, shard).is_empty()) by {
                    if shard_roots(ca, pa, shard).is_empty() {
                        assert(shard_roots(ca, pa, shard) =~= Set::<Seq<u8>>::empty());
                        assert(!shard_roots(ca, pa, shard).contains(wroot));
                    }
                }
            }
            Ok(Some(w))
        }
    }
}

proof fn lemma_balance_sum_from_shift(
    state: BeaconState,
    config: ChainSpec,
    s1: Seq<usize>,
    s2: Seq<usize>,
    j: int,
)
    requires
        0 <= j <= s2.len(),
    ensures
        balance_sum_from(state, config, s1 + s2, s1.len() + j) == balance_sum_from(
            state,
            config,
            s2,
            j,
        ),
    decreases s2.len() - j,
{
    if j < s2.len() {
        assert((s1 + s2)[s1.len() + j] == s2[j]);
        lemma_balance_sum_from_shift(state, config, s1, s2, j + 1);
    }
}

proof fn lemma_balance_sum_from_concat(
    state: BeaconState,
    config: ChainSpec,
    s1: Seq<usize>,
    s2: Seq<usize>,
    i: int,
)
    requires
        0 <= i <= s1.len(),
    ensures
        balance_sum_from(state, config, s1 + s2, i) == balance_sum_from(state, config, s1, i)
            + balance_sum(state, config, s2),
    decreases s1.len() - i,
{
    if i < s1.len() {
        assert((s1 + s2)[i] == s1[i]);
        lemma_balance_sum_from_concat(state, config, s1, s2, i + 1);
    } else {
        lemma_balance_sum_from_shift(state, config, s1, s2, 0);
        assert(s1.len() + 0 == i);
    }
}

/// Balance totals add up over concatenation: every occurrence of a validator
/// index contributes its effective balance once per occurrence, so an index
/// credited by both the current-epoch and the previous-epoch records is
/// counted twice, never deduplicated.
pub proof fn lemma_balance_sum_concat(
    state: BeaconState,
    config: ChainSpec,
    s1: Seq<usize>,
    s2: Seq<usize>,
)
    ensures
        balance_sum(state, config, s1 + s2) == balance_sum(state, config, s1) + balance_sum(
            state,
            config,
            s2,
        ),
{
    lemma_balance_sum_from_concat(state, config, s1, s2, 0);
}

proof fn lemma_indices_from_push(
    state: BeaconState,
    shard: u64,
    root: Seq<u8>,
    atts: Seq<PendingAttestation>,
    a: PendingAttestation,
    i: int,
)
    requires
        0 <= i <= atts.len(),
    ensures
        indices_from(state, shard, root, atts.push(a), i) == indices_from(
            state,
            shard,
            root,
            atts,
            i,
        ) + (if att_matches(a, shard, root) {
            state.spec_participants(a.data, a.aggregation_bitfield@)
        } else {
            Seq::<usize>::empty()
        }),
    decreases atts.len() - i,
{
    let tail = if att_matches(a, shard, root) {
        state.spec_participants(a.data, a.aggregation_bitfield@)
    } else {
        Seq::<usize>::empty()
    };
    if i < atts.len() {
        assert(atts.push(a)[i] == atts[i]);
        lemma_indices_from_push(state, shard, root, atts, a, i + 1);
        if att_matches(atts[i], shard, root) {
            let part = state.spec_participants(atts[i].data, atts[i].aggregation_bitfield@);
            assert(part + (indices_from(state, shard, root, atts, i + 1) + tail) =~= (part
                + indices_from(state, shard, root, atts, i + 1)) + tail);
        }
    } else {
        assert(atts.push(a)[i] == a);
        assert(indices_from(state, shard, root, atts.push(a), i + 1) =~= Seq::<usize>::empty());
        assert(indices_from(state, shard, root, atts.push(a), i) =~= tail);
        assert(indices_from(state, shard, root, atts, i) + tail =~= tail);
    }
}

/// Adding another attestation record for a candidate root cannot decrease
/// that root's total attesting balance, and leaves every other root's
/// credited indices and balance unchanged; in particular the root keeps any
/// advantage it had over another candidate.
pub proof fn lemma_new_attestation_monotone(
    state: BeaconState,
    config: ChainSpec,
    shard: u64,
    current: Seq<PendingAttestation>,
    previous: Seq<PendingAttestation>,
    a: PendingAttestation,
    other: Seq<u8>,
)
    requires
        a.data.shard == shard,
        other != a.data.crosslink_data_root@,
    ensures
        root_balance(state, config, shard, current.push(a), previous, a.data.crosslink_data_root@)
            >= root_balance(state, config, shard, current, previous, a.data.crosslink_data_root@),
        attesting_indices(state, shard, current.push(a), previous, other) == attesting_indices(
            state,
            shard,
            current,
            previous,
            other,
        ),
        root_balance(state, config, shard, current.push(a), previous, other) == root_balance(
            state,
            config,
            shard,
            current,
            previous,
            other,
        ),
        root_better(state, config, shard, current, previous, a.data.crosslink_data_root@, other)
            ==> root_better(
            state,
            config,
            shard,
            current.push(a),
            previous,
            a.data.crosslink_data_root@,
            other,
        ),
{
    let r = a.data.crosslink_data_root@;
    let part = state.spec_participants(a.data, a.aggregation_bitfield@);
    let cur_r = indices_from(state, shard, r, current, 0);
    let prev_r = indices_from(state, shard, r, previous, 0);

    lemma_indices_from_push(state, shard, r, current, a, 0);
    assert(indices_from(state, shard, r, current.push(a), 0) == cur_r + part);
    assert(attesting_indices(state, shard, current.push(a), previous, r) == (cur_r + part)
        + prev_r);
    lemma_balance_sum_concat(state, config, cur_r + part, prev_r);
    lemma_balance_sum_concat(state, config, cur_r, part);
    lemma_balance_sum_concat(state, config, cur_r, prev_r);
    lemma_balance_sum_from_nonneg(state, config, part, 0);

    lemma_indices_from_push(state, shard, other, current, a, 0);
    assert(indices_from(state, shard, other, current.push(a), 0) =~= indices_from(
        state,
        shard,
        other,
        current,
        0,
    ));
}

/// For fixed inputs the winner is unique: any two candidates satisfying
/// `is_winning_root` agree on the root, the credited indices and the total
/// balance. The selector's result therefore does not depend on the order in
/// which the distinct roots are enumerated internally.
pub proof fn lemma_winning_root_unique(
    state: BeaconState,
    config: ChainSpec,
    shard: u64,
    current: Seq<PendingAttestation>,
    previous: Seq<PendingAttestation>,
    w1: WinningRoot,
    w2: WinningRoot,
)
    requires
        is_winning_root(state, config, shard, current, previous, w1),
        is_winning_root(state, config, shard, current, previous, w2),
    ensures
        w1.crosslink_data_root@ == w2.crosslink_data_root@,
        w1.attesting_validator_indices@ == w2.attesting_validator_indices@,
        w1.total_attesting_balance == w2.total_attesting_balance,
{
    let r1 = w1.crosslink_data_root@;
    let r2 = w2.crosslink_data_root@;
    if r1 != r2 {
        assert(root_better(state, config, shard, current, previous, r1, r2));
        assert(root_better(state, config, shard, current, previous, r2, r1));
        lemma_root_better_asymmetric(state, config, shard, current, previous, r1, r2);
        assert(false);
    }
}

/// With exactly two candidate roots of equal total attesting balance, the
/// winner is the smaller root under the canonical byte ordering.
pub proof fn lemma_tie_break(
    state: BeaconState,
    config: ChainSpec,
    shard: u64,
    current: Seq<PendingAttestation>,
    previous: Seq<PendingAttestation>,
    w: WinningRoot,
    r1: Seq<u8>,
    r2: Seq<u8>,
)
    requires
        is_winning_root(state, config, shard, current, previous, w),
        shard_roots(current, previous, shard).contains(r1),
        shard_roots(current, previous, shard).contains(r2),
        forall|root: Seq<u8>|
            #[trigger] shard_roots(current, previous, shard).contains(root) ==> root == r1 || root
                == r2,
        r1.len() == r2.len(),
        bytes_lt(r1, r2),
        root_balance(state, config, shard, current, previous, r1) == root_balance(
            state,
            config,
            shard,
            current,
            previous,
            r2,
        ),
    ensures
        w.crosslink_data_root@ == r1,
{
    let wr = w.crosslink_data_root@;
    assert(wr == r1 || wr == r2);
    lemma_bytes_lt_irreflexive(r1);
    assert(r1 != r2);
    if wr == r2 {
        assert(root_better(state, config, shard, current, previous, r2, r1));
        assert(bytes_lt(r2, r1));
        lemma_bytes_lt_asymmetric(r1, r2);
        assert(false);
    }
}

/// One attestation record's contribution to a root's total: the summed
/// balance of its participants when the record matches, nothing otherwise.
pub open spec fn att_contribution(
    state: BeaconState,
    config: ChainSpec,
    shard: u64,
    root: Seq<u8>,
    a: PendingAttestation,
) -> int {
    if att_matches(a, shard, root) {
        balance_sum(state, config, state.spec_participants(a.data, a.aggregation_bitfield@))
    } else {
        0
    }
}

/// The balance one attestation list contributes to a root: the sum of its
/// records' contributions.
pub open spec fn list_balance(
    state: BeaconState,
    config: ChainSpec,
    shard: u64,
    root: Seq<u8>,
    atts: Seq<PendingAttestation>,
) -> int
    decreases atts.len(),
{
    if atts.len() == 0 {
        0
    } else {
        att_contribution(state, config, shard, root, atts[0]) + list_balance(
            state,
            config,
            shard,
            root,
            atts.drop_first(),
        )
    }
}

proof fn lemma_indices_balance_is_list_balance(
    state: BeaconState,
    config: ChainSpec,
    shard: u64,
    root: Seq<u8>,
    atts: Seq<PendingAttestation>,
    i: int,
)
    requires
        0 <= i <= atts.len(),
    ensures
        balance_sum(state, config, indices_from(state, shard, root, atts, i)) == list_balance(
            state,
            config,
            shard,
            root,
            atts.skip(i),
        ),
    decreases atts.len() - i,
{
    if i < atts.len() {
        lemma_indices_balance_is_list_balance(state, config, shard, root, atts, i + 1);
        assert(atts.skip(i).drop_first() =~= atts.skip(i + 1));
        assert(atts.skip(i)[0] == atts[i]);
        if att_matches(atts[i], shard, root) {
            lemma_balance_sum_concat(
                state,
                config,
                state.spec_participants(atts[i].data, atts[i].aggregation_bitfield@),
                indices_from(state, shard, root, atts, i + 1),
            );
        }
    } else {
        assert(atts.skip(i) =~= Seq::<PendingAttestation>::empty());
    }
}

proof fn lemma_list_balance_remove(
    state: BeaconState,
    config: ChainSpec,
    shard: u64,
    root: Seq<u8>,
    atts: Seq<PendingAttestation>,
    i: int,
)
    requires
        0 <= i < atts.len(),
    ensures
        list_balance(state, config, shard, root, atts) == att_contribution(
            state,
            config,
            shard,
            root,
            atts[i],
        ) + list_balance(state, config, shard, root, atts.remove(i)),
    decreases i,
{
    if i == 0 {
        assert(atts.remove(0) =~= atts.drop_first());
    } else {
        lemma_list_balance_remove(state, config, shard, root, atts.drop_first(), i - 1);
        assert(atts.drop_first()[i - 1] == atts[i]);
        assert(atts.remove(i).drop_first() =~= atts.drop_first().remove(i - 1));
        assert(atts.remove(i)[0] == atts[0]);
    }
}

proof fn lemma_list_balance_permutation(
    state: BeaconState,
    config: ChainSpec,
    shard: u64,
    root: Seq<u8>,
    s1: Seq<PendingAttestation>,
    s2: Seq<PendingAttestation>,
)
    requires
        s1.to_multiset() == s2.to_multiset(),
    ensures
        list_balance(state, config, shard, root, s1) == list_balance(
            state,
            config,
            shard,
            root,
            s2,
        ),
    decreases s1.len(),
{
    broadcast use vstd::seq_lib::group_to_multiset_ensures;

    if s1.len() == 0 {
        assert(s2.to_multiset().len() == 0);
        assert(s2.len() == 0);
    } else {
        let a = s1[0];
        assert(s1.contains(a));
        assert(s1.to_multiset().count(a) > 0);
        assert(s2.to_multiset().count(a) > 0);
        assert(s2.contains(a));
        let i = choose|i: int| 0 <= i < s2.len() && s2[i] == a;
        assert(s1.drop_first() =~= s1.remove(0));
        assert(s1.remove(0).to_multiset() =~= s1.to_multiset().remove(a));
        assert(s2.remove(i).to_multiset() =~= s2.to_multiset().remove(a));
        lemma_list_balance_permutation(state, config, shard, root, s1.drop_first(), s2.remove(i));
        lemma_list_balance_remove(state, config, shard, root, s2, i);
    }
}

proof fn lemma_claims_root_permutation(
    shard: u64,
    root: Seq<u8>,
    s1: Seq<PendingAttestation>,
    s2: Seq<PendingAttestation>,
)
    requires
        s1.to_multiset() == s2.to_multiset(),
    ensures
        claims_root(s1, shard, root) == claims_root(s2, shard, root),
{
    broadcast use vstd::seq_lib::group_to_multiset_ensures;

    if claims_root(s1, shard, root) {
        let j = choose|j: int| 0 <= j < s1.len() && att_matches(#[trigger] s1[j], shard, root);
        let a = s1[j];
        assert(s1.contains(a));
        assert(s1.to_multiset().count(a) > 0);
        assert(s2.to_multiset().count(a) > 0);
        assert(s2.contains(a));
        let i = choose|i: int| 0 <= i < s2.len() && s2[i] == a;
        assert(att_matches(s2[i], shard, root));
        assert(claims_root(s2, shard, root));
    }
    if claims_root(s2, shard, root) {
        let j = choose|j: int| 0 <= j < s2.len() && att_matches(#[trigger] s2[j], shard, root);
        let a = s2[j];
        assert(s2.contains(a));
        assert(s2.to_multiset().count(a) > 0);
        assert(s1.to_multiset().count(a) > 0);
        assert(s1.contains(a));
        let i = choose|i: int| 0 <= i < s1.len() && s1[i] == a;
        assert(att_matches(s1[i], shard, root));
        assert(claims_root(s1, shard, root));
    }
}

/// Shuffling the attestation lists changes nothing the selection depends on:
/// with the same records in any order, the candidate root set and every
/// root's total attesting balance are unchanged. Only the order of the
/// credited index list may differ.
pub proof fn lemma_shuffle_invariant(
    state: BeaconState,
    config: ChainSpec,
    shard: u64,
    current1: Seq<PendingAttestation>,
    previous1: Seq<PendingAttestation>,
    current2: Seq<PendingAttestation>,
    previous2: Seq<PendingAttestation>,
    root: Seq<u8>,
)
    requires
        current1.to_multiset() == current2.to_multiset(),
        previous1.to_multiset() == previous2.to_multiset(),
    ensures
        shard_roots(current1, previous1, shard) == shard_roots(current2, previous2, shard),
        root_balance(state, config, shard, current1, previous1, root) == root_balance(
            state,
            config,
            shard,
            current2,
            previous2,
            root,
        ),
{
    assert forall|r: Seq<u8>|
        #[trigger] shard_roots(current1, previous1, shard).contains(r) == shard_roots(
            current2,
            previous2,
            shard,
        ).contains(r) by {
        lemma_claims_root_permutation(shard, r, current1, current2);
        lemma_claims_root_permutation(shard, r, previous1, previous2);
    }
    assert(shard_roots(current1, previous1, shard) =~= shard_roots(current2, previous2, shard));

    lemma_indices_balance_is_list_balance(state, config, shard, root, current1, 0);
    lemma_indices_balance_is_list_balance(state, config, shard, root, current2, 0);
    lemma_indices_balance_is_list_balance(state, config, shard, root, previous1, 0);
    lemma_indices_balance_is_list_balance(state, config, shard, root, previous2, 0);
    assert(current1.skip(0) =~= current1);
    assert(current2.skip(0) =~= current2);
    assert(previous1.skip(0) =~= previous1);
    assert(previous2.skip(0) =~= previous2);
    lemma_balance_sum_concat(
        state,
        config,
        indices_from(state, shard, root, current1, 0),
        indices_from(state, shard, root, previous1, 0),
    );
    lemma_balance_sum_concat(
        state,
        config,
        indices_from(state, shard, root, current2, 0),
        indices_from(state, shard, root, previous2, 0),
    );
    lemma_list_balance_permutation(state, config, shard, root, current1, current2);
    lemma_list_balance_permutation(state, config, shard, root, previous1, previous2);
}

/// Determinism under shuffling: winners computed from reordered attestation
/// lists agree on the winning root and on its total attesting balance.
pub proof fn lemma_shuffle_same_winner(
    state: BeaconState,
    config: ChainSpec,
    shard: u64,
    current1: Seq<PendingAttestation>,
    previous1: Seq<PendingAttestation>,
    current2: Seq<PendingAttestation>,
    previous2: Seq<PendingAttestation>,
    w1: WinningRoot,
    w2: WinningRoot,
)
    requires
        current1.to_multiset() == current2.to_multiset(),
        previous1.to_multiset() == previous2.to_multiset(),
        is_winning_root(state, config, shard, current1, previous1, w1),
        is_winning_root(state, config, shard, current2, previous2, w2),
    ensures
        w1.crosslink_data_root@ == w2.crosslink_data_root@,
        w1.total_attesting_balance == w2.total_attesting_balance,
{
    let r1 = w1.crosslink_data_root@;
    let r2 = w2.crosslink_data_root@;
    lemma_shuffle_invariant(state, config, shard, current1, previous1, current2, previous2, r1);
    lemma_shuffle_invariant(state, config, shard, current1, previous1, current2, previous2, r2);
    if r1 != r2 {
        assert(shard_roots(current1, previous1, shard).contains(r2));
        assert(root_better(state, config, shard, current1, previous1, r1, r2));
        assert(shard_roots(current2, previous2, shard).contains(r1));
        assert(root_better(state, config, shard, current2, previous2, r2, r1));
        assert(root_better(state, config, shard, current1, previous1, r2, r1));
        lemma_root_better_asymmetric(state, config, shard, current1, previous1, r1, r2);
        assert(false);
    }
}

/// `is_better_than` is asymmetric: two candidates are never each better than
/// the other.
pub proof fn lemma_is_better_than_asymmetric(a: WinningRoot, b: WinningRoot)
    ensures
        !(a.spec_is_better_than(b) && b.spec_is_better_than(a)),
{
    lemma_bytes_lt_asymmetric(a.crosslink_data_root@, b.crosslink_data_root@);
}

/// For candidates with distinct roots, exactly one direction of
/// `is_better_than` holds: decided by the balances when they differ, and by
/// the canonical root ordering when they tie.
pub proof fn lemma_is_better_than_total(a: WinningRoot, b: WinningRoot)
    requires
        a.crosslink_data_root@ != b.crosslink_data_root@,
    ensures
        a.spec_is_better_than(b) || b.spec_is_better_than(a),
        !(a.spec_is_better_than(b) && b.spec_is_better_than(a)),
        a.total_attesting_balance == b.total_attesting_balance ==> (a.spec_is_better_than(b)
            <==> bytes_lt(a.crosslink_data_root@, b.crosslink_data_root@)),
{
    lemma_bytes_lt_total(a.crosslink_data_root@, b.crosslink_data_root@);
    lemma_bytes_lt_asymmetric(a.crosslink_data_root@, b.crosslink_data_root@);
}

} // verus!
