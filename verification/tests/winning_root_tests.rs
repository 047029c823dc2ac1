use crosslink::attestation::{AttestationData, ChainSpec, LookupError, PendingAttestation};
use crosslink::beacon_state::{BeaconState, CrosslinkCommittee};
use crosslink::hash256::Hash256;
use crosslink::winning_root::{get_attesting_validator_indices, winning_root, WinningRoot};

fn hash(b: u8) -> Hash256 {
    Hash256 { bytes: [b; 32] }
}

fn att(slot: u64, shard: u64, root: Hash256, bits: Vec<bool>) -> PendingAttestation {
    PendingAttestation {
        data: AttestationData { slot, shard, crosslink_data_root: root },
        aggregation_bitfield: bits,
    }
}

fn committee(slot: u64, shard: u64, members: Vec<usize>) -> CrosslinkCommittee {
    CrosslinkCommittee { slot, shard, committee: members }
}

fn candidate(root: Hash256, balance: u64) -> WinningRoot {
    WinningRoot {
        crosslink_data_root: root,
        attesting_validator_indices: vec![],
        total_attesting_balance: balance,
    }
}

#[test]
fn no_attestations_for_shard_yields_no_winner() {
    let state = BeaconState {
        validator_balances: vec![32, 32],
        crosslink_committees: vec![committee(0, 7, vec![0, 1])],
    };
    let config = ChainSpec { max_effective_balance: 32 };
    let current = vec![att(0, 7, hash(0xAA), vec![true, true])];
    let previous = vec![];
    let result = winning_root(&state, 3, &current, &previous, &config);
    match result {
        Ok(None) => {}
        _ => panic!("expected no winner for shard 3"),
    }
}

#[test]
fn single_attestation_sums_each_participant() {
    let members: Vec<usize> = (0..10).collect();
    let state = BeaconState {
        validator_balances: vec![32; 10],
        crosslink_committees: vec![committee(0, 3, members)],
    };
    let config = ChainSpec { max_effective_balance: 32 };
    let current = vec![att(0, 3, hash(0xAA), vec![true; 10])];
    let previous = vec![];
    let result = winning_root(&state, 3, &current, &previous, &config);
    match result {
        Ok(Some(w)) => {
            assert_eq!(w.total_attesting_balance, 320);
            assert_eq!(w.attesting_validator_indices.len(), 10);
            assert_eq!(w.crosslink_data_root.bytes, [0xAA; 32]);
        }
        _ => panic!("expected a winner"),
    }
}

#[test]
fn equal_balance_tie_prefers_lower_root() {
    let state = BeaconState {
        validator_balances: vec![50, 50, 50, 50],
        crosslink_committees: vec![
            committee(0, 3, vec![0, 1]),
            committee(1, 3, vec![2, 3]),
        ],
    };
    let config = ChainSpec { max_effective_balance: 10000 };
    let current = vec![
        att(1, 3, hash(0x02), vec![true, true]),
        att(0, 3, hash(0x01), vec![true, true]),
    ];
    let previous = vec![];
    let result = winning_root(&state, 3, &current, &previous, &config);
    match result {
        Ok(Some(w)) => {
            assert_eq!(w.crosslink_data_root.bytes, [0x01; 32]);
            assert_eq!(w.total_attesting_balance, 100);
        }
        _ => panic!("expected a winner"),
    }
}

#[test]
fn higher_balance_beats_lower_root() {
    let state = BeaconState {
        validator_balances: vec![100, 200],
        crosslink_committees: vec![
            committee(0, 3, vec![0]),
            committee(1, 3, vec![1]),
        ],
    };
    let config = ChainSpec { max_effective_balance: 10000 };
    let current = vec![
        att(0, 3, hash(0x01), vec![true]),
        att(1, 3, hash(0x02), vec![true]),
    ];
    let previous = vec![];
    let result = winning_root(&state, 3, &current, &previous, &config);
    match result {
        Ok(Some(w)) => {
            assert_eq!(w.crosslink_data_root.bytes, [0x02; 32]);
            assert_eq!(w.total_attesting_balance, 200);
        }
        _ => panic!("expected a winner"),
    }
}

#[test]
fn two_attestations_same_root_accumulate() {
    let state = BeaconState {
        validator_balances: vec![32, 16],
        crosslink_committees: vec![committee(0, 3, vec![0, 1])],
    };
    let config = ChainSpec { max_effective_balance: 32 };
    let current = vec![
        att(0, 3, hash(0xAA), vec![true, false]),
        att(0, 3, hash(0xAA), vec![false, true]),
    ];
    let previous = vec![];
    let result = winning_root(&state, 3, &current, &previous, &config);
    match result {
        Ok(Some(w)) => {
            assert_eq!(w.total_attesting_balance, 48);
            assert_eq!(w.attesting_validator_indices, vec![0, 1]);
        }
        _ => panic!("expected a winner"),
    }
}

#[test]
fn duplicate_index_counted_twice() {
    let state = BeaconState {
        validator_balances: vec![0, 0, 0, 0, 0, 32],
        crosslink_committees: vec![committee(0, 3, vec![5])],
    };
    let config = ChainSpec { max_effective_balance: 32 };
    let current = vec![att(0, 3, hash(0xAA), vec![true])];
    let previous = vec![att(0, 3, hash(0xAA), vec![true])];
    let result = winning_root(&state, 3, &current, &previous, &config);
    match result {
        Ok(Some(w)) => {
            assert_eq!(w.total_attesting_balance, 64);
            assert_eq!(w.attesting_validator_indices, vec![5, 5]);
        }
        _ => panic!("expected a winner"),
    }
}

#[test]
fn shuffled_inputs_same_winner() {
    let state = BeaconState {
        validator_balances: vec![10, 20, 30, 40],
        crosslink_committees: vec![
            committee(0, 3, vec![0, 1]),
            committee(1, 3, vec![2, 3]),
        ],
    };
    let config = ChainSpec { max_effective_balance: 100 };
    let a1 = || att(0, 3, hash(0x30), vec![true, true]);
    let a2 = || att(1, 3, hash(0x20), vec![true, false]);
    let a3 = || att(1, 3, hash(0x30), vec![false, true]);
    let first = winning_root(&state, 3, &vec![a1(), a2(), a3()], &vec![], &config);
    let second = winning_root(&state, 3, &vec![a3(), a1(), a2()], &vec![], &config);
    match (first, second) {
        (Ok(Some(w1)), Ok(Some(w2))) => {
            assert_eq!(w1.crosslink_data_root.bytes, w2.crosslink_data_root.bytes);
            assert_eq!(w1.total_attesting_balance, w2.total_attesting_balance);
            assert_eq!(w1.crosslink_data_root.bytes, [0x30; 32]);
            assert_eq!(w1.total_attesting_balance, 70);
        }
        _ => panic!("expected winners from both invocations"),
    }
}

#[test]
fn bitfield_length_mismatch_is_invalid_participation() {
    let state = BeaconState {
        validator_balances: vec![32],
        crosslink_committees: vec![committee(0, 3, vec![0])],
    };
    let config = ChainSpec { max_effective_balance: 32 };
    let current = vec![att(0, 3, hash(0xAA), vec![true, true])];
    let previous = vec![];
    let result = winning_root(&state, 3, &current, &previous, &config);
    match result {
        Err(LookupError::InvalidParticipation) => {}
        _ => panic!("expected an invalid-participation error"),
    }
}

#[test]
fn missing_committee_is_invalid_participation() {
    let state = BeaconState {
        validator_balances: vec![32],
        crosslink_committees: vec![committee(9, 3, vec![0])],
    };
    let config = ChainSpec { max_effective_balance: 32 };
    let current = vec![att(0, 3, hash(0xAA), vec![true])];
    let previous = vec![];
    let result = winning_root(&state, 3, &current, &previous, &config);
    match result {
        Err(LookupError::InvalidParticipation) => {}
        _ => panic!("expected an invalid-participation error"),
    }
}

#[test]
fn unknown_validator_index_is_reported() {
    let state = BeaconState {
        validator_balances: vec![32],
        crosslink_committees: vec![committee(0, 3, vec![99])],
    };
    let config = ChainSpec { max_effective_balance: 32 };
    let current = vec![att(0, 3, hash(0xAA), vec![true])];
    let previous = vec![];
    let result = winning_root(&state, 3, &current, &previous, &config);
    match result {
        Err(LookupError::UnknownValidator) => {}
        _ => panic!("expected an unknown-validator error"),
    }
}

#[test]
fn effective_balance_is_capped() {
    let state = BeaconState {
        validator_balances: vec![100],
        crosslink_committees: vec![committee(0, 3, vec![0])],
    };
    let config = ChainSpec { max_effective_balance: 32 };
    assert_eq!(state.get_effective_balance(0, &config), Ok(32));
    let current = vec![att(0, 3, hash(0xAA), vec![true])];
    let previous = vec![];
    match winning_root(&state, 3, &current, &previous, &config) {
        Ok(Some(w)) => assert_eq!(w.total_attesting_balance, 32),
        _ => panic!("expected a winner"),
    }
}

#[test]
fn attesting_indices_list_current_epoch_first() {
    let state = BeaconState {
        validator_balances: vec![32, 32, 32],
        crosslink_committees: vec![
            committee(0, 3, vec![1]),
            committee(1, 3, vec![2]),
        ],
    };
    let current = vec![att(0, 3, hash(0xAA), vec![true])];
    let previous = vec![att(1, 3, hash(0xAA), vec![true])];
    let result =
        get_attesting_validator_indices(&state, 3, &current, &previous, &hash(0xAA));
    assert_eq!(result, Ok(vec![1, 2]));
}

#[test]
fn attesting_indices_skip_other_roots_and_shards() {
    let state = BeaconState {
        validator_balances: vec![32, 32, 32],
        crosslink_committees: vec![
            committee(0, 3, vec![0]),
            committee(0, 4, vec![1]),
            committee(1, 3, vec![2]),
        ],
    };
    let current = vec![
        att(0, 3, hash(0xAA), vec![true]),
        att(0, 4, hash(0xAA), vec![true]),
        att(1, 3, hash(0xBB), vec![true]),
    ];
    let previous = vec![];
    let result =
        get_attesting_validator_indices(&state, 3, &current, &previous, &hash(0xAA));
    assert_eq!(result, Ok(vec![0]));
}

#[test]
fn participation_expansion_follows_the_bitfield() {
    let state = BeaconState {
        validator_balances: vec![32; 4],
        crosslink_committees: vec![committee(0, 3, vec![7, 8, 9, 10])],
    };
    let data = AttestationData { slot: 0, shard: 3, crosslink_data_root: hash(0xAA) };
    let bits = vec![true, false, true, false];
    assert_eq!(state.get_attestation_participants(&data, &bits), Ok(vec![7, 9]));
}

#[test]
fn is_better_than_prefers_higher_balance() {
    let a = candidate(hash(0xFF), 101);
    let b = candidate(hash(0x00), 100);
    assert!(a.is_better_than(&b));
    assert!(!b.is_better_than(&a));
}

#[test]
fn is_better_than_tie_prefers_lower_root() {
    let a = candidate(hash(0x01), 100);
    let b = candidate(hash(0x02), 100);
    assert!(a.is_better_than(&b));
    assert!(!b.is_better_than(&a));
}

#[test]
fn is_better_than_never_holds_both_ways() {
    let roots = [0x00u8, 0x01, 0xFE, 0xFF];
    let balances = [0u64, 1, 100, u64::MAX];
    for &r1 in &roots {
        for &b1 in &balances {
            for &r2 in &roots {
                for &b2 in &balances {
                    let a = candidate(hash(r1), b1);
                    let b = candidate(hash(r2), b2);
                    assert!(!(a.is_better_than(&b) && b.is_better_than(&a)));
                    if r1 != r2 {
                        assert!(a.is_better_than(&b) || b.is_better_than(&a));
                    }
                }
            }
        }
    }
}

#[test]
fn hash_ordering_is_big_endian() {
    let mut low = [0u8; 32];
    let mut high = [0u8; 32];
    low[31] = 0xFF;
    high[0] = 0x01;
    let low = Hash256 { bytes: low };
    let high = Hash256 { bytes: high };
    assert!(low.lt(&high));
    assert!(!high.lt(&low));
    assert!(!low.lt(&low));
    assert!(low.eq_bytes(&low));
    assert!(!low.eq_bytes(&high));
}
