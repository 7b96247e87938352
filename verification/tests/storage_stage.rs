use rand::Rng;
use solana_validator::signers::Signature;
use solana_validator::storage_stage::{
    choose_segment, cross_boundary, get_identity_index_from_signature, goes_on, process_entry,
    process_entry_crossing, process_storage_program, AccountQuery, CreateAccount, Entry,
    RoundOutcome, StorageAccount, StorageLocalState, StorageProgram, StorageState, Transaction,
    NUM_IDENTITIES,
};
use solana_validator::types::Pubkey;
use std::cmp::{max, min};

const STORAGE_PROGRAM: Pubkey = Pubkey([130; 32]);
const ENTRIES_PER_SEGMENT: u64 = 16;

fn hash(n: u8) -> solana_validator::types::Hash {
    solana_validator::types::Hash([n; 32])
}

fn storage_tx(sender: u8, program: StorageProgram) -> Transaction {
    Transaction {
        account_keys: vec![Pubkey([sender; 32])],
        program_ids: vec![STORAGE_PROGRAM],
        instructions: vec![Some(program)],
    }
}

fn entry(num_hashes: u64, transactions: Vec<Transaction>) -> Entry {
    Entry { num_hashes, id: hash(0), transactions }
}

/// Processes entries as the stage does, and counts the rotations.
fn process_entries(
    state: &mut StorageState,
    local_state: &mut StorageLocalState,
    entries: &[Entry],
) -> usize {
    let mut rotations = 0;
    for entry in entries {
        if process_entry(state, local_state, entry, &STORAGE_PROGRAM, ENTRIES_PER_SEGMENT) {
            rotations += 1;
        }
        local_state.entry_done(entry.num_hashes);
    }
    rotations
}

#[test]
fn test_storage_stage_none_ledger() {
    let mut exit = false;
    assert!(goes_on(RoundOutcome::NoLedger, exit));
    exit = true;
    assert!(!goes_on(RoundOutcome::NoLedger, exit));
}

#[test]
fn test_signature_distribution() {
    // See that signatures have an even-ish distribution..
    let mut hist = vec![0usize; NUM_IDENTITIES];
    let mut rng = rand::thread_rng();
    for _ in 0..(32 * NUM_IDENTITIES) {
        let mut bytes = [0u8; 64];
        rng.fill(&mut bytes[..]);
        let ix = get_identity_index_from_signature(&Signature(bytes));
        hist[ix] += 1;
    }

    let mut hist_max = 0;
    let mut hist_min = NUM_IDENTITIES;
    for val in hist.iter() {
        hist_max = max(*val, hist_max);
        hist_min = min(*val, hist_min);
    }
    println!("min: {} max: {}", hist_min, hist_max);
    assert_ne!(hist_min, 0);
}

#[test]
fn test_storage_stage_process_entries() {
    let mut entries: Vec<Entry> = (0..128).map(|_| entry(1, vec![])).collect();
    entries.push(entry(
        1,
        vec![storage_tx(1, StorageProgram::SetRotateHashCount { rotate_count: 16 })],
    ));
    let mut storage_state = StorageState::new();
    let mut local_state = StorageLocalState::new(0);
    let signature = Signature([3; 64]);
    process_entries(&mut storage_state, &mut local_state, &entries);
    assert_eq!(storage_state.get_mining_result(&signature), hash(0));
    assert_eq!(local_state.rotate_count, 16);
    let mut rotations = 0;
    for _ in 0..9 {
        rotations += process_entries(&mut storage_state, &mut local_state, &entries);
    }
    // One rotation for each sixteen of the 1161 hashes from the 129th on.
    assert_eq!(rotations, (1290 / 16) - (129 / 16));
    assert_eq!(storage_state.get_mining_result(&signature), hash(0));
}

#[test]
fn test_storage_stage_process_mining_proof_entries() {
    let entries: Vec<Entry> = (0..ENTRIES_PER_SEGMENT + 2).map(|_| entry(1, vec![])).collect();
    let mut storage_state = StorageState::new();
    let mut local_state = StorageLocalState::new(0);
    process_entries(&mut storage_state, &mut local_state, &entries);
    assert_eq!(
        storage_state.get_pubkeys_for_entry_height(0, ENTRIES_PER_SEGMENT).len(),
        0
    );
    let txs = vec![storage_tx(9, StorageProgram::SubmitMiningProof { entry_height: 0 })];
    process_entries(&mut storage_state, &mut local_state, &[entry(1, txs)]);
    assert_eq!(
        storage_state.get_pubkeys_for_entry_height(0, ENTRIES_PER_SEGMENT)[0],
        Pubkey([9; 32])
    );
}

#[test]
fn identities_are_the_low_bits_of_a_signature() {
    let mut bytes = [0xff; 64];
    bytes[0] = 0x34;
    bytes[1] = 0x12;
    assert_eq!(get_identity_index_from_signature(&Signature(bytes)), 0x234);
    let mut state = StorageState::new();
    let mut results = vec![hash(0); NUM_IDENTITIES];
    results[0x234] = hash(8);
    state.set_results(&results);
    assert_eq!(state.get_mining_result(&Signature(bytes)), hash(8));
    assert_eq!(state.get_mining_result(&Signature([0; 64])), hash(0));
    assert_eq!(state.storage_keys.len(), 64 * 1024);
}

#[test]
fn boundaries_are_crossed_at_multiples() {
    assert!(!cross_boundary(0, 15, 16));
    assert!(cross_boundary(0, 16, 16));
    assert!(cross_boundary(15, 1, 16));
    assert!(!cross_boundary(16, 15, 16));
    assert!(cross_boundary(17, 30, 16));
    assert!(!cross_boundary(5, 0, 16));
}

#[test]
fn proofs_count_for_complete_segments_below_the_current_entry() {
    let mut state = StorageState::new();
    let mut local = StorageLocalState::new(40);
    let me = Pubkey([5; 32]);
    let proof = |height| Some(StorageProgram::SubmitMiningProof { entry_height: height });
    // The third segment is not complete, and the future is no proof.
    process_storage_program(&mut state, &mut local, &proof(39), &me, 16);
    assert_eq!(state.replicator_map.len(), 2);
    process_storage_program(&mut state, &mut local, &proof(40), &me, 16);
    assert!(state.replicator_map.iter().all(|segment| segment.is_empty()));
    process_storage_program(&mut state, &mut local, &proof(17), &me, 16);
    process_storage_program(&mut state, &mut local, &proof(18), &me, 16);
    assert_eq!(state.get_pubkeys_for_entry_height(31, 16), vec![me]);
    assert_eq!(state.get_pubkeys_for_entry_height(0, 16), vec![]);
    assert_eq!(state.get_pubkeys_for_entry_height(1_000, 16), vec![]);
    for i in 0..10 {
        process_storage_program(&mut state, &mut local, &proof(3), &Pubkey([i; 32]), 16);
    }
    assert_eq!(state.get_pubkeys_for_entry_height(0, 16).len(), 5);
    assert_eq!(state.replicator_map[0].len(), 10);
}

#[test]
fn the_rotation_is_set_once_and_even() {
    let mut state = StorageState::new();
    let mut local = StorageLocalState::new(0);
    let me = Pubkey([5; 32]);
    let set = |n| Some(StorageProgram::SetRotateHashCount { rotate_count: n });
    for (n, expected) in [(0, 0), (3, 0), (6, 6), (8, 6)] {
        process_storage_program(&mut state, &mut local, &set(n), &me, 16);
        assert_eq!(local.rotate_count, expected);
    }
    for ignored in [
        None,
        Some(StorageProgram::ClaimStorageReward),
        Some(StorageProgram::ProofValidation),
        Some(StorageProgram::AdvertiseStorageLastId { id: hash(1) }),
    ] {
        process_storage_program(&mut state, &mut local, &ignored, &me, 16);
    }
    assert_eq!(local, StorageLocalState { rotate_count: 6, ..StorageLocalState::new(0) });
}

#[test]
fn instructions_of_other_programs_are_passed_over() {
    let mut state = StorageState::new();
    let mut local = StorageLocalState::new(0);
    let tx = Transaction {
        account_keys: vec![Pubkey([1; 32])],
        program_ids: vec![Pubkey([7; 32]), STORAGE_PROGRAM],
        instructions: vec![
            Some(StorageProgram::SetRotateHashCount { rotate_count: 2 }),
            Some(StorageProgram::SetRotateHashCount { rotate_count: 4 }),
        ],
    };
    assert!(process_entry(&mut state, &mut local, &entry(5, vec![tx]), &STORAGE_PROGRAM, 16));
    assert_eq!(local.rotate_count, 4);
}

#[test]
fn a_crossing_draws_samples_from_the_signature() {
    let signature = Signature([6; 64]);
    assert!(process_entry_crossing(&signature, 15, 16).is_none());
    let crossing = process_entry_crossing(&signature, 16 * 4, 16).unwrap();
    assert_eq!(crossing.segment, 2);
    assert!(crossing.samples.iter().all(|sample| *sample < 10));
    // The draws depend on the signature alone.
    let again = process_entry_crossing(&signature, 16 * 8, 16).unwrap();
    assert_eq!(again.samples, crossing.samples);
    assert_eq!(again.segment, 6);
    let others: Vec<[u64; 4]> = (0..20)
        .map(|i| process_entry_crossing(&Signature([i; 64]), 16, 16).unwrap().samples)
        .collect();
    assert!(others.iter().any(|samples| *samples != crossing.samples));
    assert_eq!(choose_segment(&signature, 0, 16), None);
}

#[test]
fn accounts_are_created_when_absent() {
    let mut local = StorageLocalState::new(0);
    assert!(local.needs_account(StorageAccount::System));
    assert_eq!(local.account_queried(StorageAccount::System, AccountQuery::NoLastId), None);
    assert_eq!(
        local.account_queried(StorageAccount::System, AccountQuery::Absent),
        Some(CreateAccount { tokens: 1, space: 16 * 1024, fee: 1, retries: 5 })
    );
    local.account_requested(StorageAccount::System, false);
    assert!(local.needs_account(StorageAccount::System));
    local.account_requested(StorageAccount::System, true);
    assert!(!local.needs_account(StorageAccount::System));
    assert!(local.needs_account(StorageAccount::Mine));
    assert_eq!(
        local.account_queried(StorageAccount::Mine, AccountQuery::Absent),
        Some(CreateAccount { tokens: 1, space: 0, fee: 1, retries: 1 })
    );
    assert_eq!(local.account_queried(StorageAccount::Mine, AccountQuery::Present), None);
    assert!(!local.needs_account(StorageAccount::Mine));
}

#[test]
fn the_hash_rate_is_asked_for_once() {
    let mut local = StorageLocalState::new(0);
    assert_eq!(local.set_hash_rate(false, false), None);
    assert_eq!(local.set_hash_rate(true, false), None);
    assert!(local.needs_hash_rate());
    assert_eq!(local.set_hash_rate(true, true), Some(1024));
    assert_eq!(local.set_hash_rate(true, true), None);
    assert!(!local.needs_hash_rate());
}

#[test]
fn the_stage_goes_on_until_it_is_told_or_cut_off() {
    for outcome in [RoundOutcome::Processed, RoundOutcome::Timeout, RoundOutcome::Failed] {
        assert!(goes_on(outcome, false));
        assert!(!goes_on(outcome, true));
    }
    assert!(!goes_on(RoundOutcome::Disconnected, false));
}
