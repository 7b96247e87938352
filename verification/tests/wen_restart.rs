use solana_validator::wen_restart::{
    sleep_left, LastVotedForkSlotsRecord, RestartAction, RestartState, SlotAggregation,
    WenRestartProgress,
};
use std::collections::HashSet;

const MAX_SLOTS_PER_ENTRY: usize = 16_384;

#[test]
fn test_wen_restart_normal_flow() {
    let shred_version = 2;
    let expected_slots = 400;
    let last_vote_slot = (MAX_SLOTS_PER_ENTRY + expected_slots) as u64;
    let last_parent = (MAX_SLOTS_PER_ENTRY >> 1) as u64;
    // The fork of the last vote, the latest slot first, linked to slot 1 far below.
    let mut last_vote_fork_slots: Vec<u64> = (0..expected_slots)
        .map(|i| (MAX_SLOTS_PER_ENTRY + i + 1) as u64)
        .collect();
    last_vote_fork_slots.extend([last_parent, 1]);
    last_vote_fork_slots.sort();
    last_vote_fork_slots.reverse();
    let last_vote_bankhash = "bankhash".to_string();
    let expected_slots_to_repair: Vec<u64> = (last_vote_slot + 1..last_vote_slot + 3).collect();

    let mut progress = WenRestartProgress::new();
    assert_eq!(progress.next_action(), RestartAction::SendLastVotedForkSlots);
    let sent = progress.send_restart_last_voted_fork_slots(
        &last_vote_fork_slots,
        &last_vote_bankhash,
        shred_version,
        MAX_SLOTS_PER_ENTRY,
    );
    assert_eq!(sent.last_vote_fork_slots, last_vote_fork_slots);
    assert_eq!(sent.last_vote_bankhash, last_vote_bankhash);

    assert_eq!(progress.next_action(), RestartAction::AggregateLastVotedForkSlots);
    let mut aggregation = SlotAggregation::new(0);
    let mut frozen = HashSet::new();
    let (filtered, done) =
        aggregation.round(&mut progress, &expected_slots_to_repair, &frozen, true);
    assert_eq!(filtered, expected_slots_to_repair);
    assert!(!done);
    frozen.extend(expected_slots_to_repair.iter().cloned());
    let (filtered, done) =
        aggregation.round(&mut progress, &expected_slots_to_repair, &frozen, false);
    assert!(filtered.is_empty());
    assert!(!done);
    assert_eq!(progress.next_action(), RestartAction::AggregateLastVotedForkSlots);
    let (filtered, done) =
        aggregation.round(&mut progress, &expected_slots_to_repair, &frozen, true);
    assert!(filtered.is_empty());
    assert!(done);

    assert_eq!(progress.next_action(), RestartAction::Finish);
    progress.finish();
    assert_eq!(progress.next_action(), RestartAction::Stop);
    assert_eq!(progress.state, RestartState::Done);
    let record = progress.my_last_voted_fork_slots.unwrap();
    assert_eq!(record.last_vote_fork_slots, last_vote_fork_slots);
    assert_eq!(record.last_vote_bankhash, last_vote_bankhash);
    assert_eq!(record.shred_version, 2);
}

#[test]
fn slots_are_filtered_and_sorted() {
    let mut aggregation = SlotAggregation::new(10);
    let frozen: HashSet<u64> = [12, 5].into_iter().collect();
    assert_eq!(
        aggregation.filter_slots(&vec![20, 12, 9, 10, 15, 11], &frozen),
        vec![11, 15, 20]
    );
    assert_eq!(
        aggregation.is_full_slots,
        [12].into_iter().collect::<HashSet<u64>>()
    );
    // What was full once is not repaired again.
    assert_eq!(
        aggregation.filter_slots(&vec![12, 11], &HashSet::new()),
        vec![11]
    );
}

#[test]
fn too_many_slots_are_cut_off() {
    let mut progress = WenRestartProgress::new();
    let sent = progress.send_restart_last_voted_fork_slots(
        &vec![9, 8, 7, 6],
        &"now".to_string(),
        1,
        3,
    );
    assert_eq!(sent.last_vote_fork_slots, vec![9, 8, 7]);
}

#[test]
fn what_was_recorded_is_sent_again() {
    let mut progress = WenRestartProgress {
        state: RestartState::Init,
        my_last_voted_fork_slots: Some(LastVotedForkSlotsRecord {
            last_vote_fork_slots: vec![3, 2, 1],
            last_vote_bankhash: "then".to_string(),
            shred_version: 1,
        }),
    };
    let sent =
        progress.send_restart_last_voted_fork_slots(&vec![9], &"now".to_string(), 4, 1);
    assert_eq!(sent.last_vote_fork_slots, vec![3, 2, 1]);
    assert_eq!(sent.last_vote_bankhash, "then");
    let record = progress.my_last_voted_fork_slots.unwrap();
    assert_eq!(record.last_vote_bankhash, "now");
    assert_eq!(record.shred_version, 4);
}

#[test]
fn rounds_are_spaced() {
    assert_eq!(sleep_left(1_000, 1_040, 100), 60);
    assert_eq!(sleep_left(1_000, 1_200, 100), 0);
    assert_eq!(sleep_left(1_000, 900, 100), 100);
}

#[test]
fn a_last_vote_without_known_ancestors_is_told_as_it_is() {
    let mut progress = WenRestartProgress::new();
    let sent = progress.send_restart_last_voted_fork_slots(&vec![], &"hash".to_string(), 3, 10);
    assert!(sent.last_vote_fork_slots.is_empty());
    assert_eq!(sent.last_vote_bankhash, "hash");
    assert_eq!(progress.state, RestartState::LastVotedForkSlots);
    assert!(progress.my_last_voted_fork_slots.unwrap().last_vote_fork_slots.is_empty());
}
