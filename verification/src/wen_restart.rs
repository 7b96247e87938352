//! Agreeing on where to go on after the whole cluster has stopped.
//!
//! Each validator tells the others the slots that its last vote stands on. The slots that enough of
//! them voted for and that it does not have itself, it repairs.

use crate::collections;
use crate::collections::sort_u64;
use crate::types::Slot;
use std::collections::HashSet;
use vstd::prelude::*;

verus! {

broadcast use vstd::std_specs::hash::group_hash_axioms;

/// How far the restart has come.
#[derive(Clone, Copy, Debug, PartialEq, Eq, Structural)]
pub enum RestartState {
    Init,
    LastVotedForkSlots,
    HeaviestFork,
    Done,
}

/// The slots that a last vote stands on.
#[derive(Debug)]
pub struct LastVotedForkSlotsRecord {
    pub last_vote_fork_slots: Vec<Slot>,
    pub last_vote_bankhash: String,
    pub shred_version: u32,
}

/// What is kept of the restart, so that it can go on where it was.
#[derive(Debug)]
pub struct WenRestartProgress {
    pub state: RestartState,
    pub my_last_voted_fork_slots: Option<LastVotedForkSlotsRecord>,
}

/// What the others are told.
#[derive(Debug)]
pub struct Announcement {
    pub last_vote_fork_slots: Vec<Slot>,
    pub last_vote_bankhash: String,
}

/// What to do next.
#[derive(Clone, Copy, Debug, PartialEq, Eq, Structural)]
pub enum RestartAction {
    SendLastVotedForkSlots,
    AggregateLastVotedForkSlots,
    /// Nothing but to go on to the end.
    Finish,
    /// The restart is done.
    Stop,
}

impl RestartState {
    /// What is done in a state.
    pub open spec fn action(self) -> RestartAction {
        match self {
            RestartState::Init => RestartAction::SendLastVotedForkSlots,
            RestartState::LastVotedForkSlots => RestartAction::AggregateLastVotedForkSlots,
            RestartState::HeaviestFork => RestartAction::Finish,
            RestartState::Done => RestartAction::Stop,
        }
    }

    /// The state after what is done in a state.
    pub open spec fn next(self) -> RestartState {
        match self {
            RestartState::Init => RestartState::LastVotedForkSlots,
            RestartState::LastVotedForkSlots => RestartState::HeaviestFork,
            RestartState::HeaviestFork => RestartState::Done,
            RestartState::Done => RestartState::Done,
        }
    }
}

/// The first slots, no more than `max`.
pub open spec fn first_slots(slots: Seq<Slot>, max: nat) -> Seq<Slot> {
    slots.take(
        if slots.len() < max {
            slots.len() as int
        } else {
            max as int
        },
    )
}

/// The same slots in another vector, no more than `max` of them.
fn copy_slots(slots: &Vec<Slot>, max: usize) -> (r: Vec<Slot>)
    ensures
        r@ == first_slots(slots@, max as nat),
{
    let mut r: Vec<Slot> = Vec::new();
    let mut i: usize = 0;
    while i < slots.len() && i < max
        invariant
            i <= slots@.len(),
            i <= max,
            r@ == slots@.take(i as int),
        decreases slots@.len() - i,
    {
        r.push(slots[i]);
        i = i + 1;
        assert(r@ =~= slots@.take(i as int));
    }
    r
}

impl WenRestartProgress {
    /// A restart from the beginning, which is what follows where no record can be read.
    pub fn new() -> (r: Self)
        ensures
            r.state == RestartState::Init,
            r.my_last_voted_fork_slots is None,
    {
        WenRestartProgress { state: RestartState::Init, my_last_voted_fork_slots: None }
    }

    /// What to do next.
    pub fn next_action(&self) -> (r: RestartAction)
        ensures
            r == self.state.action(),
    {
        match self.state {
            RestartState::Init => RestartAction::SendLastVotedForkSlots,
            RestartState::LastVotedForkSlots => RestartAction::AggregateLastVotedForkSlots,
            RestartState::HeaviestFork => RestartAction::Finish,
            RestartState::Done => RestartAction::Stop,
        }
    }

    /// Goes on to the end.
    pub fn finish(&mut self)
        requires
            old(self).state == RestartState::HeaviestFork,
        ensures
            final(self).state == old(self).state.next(),
            final(self).my_last_voted_fork_slots == old(self).my_last_voted_fork_slots,
    {
        self.state = RestartState::Done;
    }

    /// Decides what to tell the others, and records it. What was recorded before is told again, but
    /// recorded under the bank hash of the last vote as it is now. Otherwise the slots are the last
    /// voted one and its ancestors, the nearest first, no more than `max_slots` of them.
    pub fn send_restart_last_voted_fork_slots(
        &mut self,
        ancestors: &Vec<Slot>,
        last_vote_bankhash: &String,
        shred_version: u32,
        max_slots: usize,
    ) -> (r: Announcement)
        requires
            old(self).state == RestartState::Init,
        ensures
            final(self).state == old(self).state.next(),
            final(self).my_last_voted_fork_slots is Some,
            final(self).my_last_voted_fork_slots->Some_0.last_vote_fork_slots@
                == r.last_vote_fork_slots@,
            final(self).my_last_voted_fork_slots->Some_0.last_vote_bankhash@ == last_vote_bankhash@,
            final(self).my_last_voted_fork_slots->Some_0.shred_version == shred_version,
            match old(self).my_last_voted_fork_slots {
                Some(record) => {
                    &&& r.last_vote_fork_slots@ == record.last_vote_fork_slots@
                    &&& r.last_vote_bankhash@ == record.last_vote_bankhash@
                },
                None => {
                    &&& r.last_vote_fork_slots@ == first_slots(ancestors@, max_slots as nat)
                    &&& r.last_vote_bankhash@ == last_vote_bankhash@
                },
            },
    {
        let announcement = match &self.my_last_voted_fork_slots {
            Some(record) => {
                let slots = copy_slots(
                    &record.last_vote_fork_slots,
                    record.last_vote_fork_slots.len(),
                );
                assert(slots@ =~= record.last_vote_fork_slots@);
                Announcement {
                    last_vote_fork_slots: slots,
                    last_vote_bankhash: record.last_vote_bankhash.clone(),
                }
            },
            None => Announcement {
                last_vote_fork_slots: copy_slots(ancestors, max_slots),
                last_vote_bankhash: last_vote_bankhash.clone(),
            },
        };
        let recorded = copy_slots(
            &announcement.last_vote_fork_slots,
            announcement.last_vote_fork_slots.len(),
        );
        assert(recorded@ =~= announcement.last_vote_fork_slots@);
        self.state = RestartState::LastVotedForkSlots;
        self.my_last_voted_fork_slots =
        Some(
            LastVotedForkSlotsRecord {
                last_vote_fork_slots: recorded,
                last_vote_bankhash: last_vote_bankhash.clone(),
                shred_version,
            },
        );
        announcement
    }
}

/// The repairing of slots until the ledger has what it needs.
#[derive(Debug)]
pub struct SlotAggregation {
    pub root_slot: Slot,
    /// Slots that were found complete.
    pub is_full_slots: HashSet<Slot>,
}

/// The slot still has to be repaired.
pub open spec fn to_repair(slot: Slot, root_slot: Slot, full: Set<Slot>, frozen: Set<Slot>) -> bool {
    &&& slot > root_slot
    &&& !full.contains(slot)
    &&& !frozen.contains(slot)
}

/// What filtering does: `slots` are the ones to repair, of those that were `voted` for, in
/// ascending order, and the frozen ones are complete from now on.
pub open spec fn filtered(
    before: SlotAggregation,
    after: SlotAggregation,
    voted: Seq<Slot>,
    frozen: Set<Slot>,
    slots: Seq<Slot>,
) -> bool {
    &&& after.root_slot == before.root_slot
    &&& collections::ascending(slots)
    &&& slots.to_multiset() == voted.filter(
        |slot: Slot| to_repair(slot, before.root_slot, before.is_full_slots@, frozen),
    ).to_multiset()
    &&& after.is_full_slots@ == before.is_full_slots@.union(
        voted.to_set().filter(|slot: Slot| slot > before.root_slot && frozen.contains(slot)),
    )
}

impl SlotAggregation {
    pub fn new(root_slot: Slot) -> (r: Self)
        ensures
            r.root_slot == root_slot,
            r.is_full_slots@ == Set::<Slot>::empty(),
    {
        SlotAggregation { root_slot, is_full_slots: HashSet::new() }
    }

    /// The slots that are left to repair, in ascending order, of those that the cluster has voted
    /// for. Slots up to the root, and those whose bank is or was found frozen, need no repair.
    pub fn filter_slots(&mut self, slots_to_repair: &Vec<Slot>, frozen: &HashSet<Slot>) -> (r: Vec<
        Slot,
    >)
        ensures
            filtered(*old(self), *final(self), slots_to_repair@, frozen@, r@),
    {
        let mut left: Vec<Slot> = Vec::new();
        let ghost full = self.is_full_slots@;
        let ghost root = self.root_slot;
        let ghost keep = |slot: Slot| to_repair(slot, root, full, frozen@);
        let ghost found = |slot: Slot| slot > root && frozen@.contains(slot);
        let mut i: usize = 0;
        while i < slots_to_repair.len()
            invariant
                i <= slots_to_repair@.len(),
                full == old(self).is_full_slots@,
                root == old(self).root_slot,
                self.root_slot == root,
                keep == (|slot: Slot| to_repair(slot, root, full, frozen@)),
                found == (|slot: Slot| slot > root && frozen@.contains(slot)),
                left@ == slots_to_repair@.take(i as int).filter(keep),
                self.is_full_slots@ == full.union(
                    slots_to_repair@.take(i as int).to_set().filter(found),
                ),
            decreases slots_to_repair@.len() - i,
        {
            let slot: Slot = slots_to_repair[i];
            let ghost before = slots_to_repair@.take(i as int);
            let ghost after = slots_to_repair@.take(i + 1);
            proof {
                assert(after.drop_last() =~= before);
                assert(after.last() == slot);
                reveal(Seq::filter);
                assert(after =~= before.push(slot));
                assert(after.to_set() =~= before.to_set().insert(slot)) by {
                    assert forall|x: Slot| after.contains(x) <==> (before.contains(x) || x == slot)
                        by {
                        if after.contains(x) {
                            let k = choose|k: int| 0 <= k < after.len() && after[k] == x;
                            if k < i {
                                assert(before[k] == x);
                            }
                        }
                        if before.contains(x) {
                            let k = choose|k: int| 0 <= k < before.len() && before[k] == x;
                            assert(after[k] == x);
                        }
                        assert(after[i as int] == slot);
                    }
                }
            }
            if slot > self.root_slot && !self.is_full_slots.contains(&slot) {
                if frozen.contains(&slot) {
                    self.is_full_slots.insert(slot);
                } else {
                    left.push(slot);
                }
            }
            i = i + 1;
            assert(self.is_full_slots@ =~= full.union(after.to_set().filter(found)));
        }
        assert(slots_to_repair@.take(i as int) =~= slots_to_repair@);
        sort_u64(&mut left);
        left
    }

    /// One round of aggregation: the slots that are left to repair, of those that the cluster has
    /// voted for, and whether aggregation is over. It is where nothing is left to repair and enough
    /// of the stake takes part; then the restart goes on.
    pub fn round(
        &mut self,
        progress: &mut WenRestartProgress,
        slots_to_repair: &Vec<Slot>,
        frozen: &HashSet<Slot>,
        enough_active: bool,
    ) -> (r: (Vec<Slot>, bool))
        requires
            old(progress).state == RestartState::LastVotedForkSlots,
        ensures
            filtered(
                *old(self),
                *final(self),
                slots_to_repair@,
                frozen@,
                r.0@,
            ),
            r.1 == (enough_active && nothing_to_repair(
                slots_to_repair@,
                old(self).root_slot,
                old(self).is_full_slots@,
                frozen@,
            )),
            final(progress).state == (if r.1 {
                old(progress).state.next()
            } else {
                old(progress).state
            }),
            final(progress).my_last_voted_fork_slots == old(progress).my_last_voted_fork_slots,
    {
        let filtered_slots = self.filter_slots(slots_to_repair, frozen);
        let done = filtered_slots.len() == 0 && enough_active;
        if done {
            progress.state = RestartState::HeaviestFork;
        }
        proof {
            law_empty_means_repaired(
                *old(self),
                *self,
                slots_to_repair@,
                frozen@,
                filtered_slots@,
            );
        }
        (filtered_slots, done)
    }
}

/// Every slot above the root that the cluster has voted for is one whose bank is or was found
/// frozen.
pub open spec fn nothing_to_repair(
    voted: Seq<Slot>,
    root_slot: Slot,
    full: Set<Slot>,
    frozen: Set<Slot>,
) -> bool {
    forall|slot: Slot| #[trigger]
        voted.contains(slot) && slot > root_slot ==> full.contains(slot) || frozen.contains(slot)
}

/// Nothing is left to repair exactly where every slot above the root that the cluster has voted
/// for is one whose bank is or was found frozen; from then on each of them counts as complete.
pub proof fn law_empty_means_repaired(
    before: SlotAggregation,
    after: SlotAggregation,
    voted: Seq<Slot>,
    frozen: Set<Slot>,
    slots: Seq<Slot>,
)
    requires
        filtered(before, after, voted, frozen, slots),
    ensures
        slots.len() == 0 <==> nothing_to_repair(
            voted,
            before.root_slot,
            before.is_full_slots@,
            frozen,
        ),
        slots.len() == 0 ==> forall|slot: Slot| #[trigger]
            voted.contains(slot) && slot > after.root_slot ==> after.is_full_slots@.contains(slot),
{
    let keep = |slot: Slot|
        to_repair(slot, before.root_slot, before.is_full_slots@, frozen);
    let kept = voted.filter(keep);
    assert(slots.len() == kept.len()) by {
        slots.to_multiset_ensures();
        kept.to_multiset_ensures();
    }
    if slots.len() == 0 {
        assert forall|slot: Slot| #[trigger]
            voted.contains(slot) && slot > before.root_slot implies before.is_full_slots@.contains(
            slot,
        ) || frozen.contains(slot) by {
            if keep(slot) {
                let i = choose|i: int| 0 <= i < voted.len() && voted[i] == slot;
                voted.lemma_filter_contains(keep, i);
            }
        }
    } else {
        voted.lemma_filter_pred(keep, 0);
        voted.lemma_filter_contains_rev(keep, kept[0]);
    }
}

/// How long to sleep until the next round, in milliseconds.
pub fn sleep_left(start: u64, now: u64, interval: u64) -> (r: u64)
    ensures
        r == (if now < start {
            interval
        } else if now - start < interval {
            (interval - (now - start)) as u64
        } else {
            0
        }),
{
    let elapsed: u64 = now.saturating_sub(start);
    interval.saturating_sub(elapsed)
}

/// The state after some steps.
pub open spec fn after_steps(state: RestartState, steps: nat) -> RestartState
    decreases steps,
{
    if steps == 0 {
        state
    } else {
        after_steps(state, (steps - 1) as nat).next()
    }
}

/// From wherever it was interrupted, the restart is done after three steps at most, and it stays
/// done.
pub proof fn law_restart_ends(state: RestartState, steps: nat)
    requires
        steps >= 3,
    ensures
        after_steps(state, steps) == RestartState::Done,
        after_steps(state, steps).action() == RestartAction::Stop,
    decreases steps,
{
    if steps == 3 {
        reveal_with_fuel(after_steps, 4);
    } else {
        law_restart_ends(state, (steps - 1) as nat);
    }
}

/// A slot whose bank was once found frozen is never repaired again.
pub proof fn law_full_slots_are_not_repaired(
    slot: Slot,
    root_slot: Slot,
    full: Set<Slot>,
    frozen: Set<Slot>,
    later_frozen: Set<Slot>,
    voted: Seq<Slot>,
)
    requires
        voted.contains(slot),
        frozen.contains(slot),
    ensures
        !to_repair(
            slot,
            root_slot,
            full.union(
                voted.to_set().filter(|s: Slot| s > root_slot && frozen.contains(s)),
            ),
            later_frozen,
        ),
{
}

/// What a round of aggregation leaves to repair: each slot above the root that was voted for and whose
/// bank neither is nor was found frozen, in ascending order, and nothing else. A slot that was found
/// frozen counts as complete from then on.
pub proof fn law_a_round_leaves_what_is_to_repair(
    aggregation: &mut SlotAggregation,
    progress: &mut WenRestartProgress,
    voted: &Vec<Slot>,
    frozen: &HashSet<Slot>,
    enough_active: bool,
    r: (Vec<Slot>, bool),
    slot: Slot,
    i: int,
    j: int,
)
    requires
        old(progress).state == RestartState::LastVotedForkSlots,
        call_ensures(
            SlotAggregation::round,
            (aggregation, progress, voted, frozen, enough_active),
            r,
        ),
    ensures
        r.0@.contains(slot) <==> {
            &&& voted@.contains(slot)
            &&& slot > old(aggregation).root_slot
            &&& !old(aggregation).is_full_slots@.contains(slot)
            &&& !frozen@.contains(slot)
        },
        0 <= i < j < r.0@.len() ==> r.0@[i] <= r.0@[j],
        final(aggregation).root_slot == old(aggregation).root_slot,
        final(aggregation).is_full_slots@.contains(slot) <==> {
            ||| old(aggregation).is_full_slots@.contains(slot)
            ||| voted@.contains(slot) && slot > old(aggregation).root_slot && frozen@.contains(slot)
        },
        r.1 <==> r.0@.len() == 0 && enough_active,
        r.1 ==> final(progress).state == RestartState::HeaviestFork,
        !r.1 ==> final(progress).state == old(progress).state,
{
    let before = *old(aggregation);
    let after = *final(aggregation);
    let keep = |s: Slot| to_repair(s, before.root_slot, before.is_full_slots@, frozen@);
    let kept = voted@.filter(keep);
    law_empty_means_repaired(before, after, voted@, frozen@, r.0@);
    r.0@.to_multiset_ensures();
    kept.to_multiset_ensures();
    assert(r.0@.to_multiset() == kept.to_multiset());
    assert(r.0@.contains(slot) <==> r.0@.to_multiset().count(slot) > 0);
    assert(r.0@.contains(slot) <==> kept.contains(slot));
    if kept.contains(slot) {
        voted@.lemma_filter_contains_rev(keep, slot);
        let k = choose|k: int| 0 <= k < kept.len() && kept[k] == slot;
        voted@.lemma_filter_pred(keep, k);
    }
    if voted@.contains(slot) && keep(slot) {
        let k = choose|k: int| 0 <= k < voted@.len() && voted@[k] == slot;
        voted@.lemma_filter_contains(keep, k);
    }
    assert(voted@.to_set().contains(slot) <==> voted@.contains(slot));
}

/// What was told once is told again after an interruption, as it was recorded, whatever the ledger
/// says by then.
pub proof fn law_what_was_told_is_told_again(
    progress: &mut WenRestartProgress,
    later: &mut WenRestartProgress,
    ancestors: &Vec<Slot>,
    bankhash: &String,
    shred_version: u32,
    max_slots: usize,
    ancestors_later: &Vec<Slot>,
    shred_version_later: u32,
    first: Announcement,
    second: Announcement,
)
    requires
        old(progress).my_last_voted_fork_slots is None,
        call_ensures(
            WenRestartProgress::send_restart_last_voted_fork_slots,
            (progress, ancestors, bankhash, shred_version, max_slots),
            first,
        ),
        old(later).my_last_voted_fork_slots == final(progress).my_last_voted_fork_slots,
        call_ensures(
            WenRestartProgress::send_restart_last_voted_fork_slots,
            (later, ancestors_later, bankhash, shred_version_later, max_slots),
            second,
        ),
    ensures
        second.last_vote_fork_slots@ == first.last_vote_fork_slots@,
        second.last_vote_bankhash@ == first.last_vote_bankhash@,
        first.last_vote_bankhash@ == bankhash@,
        final(progress).state == RestartState::LastVotedForkSlots || old(progress).state
            != RestartState::Init,
        ancestors@.len() <= max_slots ==> first.last_vote_fork_slots@ == ancestors@,
        ancestors@.len() > max_slots ==> first.last_vote_fork_slots@ == ancestors@.take(
            max_slots as int,
        ),
        final(later).my_last_voted_fork_slots matches Some(record) && record.shred_version
            == shred_version_later,
{
    if ancestors@.len() <= max_slots {
        assert(first.last_vote_fork_slots@ =~= ancestors@);
    }
}

/// The steps of a restart come in their order: telling, aggregating, finishing.
pub proof fn law_the_steps_of_a_restart(progress: &WenRestartProgress, r: RestartAction)
    requires
        call_ensures(WenRestartProgress::next_action, (progress,), r),
    ensures
        progress.state == RestartState::Init <==> r == RestartAction::SendLastVotedForkSlots,
        progress.state == RestartState::LastVotedForkSlots <==> r
            == RestartAction::AggregateLastVotedForkSlots,
        progress.state == RestartState::HeaviestFork <==> r == RestartAction::Finish,
        progress.state == RestartState::Done <==> r == RestartAction::Stop,
{
}

/// A round and the sleep after it take the interval, unless the round alone took longer.
pub proof fn law_rounds_keep_their_interval(start: u64, now: u64, interval: u64, r: u64)
    requires
        call_ensures(sleep_left, (start, now, interval), r),
        start <= now,
    ensures
        now - start <= interval ==> (now - start) + r == interval,
        now - start >= interval ==> r == 0,
{
}

} // verus!
