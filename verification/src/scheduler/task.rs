use crate::collections;
use crate::collections::{
    last_key_u64, skip_map_back, skip_map_get_or_insert, skip_map_new, skip_map_prev,
    skip_map_remove,
};
use crate::scheduler::usage::{Lock, PageRc, RequestedUsage};
use crate::text;
use crate::text::{push_decimal, push_hexadecimal};
use crate::types::{SanitizedTransaction, TransactionError};
use crossbeam_skiplist::SkipMap;
use std::collections::BTreeMap;
use vstd::prelude::*;
use vstd::string::StringExecFns;

verus! {

pub type Weight = u64;

/// The weight by which tasks are ordered: the heavier of two tasks goes first.
pub type UniqueWeight = u64;

pub type TaskId = UniqueWeight;

/// Compute units.
pub type CU = u64;

/// The cost of the busiest account of a task, and the place of the task in the order.
pub type StuckTaskId = (CU, TaskId);

/// A token of the thread that schedules.
pub trait AtScheduleThread: Copy {

}

/// A token of any other thread.
pub trait NotAtScheduleThread: Copy {

}

/// A task of the arena, by its number.
#[derive(Clone, Copy, Debug, PartialEq, Eq, Hash, Structural)]
pub struct TaskInQueue(pub usize);

/// How the last attempt at a lock came out: the lock is there, or will be when the page is next
/// free, or neither.
#[derive(Clone, Copy, Debug, PartialEq, Eq, Structural)]
pub enum LockStatus {
    Succeded,
    Provisional,
    Failed,
}

/// An attempt to lock one page, and the task that is to try next when the lock is given back.
#[derive(Clone, Copy, Debug, PartialEq, Eq, Structural)]
pub struct LockAttempt {
    pub target: PageRc,
    pub status: LockStatus,
    pub requested_usage: RequestedUsage,
    pub heaviest_uncontended: Option<TaskInQueue>,
}

impl LockAttempt {
    /// The lock that the attempt is for.
    pub open spec fn lock(self) -> Lock {
        (self.target, self.requested_usage)
    }

    /// The attempt as it is before it is made.
    pub open spec fn unmade(self) -> LockAttempt {
        LockAttempt {
            target: self.target,
            status: LockStatus::Succeded,
            requested_usage: self.requested_usage,
            heaviest_uncontended: None,
        }
    }

    pub fn new(target: PageRc, requested_usage: RequestedUsage) -> (r: Self)
        ensures
            r == (LockAttempt {
                target,
                status: LockStatus::Succeded,
                requested_usage,
                heaviest_uncontended: None,
            }),
    {
        Self { target, status: LockStatus::Succeded, requested_usage, heaviest_uncontended: None }
    }

    pub fn clone_for_test(&self) -> (r: Self)
        ensures
            r == self.unmade(),
    {
        Self::new(self.target, self.requested_usage)
    }
}

/// The attempts as they are before they are made.
pub open spec fn unmade(attempts: Seq<LockAttempt>) -> Seq<LockAttempt> {
    Seq::new(attempts.len(), |i: int| attempts[i].unmade())
}

fn clone_attempts_for_test(attempts: &Vec<LockAttempt>) -> (r: Vec<LockAttempt>)
    ensures
        r@ == unmade(attempts@),
{
    let mut r: Vec<LockAttempt> = Vec::new();
    let mut i: usize = 0;
    while i < attempts.len()
        invariant
            i <= attempts@.len(),
            r@.len() == i,
            forall|j: int| 0 <= j < i ==> #[trigger] r@[j] == attempts@[j].unmade(),
        decreases attempts@.len() - i,
    {
        r.push(attempts[i].clone_for_test());
        i = i + 1;
    }
    assert(r@ =~= unmade(attempts@));
    r
}

/// Tasks by weight, as a page keeps those that wait for it.
pub struct TaskIds {
    pub task_ids: SkipMap<UniqueWeight, usize>,
}

impl TaskIds {
    /// The numbers of the tasks, by weight.
    pub open spec fn view(&self) -> Map<UniqueWeight, usize> {
        collections::skip_map_entries(self.task_ids)
    }

    pub fn new() -> (r: Self)
        ensures
            r@.dom() == Set::<UniqueWeight>::empty(),
    {
        Self { task_ids: skip_map_new() }
    }

    pub fn insert_task(&mut self, u: TaskId, task: TaskInQueue)
        requires
            !old(self)@.dom().contains(u),
        ensures
            final(self)@ == old(self)@.insert(u, task.0),
    {
        skip_map_get_or_insert(&mut self.task_ids, u, task.0);
    }

    pub fn remove_task(&mut self, u: TaskId)
        requires
            old(self)@.dom().contains(u),
        ensures
            final(self)@ == old(self)@.remove(u),
    {
        skip_map_remove(&mut self.task_ids, u);
    }

    /// The heaviest task, with its weight.
    pub fn heaviest_task_cursor(&self) -> (r: Option<(UniqueWeight, TaskInQueue)>)
        ensures
            match r {
                Some((k, task)) => is_heaviest(self@, k) && self@[k] == task.0,
                None => self@.dom() == Set::<UniqueWeight>::empty(),
            },
    {
        match skip_map_back(&self.task_ids) {
            Some((k, task)) => Some((k, TaskInQueue(task))),
            None => None,
        }
    }
}

/// `k` is the greatest key of `queue`.
pub open spec fn is_heaviest(queue: Map<UniqueWeight, usize>, k: UniqueWeight) -> bool {
    queue.dom().contains(k) && forall|j: UniqueWeight| #[trigger] queue.dom().contains(j) ==> j <= k
}

/// Where a task stands: never blocked so far, blocked, let through after having been blocked, or
/// executed.
#[derive(Clone, Copy, Debug, PartialEq, Eq, Structural)]
pub enum Contention {
    Fresh,
    Contended,
    Uncontended,
    Finished,
}

/// A transaction with the locks that it needs, and what happened to it so far.
#[derive(Debug)]
pub struct Task {
    pub unique_weight: UniqueWeight,
    pub tx: SanitizedTransaction,
    pub lock_attempts: Vec<LockAttempt>,
    pub contention_count: usize,
    pub busiest_page_cu: CU,
    pub uncontended: Contention,
    pub sequence_time: usize,
    pub sequence_end_time: usize,
    pub queue_time: usize,
    pub queue_end_time: usize,
    pub execute_time: usize,
    pub commit_time: usize,
    pub for_indexer: Vec<LockAttempt>,
}

impl Task {
    /// Nothing has happened to the task yet.
    pub open spec fn is_new(self) -> bool {
        &&& self.contention_count == 0
        &&& self.busiest_page_cu == 0
        &&& self.uncontended == Contention::Fresh
        &&& self.sequence_time == usize::MAX
        &&& self.sequence_end_time == usize::MAX
        &&& self.queue_time == usize::MAX
        &&& self.queue_end_time == usize::MAX
        &&& self.execute_time == usize::MAX
        &&& self.commit_time == usize::MAX
    }

    pub fn new_for_queue<NAST: NotAtScheduleThread>(
        _nast: NAST,
        unique_weight: UniqueWeight,
        tx: (SanitizedTransaction, Vec<LockAttempt>),
    ) -> (r: Self)
        ensures
            r.is_new(),
            r.unique_weight == unique_weight,
            r.tx == tx.0,
            r.lock_attempts == tx.1,
            r.for_indexer@ == unmade(tx.1@),
    {
        let for_indexer = clone_attempts_for_test(&tx.1);
        Self {
            unique_weight,
            tx: tx.0,
            lock_attempts: tx.1,
            contention_count: 0,
            busiest_page_cu: 0,
            uncontended: Contention::Fresh,
            sequence_time: usize::MAX,
            sequence_end_time: usize::MAX,
            queue_time: usize::MAX,
            queue_end_time: usize::MAX,
            execute_time: usize::MAX,
            commit_time: usize::MAX,
            for_indexer,
        }
    }

    /// The task as it was before anything happened to it, apart from locks already handed over.
    pub fn clone_for_test<NAST: NotAtScheduleThread>(&self, _nast: NAST) -> (r: Self)
        ensures
            r.is_new(),
            r.unique_weight == self.unique_weight,
            r.tx.message_hash == self.tx.message_hash,
            r.tx.account_locks.writable@ == self.tx.account_locks.writable@,
            r.tx.account_locks.readonly@ == self.tx.account_locks.readonly@,
            r.lock_attempts@ == unmade(self.lock_attempts@),
            r.for_indexer@ == unmade(self.lock_attempts@),
    {
        Self {
            unique_weight: self.unique_weight,
            tx: self.tx.copy(),
            lock_attempts: clone_attempts_for_test(&self.lock_attempts),
            contention_count: 0,
            busiest_page_cu: 0,
            uncontended: Contention::Fresh,
            sequence_time: usize::MAX,
            sequence_end_time: usize::MAX,
            queue_time: usize::MAX,
            queue_end_time: usize::MAX,
            execute_time: usize::MAX,
            commit_time: usize::MAX,
            for_indexer: clone_attempts_for_test(&self.lock_attempts),
        }
    }

    /// The place of the transaction in its entries: the heaviest is the first.
    pub fn transaction_index_in_entries_for_replay(&self) -> (r: u64)
        ensures
            r == u64::MAX - self.unique_weight,
    {
        u64::MAX - self.unique_weight
    }

    pub fn clone_in_queue(this: &TaskInQueue) -> (r: TaskInQueue)
        ensures
            r == *this,
    {
        *this
    }

    pub fn update_busiest_page_cu(&mut self, cu: CU)
        ensures
            *final(self) == (Task { busiest_page_cu: cu, ..*old(self) }),
    {
        self.busiest_page_cu = cu;
    }

    /// Sequence times are not recorded.
    pub fn record_sequence_time(&self, _clock: usize) {
    }

    pub fn sequence_time(&self) -> (r: usize)
        ensures
            r == self.sequence_time,
    {
        self.sequence_time
    }

    pub fn sequence_end_time(&self) -> (r: usize)
        ensures
            r == self.sequence_end_time,
    {
        self.sequence_end_time
    }

    /// Queue times are not recorded.
    pub fn record_queue_time(&self, _seq_clock: usize, _queue_clock: usize) {
    }

    pub fn queue_time(&self) -> (r: usize)
        ensures
            r == self.queue_time,
    {
        self.queue_time
    }

    pub fn queue_end_time(&self) -> (r: usize)
        ensures
            r == self.queue_end_time,
    {
        self.queue_end_time
    }

    pub fn record_execute_time(&mut self, _queue_clock: usize, execute_clock: usize)
        ensures
            *final(self) == (Task { execute_time: execute_clock, ..*old(self) }),
    {
        self.execute_time = execute_clock;
    }

    pub fn execute_time(&self) -> (r: usize)
        ensures
            r == self.execute_time,
    {
        self.execute_time
    }

    /// Commit times are not recorded.
    pub fn record_commit_time(&self, _execute_clock: usize) {
    }

    pub fn commit_time(&self) -> (r: usize)
        ensures
            r == self.commit_time,
    {
        self.commit_time
    }

    pub fn queue_time_label(&self) -> (r: String)
        requires
            self.queue_time <= self.queue_end_time,
        ensures
            r@ == "queue: ["@ + text::decimal(self.queue_time as nat) + "qT.."@ + text::decimal(
                self.queue_end_time as nat,
            ) + "qT; "@ + text::decimal((self.queue_end_time - self.queue_time) as nat) + "qD]"@,
    {
        let mut s = String::from_str("queue: [");
        push_decimal(&mut s, self.queue_time as u64);
        s.append("qT..");
        push_decimal(&mut s, self.queue_end_time as u64);
        s.append("qT; ");
        push_decimal(&mut s, (self.queue_end_time - self.queue_time) as u64);
        s.append("qD]");
        s
    }

    /// The line that is logged of the times of a task.
    pub fn trace_timestamps(&self, prefix: &str) -> (r: String)
        requires
            self.sequence_time <= self.sequence_end_time,
            self.queue_time <= self.queue_end_time,
            self.execute_time <= self.commit_time,
        ensures
            r@ == prefix@ + ": "@ + text::hexadecimal(self.unique_weight as nat, 16) + " seq: ["@
                + text::decimal(self.sequence_time as nat) + "sT.."@ + text::decimal(
                self.sequence_end_time as nat,
            ) + "sT; "@ + text::decimal((self.sequence_end_time - self.sequence_time) as nat)
                + "sD], queue: ["@ + text::decimal(self.queue_time as nat) + "qT.."@
                + text::decimal(self.queue_end_time as nat) + "qT; "@ + text::decimal(
                (self.queue_end_time - self.queue_time) as nat,
            ) + "qD] exec: ["@ + text::decimal(self.execute_time as nat) + "eT.."@ + text::decimal(
                self.commit_time as nat,
            ) + "eT; "@ + text::decimal((self.commit_time - self.execute_time) as nat) + "eD]"@,
    {
        let mut s = String::from_str(prefix);
        s.append(": ");
        push_hexadecimal(&mut s, self.unique_weight, 16);
        s.append(" seq: [");
        push_decimal(&mut s, self.sequence_time as u64);
        s.append("sT..");
        push_decimal(&mut s, self.sequence_end_time as u64);
        s.append("sT; ");
        push_decimal(&mut s, (self.sequence_end_time - self.sequence_time) as u64);
        s.append("sD], queue: [");
        push_decimal(&mut s, self.queue_time as u64);
        s.append("qT..");
        push_decimal(&mut s, self.queue_end_time as u64);
        s.append("qT; ");
        push_decimal(&mut s, (self.queue_end_time - self.queue_time) as u64);
        s.append("qD] exec: [");
        push_decimal(&mut s, self.execute_time as u64);
        s.append("eT..");
        push_decimal(&mut s, self.commit_time as u64);
        s.append("eT; ");
        push_decimal(&mut s, (self.commit_time - self.execute_time) as u64);
        s.append("eD]");
        s
    }

    pub fn currently_contended(&self) -> (r: bool)
        ensures
            r == (self.uncontended == Contention::Contended),
    {
        self.uncontended == Contention::Contended
    }

    pub fn already_finished(&self) -> (r: bool)
        ensures
            r == (self.uncontended == Contention::Finished),
    {
        self.uncontended == Contention::Finished
    }

    pub fn mark_as_contended(&mut self)
        ensures
            *final(self) == (Task { uncontended: Contention::Contended, ..*old(self) }),
    {
        self.uncontended = Contention::Contended;
    }

    pub fn mark_as_uncontended(&mut self)
        requires
            old(self).uncontended == Contention::Contended,
        ensures
            *final(self) == (Task { uncontended: Contention::Uncontended, ..*old(self) }),
    {
        self.uncontended = Contention::Uncontended;
    }

    pub fn mark_as_finished(&mut self)
        requires
            old(self).uncontended != Contention::Finished,
            old(self).uncontended != Contention::Contended,
        ensures
            *final(self) == (Task { uncontended: Contention::Finished, ..*old(self) }),
    {
        self.uncontended = Contention::Finished;
    }

    /// What a stuck task is found by: the cheaper its busiest account the sooner it is tried, and
    /// the heavier the sooner.
    pub fn stuck_task_id(&self) -> (r: StuckTaskId)
        requires
            self.busiest_page_cu != 0,
        ensures
            r == (self.busiest_page_cu, (u64::MAX - self.unique_weight) as u64),
    {
        (self.busiest_page_cu, u64::MAX - self.unique_weight)
    }

    pub fn contention_count(&self) -> (r: usize)
        ensures
            r == self.contention_count,
    {
        self.contention_count
    }
}

/// Tasks that were not tried yet, by weight.
#[derive(Debug, Clone)]
pub struct TaskQueue {
    pub tasks: BTreeMap<UniqueWeight, usize>,
}

impl TaskQueue {
    pub fn new() -> (r: Self)
        ensures
            r.tasks@ == Map::<UniqueWeight, usize>::empty(),
    {
        Self { tasks: BTreeMap::new() }
    }

    pub fn add_to_schedule(&mut self, unique_weight: UniqueWeight, task: TaskInQueue)
        requires
            !old(self).tasks@.dom().contains(unique_weight),
        ensures
            final(self).tasks@ == old(self).tasks@.insert(unique_weight, task.0),
    {
        self.tasks.insert(unique_weight, task.0);
    }

    /// The weight of the heaviest task.
    pub fn heaviest_entry_to_execute(&self) -> (r: Option<UniqueWeight>)
        ensures
            match r {
                Some(k) => is_heaviest(self.tasks@, k),
                None => self.tasks@.dom() == Set::<UniqueWeight>::empty(),
            },
    {
        last_key_u64(&self.tasks)
    }

    pub fn task_count(&self) -> (r: usize)
        ensures
            r == self.tasks@.len(),
    {
        self.tasks.len()
    }
}

} // verus!
