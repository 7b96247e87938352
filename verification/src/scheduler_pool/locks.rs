use crate::scheduler::usage::{Lock, PageRc, RequestedUsage};
use crate::types::SanitizedTransaction;
use std::collections::BTreeMap;
use vstd::prelude::*;

verus! {

/// The weight by which tasks are ordered: the heavier of two tasks goes first.
pub type UniqueWeight = u128;

/// A task of the arena, by its number.
#[derive(Clone, Copy, Debug, PartialEq, Eq, Hash, Structural)]
pub struct TaskInQueue(pub usize);

/// Whether the last attempt at a lock got it.
#[derive(Clone, Copy, Debug, PartialEq, Eq, Structural)]
pub enum LockStatus {
    Succeded,
    Failed,
}

/// An attempt to lock one page.
#[derive(Clone, Copy, Debug, PartialEq, Eq, Structural)]
pub struct LockAttempt {
    pub page: PageRc,
    pub status: LockStatus,
    pub requested_usage: RequestedUsage,
}

impl LockAttempt {
    /// The lock that the attempt is for.
    pub open spec fn lock(self) -> Lock {
        (self.page, self.requested_usage)
    }

    pub fn new(page: PageRc, requested_usage: RequestedUsage) -> (r: Self)
        ensures
            r == (LockAttempt { page, status: LockStatus::Succeded, requested_usage }),
    {
        Self { page, status: LockStatus::Succeded, requested_usage }
    }

    /// The attempt as it was before it was made.
    pub fn clone_for_test(&self) -> (r: Self)
        ensures
            r == (LockAttempt {
                page: self.page,
                status: LockStatus::Succeded,
                requested_usage: self.requested_usage,
            }),
    {
        Self { page: self.page, status: LockStatus::Succeded, requested_usage: self.requested_usage }
    }
}

/// Where a task stands: never blocked so far, blocked, or let through after having been blocked.
#[derive(Clone, Copy, Debug, PartialEq, Eq, Structural)]
pub enum Contention {
    Fresh,
    Contended,
    Uncontended,
}

/// A transaction with the locks that it needs.
#[derive(Debug)]
pub struct Task {
    pub unique_weight: UniqueWeight,
    pub tx: SanitizedTransaction,
    pub lock_attempts: Vec<LockAttempt>,
    pub contention_count: usize,
    pub uncontended: Contention,
}

impl Task {
    pub fn new_for_queue(
        unique_weight: UniqueWeight,
        tx: (SanitizedTransaction, Vec<LockAttempt>),
    ) -> (r: Self)
        ensures
            r == (Task {
                unique_weight,
                tx: tx.0,
                lock_attempts: tx.1,
                contention_count: 0,
                uncontended: Contention::Fresh,
            }),
    {
        Self {
            unique_weight,
            tx: tx.0,
            lock_attempts: tx.1,
            contention_count: 0,
            uncontended: Contention::Fresh,
        }
    }

    pub fn currently_contended(&self) -> (r: bool)
        ensures
            r == (self.uncontended == Contention::Contended),
    {
        self.uncontended == Contention::Contended
    }

    pub fn mark_as_contended(&mut self)
        ensures
            *final(self) == (Task { uncontended: Contention::Contended, ..*old(self) }),
    {
        self.uncontended = Contention::Contended;
    }

    pub fn mark_as_uncontended(&mut self)
        requires
            old(self).uncontended == Contention::Contended,
        ensures
            *final(self) == (Task { uncontended: Contention::Uncontended, ..*old(self) }),
    {
        self.uncontended = Contention::Uncontended;
    }
}

/// The tasks of a queue ordered by weight, each under its weight.
#[derive(Debug)]
pub struct BTreeMapTaskIds {
    pub blocked_task_queue: BTreeMap<UniqueWeight, usize>,
}

/// `k` is the weight of the heaviest contended task of `queue`.
pub open spec fn is_heaviest_contended(
    queue: Map<UniqueWeight, usize>,
    tasks: Seq<Task>,
    k: UniqueWeight,
) -> bool {
    &&& queue.dom().contains(k)
    &&& tasks[queue[k] as int].uncontended == Contention::Contended
    &&& forall|j: UniqueWeight| #[trigger]
        queue.dom().contains(j) && tasks[queue[j] as int].uncontended == Contention::Contended
            ==> j <= k
}

/// The heaviest contended task of `queue`, if any is contended.
pub open spec fn heaviest_contended(
    queue: Map<UniqueWeight, usize>,
    tasks: Seq<Task>,
) -> Option<TaskInQueue> {
    if exists|k: UniqueWeight| is_heaviest_contended(queue, tasks, k) {
        Some(TaskInQueue(queue[choose|k: UniqueWeight| is_heaviest_contended(queue, tasks, k)]))
    } else {
        None
    }
}

impl BTreeMapTaskIds {
    pub open spec fn view(&self) -> Map<UniqueWeight, usize> {
        self.blocked_task_queue@
    }

    pub fn insert_task(&mut self, unique_weight: UniqueWeight, task: TaskInQueue)
        requires
            !old(self)@.dom().contains(unique_weight),
        ensures
            final(self)@ == old(self)@.insert(unique_weight, task.0),
    {
        self.blocked_task_queue.insert(unique_weight, task.0);
    }

    pub fn remove_task(&mut self, u: UniqueWeight)
        requires
            old(self)@.dom().contains(u),
        ensures
            final(self)@ == old(self)@.remove(u),
    {
        self.blocked_task_queue.remove(&u);
    }

    pub fn heaviest_weight(&self) -> (r: Option<UniqueWeight>)
        ensures
            match r {
                Some(k) => self@.dom().contains(k) && (forall|j: UniqueWeight| #[trigger]
                    self@.dom().contains(j) ==> j <= k),
                None => self@.dom() == Set::<UniqueWeight>::empty(),
            },
    {
        crate::collections::last_key_u128(&self.blocked_task_queue)
    }

    pub fn reindex(&mut self, should_remove: bool, uq: UniqueWeight, tasks: &Vec<Task>) -> (r: Option<
        TaskInQueue,
    >)
        requires
            should_remove ==> old(self)@.dom().contains(uq),
            forall|k: UniqueWeight| #[trigger]
                old(self)@.dom().contains(k) ==> old(self)@[k] < tasks@.len(),
        ensures
            final(self)@ == if should_remove { old(self)@.remove(uq) } else { old(self)@ },
            !should_remove ==> *final(self) == *old(self),
            r == heaviest_contended(final(self)@, tasks@),
    {
        if should_remove {
            self.remove_task(uq);
        }
        let ghost queue = self@;
        let mut heaviest: Option<UniqueWeight> = None;
        let entries = self.blocked_task_queue.iter();
        let ghost items = vstd::std_specs::iter::IteratorSpec::remaining(&entries);
        proof {
            assert(forall|i: int|
                0 <= i < items.len() ==> queue.contains_key(*(#[trigger] items[i]).0)
                    && queue[*items[i].0] == *items[i].1);
            assert(forall|k: UniqueWeight| #[trigger]
                queue.contains_key(k) ==> items.contains((&k, &queue[k])));
        }
        for entry in it: entries
            invariant
                it.seq() == items,
                queue == self@,
                forall|k: UniqueWeight| #[trigger]
                    queue.dom().contains(k) ==> queue[k] < tasks@.len(),
                forall|i: int|
                    0 <= i < items.len() ==> queue.contains_key(*(#[trigger] items[i]).0)
                        && queue[*items[i].0] == *items[i].1,
                match heaviest {
                    Some(h) => queue.dom().contains(h) && tasks@[queue[h] as int].uncontended
                        == Contention::Contended,
                    None => true,
                },
                forall|i: int|
                    0 <= i < it.index() ==> tasks@[*(#[trigger] items[i]).1 as int].uncontended
                        == Contention::Contended ==> heaviest is Some && *items[i].0
                        <= heaviest->0,
        {
            assert(queue.dom().contains(*items[it.index() as int].0));
            if tasks[*entry.1].currently_contended() {
                let heavier = match heaviest {
                    Some(h) => h < *entry.0,
                    None => true,
                };
                if heavier {
                    heaviest = Some(*entry.0);
                }
            }
        }
        assert forall|k: UniqueWeight| #[trigger]
            queue.dom().contains(k) && tasks@[queue[k] as int].uncontended
                == Contention::Contended implies heaviest is Some && k <= heaviest->0 by {
            assert(queue.contains_key(k));
            assert(items.contains((&k, &queue[k])));
            let i = choose|i: int| 0 <= i < items.len() && items[i] == (&k, &queue[k]);
            assert(*items[i].0 == k);
        }
        match heaviest {
            Some(h) => {
                assert(is_heaviest_contended(queue, tasks@, h));
                match self.blocked_task_queue.get(&h) {
                    Some(task) => Some(TaskInQueue(*task)),
                    None => None,
                }
            },
            None => None,
        }
    }
}

} // verus!
