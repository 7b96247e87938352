//! Picking tasks, locking their pages, and committing what was executed.

use crate::collections::last_key_u64;
use crate::scheduler::address_book::{AddressBook, Page, ProvisioningTracker};
use crate::scheduler::contended;
use crate::scheduler::contended::ExecutionEnvironment;
use crate::scheduler::locking;
use crate::scheduler::locking::{attempt_lock_for_execution, reset_lock_for_failed_execution};
use crate::scheduler::release;
use crate::scheduler::release::unlock_after_execution;
use crate::scheduler::task;
use crate::scheduler::task::{
    Contention, LockAttempt, LockStatus, Task, TaskInQueue, TaskQueue, UniqueWeight, CU,
};
use crate::scheduler::usage::{Lock, PageRc, RequestedUsage, Usage};
use rand::Rng;
use vstd::multiset::Multiset;
use vstd::prelude::*;

verus! {

/// How a task came to be selected.
#[derive(Clone, Copy, Debug, PartialEq, Eq, Structural)]
pub enum TaskSource {
    Runnable,
    Contended,
}

/// The clocks of the stages that a task goes through, and the counts of the tasks that wait and of
/// the trackers that are not fulfilled.
#[derive(Clone, Copy, Debug, PartialEq, Eq, Structural)]
pub struct Counters {
    pub sequence_time: usize,
    pub queue_clock: usize,
    pub execute_clock: usize,
    pub commit_clock: usize,
    pub contended_count: usize,
    pub provisioning_tracker_count: usize,
}

/// The stage that schedules.
pub struct ScheduleStage {}

/// What a selection returns and takes out: the heaviest of the new tasks, or the heaviest of those
/// worth another try.
pub open spec fn selected(
    runnable0: Map<UniqueWeight, usize>,
    runnable1: Map<UniqueWeight, usize>,
    uncontended0: Map<UniqueWeight, usize>,
    uncontended1: Map<UniqueWeight, usize>,
    runnable_exclusive: bool,
    r: Option<(TaskSource, TaskInQueue)>,
) -> bool {
    match r {
        Some((source, t)) => if runnable_exclusive {
            &&& source == TaskSource::Runnable
            &&& uncontended1 == uncontended0
            &&& exists|k: UniqueWeight| #[trigger]
                task::is_heaviest(runnable0, k) && runnable0[k] == t.0 && runnable1
                    == runnable0.remove(k)
        } else {
            &&& source == TaskSource::Contended
            &&& runnable1 == runnable0
            &&& exists|k: UniqueWeight| #[trigger]
                task::is_heaviest(uncontended0, k) && uncontended0[k] == t.0 && uncontended1
                    == uncontended0.remove(k)
        },
        None => {
            &&& runnable1 == runnable0
            &&& uncontended1 == uncontended0
            &&& if runnable_exclusive {
                runnable0.dom() == Set::<UniqueWeight>::empty()
            } else {
                uncontended0.dom() == Set::<UniqueWeight>::empty()
            }
        },
    }
}

/// The task that a selection would take.
pub open spec fn next_selected(
    runnable: Map<UniqueWeight, usize>,
    uncontended: Map<UniqueWeight, usize>,
    runnable_exclusive: bool,
    source: TaskSource,
    t: TaskInQueue,
) -> bool {
    if runnable_exclusive {
        source == TaskSource::Runnable && exists|k: UniqueWeight| #[trigger]
            task::is_heaviest(runnable, k) && runnable[k] == t.0
    } else {
        source == TaskSource::Contended && exists|k: UniqueWeight| #[trigger]
            task::is_heaviest(uncontended, k) && uncontended[k] == t.0
    }
}

/// The heaviest task worth another try is heavier than the heaviest new task.
pub open spec fn contended_first(
    runnable: Map<UniqueWeight, usize>,
    uncontended: Map<UniqueWeight, usize>,
) -> bool {
    forall|r: UniqueWeight, c: UniqueWeight| #[trigger]
        task::is_heaviest(runnable, r) && #[trigger] task::is_heaviest(uncontended, c) ==> r < c
}

/// The books differ in the tasks worth another try at most.
pub open spec fn same_but_for_uncontended(before: AddressBook, after: AddressBook) -> bool {
    &&& after.pages == before.pages
    &&& after.held == before.held
    &&& after.pending == before.pending
    &&& after.trackers == before.trackers
    &&& after.fulfilled_provisional_task_ids == before.fulfilled_provisional_task_ids
    &&& after.entries() == before.entries()
}

impl ScheduleStage {
    pub fn push_to_runnable_queue(
        unique_weight: UniqueWeight,
        task: TaskInQueue,
        runnable_queue: &mut TaskQueue,
    )
        requires
            !old(runnable_queue).tasks@.dom().contains(unique_weight),
        ensures
            final(runnable_queue).tasks@ == old(runnable_queue).tasks@.insert(
                unique_weight,
                task.0,
            ),
    {
        runnable_queue.add_to_schedule(unique_weight, task);
    }

    /// The weight of the heaviest task worth another try.
    pub fn get_heaviest_from_contended(book: &AddressBook) -> (r: Option<UniqueWeight>)
        ensures
            match r {
                Some(k) => task::is_heaviest(book.uncontended_task_ids@, k),
                None => book.uncontended_task_ids@.dom() == Set::<UniqueWeight>::empty(),
            },
    {
        last_key_u64(&book.uncontended_task_ids)
    }

    /// Takes the next task to lock out of its queue: of the new tasks if `runnable_exclusive`, or
    /// else of those worth another try.
    pub fn select_next_task(
        runnable_queue: &mut TaskQueue,
        book: &mut AddressBook,
        runnable_exclusive: bool,
    ) -> (r: Option<(TaskSource, TaskInQueue)>)
        requires
            contended_first(old(runnable_queue).tasks@, old(book).uncontended_task_ids@),
        ensures
            same_but_for_uncontended(*old(book), *final(book)),
            selected(
                old(runnable_queue).tasks@,
                final(runnable_queue).tasks@,
                old(book).uncontended_task_ids@,
                final(book).uncontended_task_ids@,
                runnable_exclusive,
                r,
            ),
    {
        match (runnable_queue.heaviest_entry_to_execute(), Self::get_heaviest_from_contended(book)) {
            (Some(weight_from_runnable), None) => {
                if runnable_exclusive {
                    Self::take_runnable(runnable_queue, weight_from_runnable)
                } else {
                    None
                }
            },
            (None, Some(weight_from_contended)) => {
                if runnable_exclusive {
                    None
                } else {
                    Self::take_contended(book, weight_from_contended)
                }
            },
            (Some(weight_from_runnable), Some(weight_from_contended)) => {
                assert(weight_from_runnable < weight_from_contended);
                if runnable_exclusive {
                    Self::take_runnable(runnable_queue, weight_from_runnable)
                } else {
                    Self::take_contended(book, weight_from_contended)
                }
            },
            (None, None) => None,
        }
    }

    fn take_runnable(runnable_queue: &mut TaskQueue, k: UniqueWeight) -> (r: Option<
        (TaskSource, TaskInQueue),
    >)
        requires
            task::is_heaviest(old(runnable_queue).tasks@, k),
        ensures
            final(runnable_queue).tasks@ == old(runnable_queue).tasks@.remove(k),
            r == Some((TaskSource::Runnable, TaskInQueue(old(runnable_queue).tasks@[k]))),
    {
        assert(runnable_queue.tasks@.contains_key(k));
        match runnable_queue.tasks.remove(&k) {
            Some(t) => Some((TaskSource::Runnable, TaskInQueue(t))),
            None => None,
        }
    }

    fn take_contended(book: &mut AddressBook, k: UniqueWeight) -> (r: Option<
        (TaskSource, TaskInQueue),
    >)
        requires
            task::is_heaviest(old(book).uncontended_task_ids@, k),
        ensures
            same_but_for_uncontended(*old(book), *final(book)),
            final(book).uncontended_task_ids@ == old(book).uncontended_task_ids@.remove(k),
            r == Some((TaskSource::Contended, TaskInQueue(old(book).uncontended_task_ids@[k]))),
    {
        assert(book.uncontended_task_ids@.contains_key(k));
        match book.uncontended_task_ids.remove(&k) {
            Some(t) => Some((TaskSource::Contended, TaskInQueue(t))),
            None => None,
        }
    }
}

/// The trackers that wait for page `p` after tracker `tracker` was added for those of the first `n`
/// attempts that got their lock provisionally.
pub open spec fn with_tracker(
    ids: Seq<usize>,
    attempts: Seq<LockAttempt>,
    n: nat,
    p: int,
    tracker: usize,
) -> Seq<usize>
    decreases n,
{
    if n == 0 {
        ids
    } else {
        let before = with_tracker(ids, attempts, (n - 1) as nat, p, tracker);
        if attempts[n - 1].status == LockStatus::Provisional && attempts[n - 1].target.0 == p {
            before.push(tracker)
        } else {
            before
        }
    }
}

/// The books differ in the trackers that wait for pages at most.
pub open spec fn provisioned(
    before: AddressBook,
    after: AddressBook,
    attempts: Seq<LockAttempt>,
    n: nat,
    tracker: usize,
) -> bool {
    &&& after.held == before.held
    &&& after.pending == before.pending
    &&& after.trackers == before.trackers
    &&& after.uncontended_task_ids == before.uncontended_task_ids
    &&& after.fulfilled_provisional_task_ids == before.fulfilled_provisional_task_ids
    &&& after.entries() == before.entries()
    &&& after.pages@.len() == before.pages@.len()
    &&& forall|p: int|
        0 <= p < before.pages@.len() ==> {
            &&& (#[trigger] after.pages@[p]) == (Page {
                provisional_task_ids: after.pages@[p].provisional_task_ids,
                ..before.pages@[p]
            })
            &&& after.pages@[p].provisional_task_ids@ == with_tracker(
                before.pages@[p].provisional_task_ids@,
                attempts,
                n,
                p,
                tracker,
            )
        }
}

/// Which trackers wait does not matter for whether a book is well-formed.
proof fn lemma_provisioned_wf(
    before: AddressBook,
    after: AddressBook,
    attempts: Seq<LockAttempt>,
    n: nat,
    tracker: usize,
)
    requires
        before.wf(),
        provisioned(before, after, attempts, n, tracker),
    ensures
        after.wf(),
        before.steady() ==> after.steady(),
{
    assert forall|q: PageRc| q.0 < after.pages@.len() implies #[trigger] after.page_wf(q) by {
        assert(before.page_wf(q));
        assert(after.pages@[q.0 as int].current_usage == before.pages@[q.0 as int].current_usage);
    }
    assert forall|q: int| 0 <= q < after.pages@.len() implies after.entries().dom().contains(
        (#[trigger] after.pages@[q]).address.0,
    ) && after.entries()[after.pages@[q].address.0] == q by {
        assert(before.pages@[q].address == after.pages@[q].address);
    }
    assert forall|a: [u8; 32]| #[trigger] after.entries().dom().contains(a) implies
        after.entries()[a] < after.pages@.len()
        && after.pages@[after.entries()[a] as int].address.0 == a by {
        let q = before.entries()[a] as int;
        assert(before.pages@[q].address.0 == a);
        assert(after.pages@[q].address == before.pages@[q].address);
    }
    if before.steady() {
        assert forall|q: PageRc|
            q.0 < after.pages@.len() && (#[trigger] after.page(q)).current_usage
                == Usage::Unused implies after.page(q).next_usage == Usage::Unused by {
            assert(before.page(q) == before.pages@[q.0 as int]);
            assert(after.pages@[q.0 as int].current_usage
                == before.pages@[q.0 as int].current_usage);
        }
    }
}

impl ScheduleStage {
    /// Lets a tracker wait for each page that its task got provisionally.
    pub fn finalize_lock_for_provisional_execution(
        book: &mut AddressBook,
        lock_attempts: &Vec<LockAttempt>,
        tracker: usize,
    )
        requires
            old(book).wf(),
            locking::in_book(*old(book), lock_attempts@),
            forall|i: int|
                0 <= i < lock_attempts@.len() ==> (#[trigger] lock_attempts@[i]).status
                    != LockStatus::Failed,
        ensures
            final(book).wf(),
            old(book).steady() ==> final(book).steady(),
            provisioned(
                *old(book),
                *final(book),
                lock_attempts@,
                lock_attempts@.len(),
                tracker,
            ),
    {
        let ghost attempts = lock_attempts@;
        let mut i: usize = 0;
        while i < lock_attempts.len()
            invariant
                i <= attempts.len(),
                attempts == lock_attempts@,
                locking::in_book(*old(book), attempts),
                provisioned(*old(book), *book, attempts, i as nat, tracker),
            decreases attempts.len() - i,
        {
            let ghost book0 = *book;
            assert(attempts[i as int].target.0 < book.pages@.len());
            match lock_attempts[i].status {
                LockStatus::Provisional => {
                    let p: usize = lock_attempts[i].target.0;
                    book.pages[p].provisional_task_ids.push(tracker);
                },
                LockStatus::Succeded => {},
                LockStatus::Failed => {},
            }
            proof {
                assert forall|p: int| 0 <= p < old(book).pages@.len() implies {
                    &&& (#[trigger] book.pages@[p]) == (Page {
                        provisional_task_ids: book.pages@[p].provisional_task_ids,
                        ..old(book).pages@[p]
                    })
                    &&& book.pages@[p].provisional_task_ids@ == with_tracker(
                        old(book).pages@[p].provisional_task_ids@,
                        attempts,
                        (i + 1) as nat,
                        p,
                        tracker,
                    )
                } by {
                    assert(book0.pages@[p] == (Page {
                        provisional_task_ids: book0.pages@[p].provisional_task_ids,
                        ..old(book).pages@[p]
                    }));
                }
            }
            i = i + 1;
        }
        proof {
            lemma_provisioned_wf(*old(book), *book, attempts, attempts.len(), tracker);
        }
    }
}

/// All tasks but one are as they were, and of that one the transaction, its weight, its times and
/// the copy of its attempts.
pub open spec fn same_but_for_task(tasks0: Seq<Task>, tasks1: Seq<Task>, t: TaskInQueue) -> bool {
    let t0 = tasks0[t.0 as int];
    let t1 = tasks1[t.0 as int];
    &&& tasks1.len() == tasks0.len()
    &&& forall|i: int| 0 <= i < tasks0.len() && i != t.0 ==> #[trigger] tasks1[i] == tasks0[i]
    &&& t1.unique_weight == t0.unique_weight
    &&& t1.tx == t0.tx
    &&& t1.for_indexer == t0.for_indexer
    &&& t1.sequence_time == t0.sequence_time
    &&& t1.sequence_end_time == t0.sequence_end_time
    &&& t1.queue_time == t0.queue_time
    &&& t1.queue_end_time == t0.queue_end_time
    &&& t1.execute_time == t0.execute_time
    &&& t1.commit_time == t0.commit_time
}

/// How the attempts of a task come out.
pub open spec fn made_by(
    book: AddressBook,
    tasks: Seq<Task>,
    source: TaskSource,
    prefer_immediate: bool,
    t: TaskInQueue,
) -> Seq<LockAttempt> {
    locking::attempted(
        book,
        source == TaskSource::Runnable || prefer_immediate,
        tasks[t.0 as int].unique_weight,
        tasks[t.0 as int].lock_attempts@,
    )
}

/// The task did not get all its locks, and so got none. It was counted as blocked once more; a new
/// task waits for its pages from now on, and one that waited already stays worth another try.
pub open spec fn lock_failed(
    book0: AddressBook,
    book1: AddressBook,
    tasks0: Seq<Task>,
    tasks1: Seq<Task>,
    counters0: Counters,
    counters1: Counters,
    source: TaskSource,
    t: TaskInQueue,
    made: Seq<LockAttempt>,
) -> bool {
    let t0 = tasks0[t.0 as int];
    let t1 = tasks1[t.0 as int];
    let attempts = t0.lock_attempts@;
    &&& same_but_for_task(tasks0, tasks1, t)
    &&& t1.lock_attempts@ == made
    &&& t1.contention_count == (if t0.contention_count == usize::MAX {
        0
    } else {
        t0.contention_count + 1
    })
    &&& match source {
        TaskSource::Runnable => {
            &&& contended::indexed(
                book0,
                book1,
                attempts,
                attempts.len() as int,
                t0.unique_weight,
                t,
            )
            &&& t1.uncontended == Contention::Contended
            &&& t1.busiest_page_cu == locking::busiest_cu(book0, attempts, attempts.len())
            &&& counters1 == (Counters {
                contended_count: (counters0.contended_count + 1) as usize,
                queue_clock: (counters0.queue_clock + 1) as usize,
                ..counters0
            })
        },
        TaskSource::Contended => {
            &&& book1.pages@ == book0.pages@
            &&& book1.held@ == book0.held@
            &&& book1.pending@ == book0.pending@
            &&& book1.trackers == book0.trackers
            &&& book1.fulfilled_provisional_task_ids == book0.fulfilled_provisional_task_ids
            &&& book1.entries() == book0.entries()
            &&& book1.uncontended_task_ids@ == book0.uncontended_task_ids@.insert(
                t0.unique_weight,
                t.0,
            )
            &&& t1.uncontended == t0.uncontended
            &&& t1.busiest_page_cu == t0.busiest_page_cu
            &&& counters1 == counters0
        },
    }
}

/// The task got all its locks, some of them provisionally. It no longer waits, and a tracker counts
/// the pages that are not free for it yet.
pub open spec fn lock_provisional(
    book0: AddressBook,
    book1: AddressBook,
    tasks0: Seq<Task>,
    tasks1: Seq<Task>,
    counters0: Counters,
    counters1: Counters,
    t: TaskInQueue,
    made: Seq<LockAttempt>,
) -> bool {
    let t0 = tasks0[t.0 as int];
    let t1 = tasks1[t.0 as int];
    let tracker = book0.trackers@.len() as usize;
    &&& same_but_for_task(tasks0, tasks1, t)
    &&& t1.lock_attempts@ == made
    &&& t1.contention_count == t0.contention_count
    &&& t1.uncontended == Contention::Uncontended
    &&& t1.busiest_page_cu == locking::busiest_cu(book0, t0.lock_attempts@, made.len())
    &&& book1.held@ == book0.held@.add(locking::locks_with(made, LockStatus::Succeded, made.len()))
    &&& book1.pending@ == book0.pending@.add(
        locking::locks_with(made, LockStatus::Provisional, made.len()),
    )
    &&& book1.entries() == book0.entries()
    &&& book1.uncontended_task_ids == book0.uncontended_task_ids
    &&& book1.fulfilled_provisional_task_ids == book0.fulfilled_provisional_task_ids
    &&& book1.trackers@ == book0.trackers@.push(
        ProvisioningTracker {
            remaining_count: locking::count_with(
                made,
                LockStatus::Provisional,
                made.len(),
            ) as usize,
            task: t,
        },
    )
    &&& book1.pages@.len() == book0.pages@.len()
    &&& forall|p: int|
        0 <= p < book0.pages@.len() ==> {
            &&& (#[trigger] book1.pages@[p]) == (Page {
                current_usage: book1.pages@[p].current_usage,
                next_usage: book1.pages@[p].next_usage,
                provisional_task_ids: book1.pages@[p].provisional_task_ids,
                ..book0.pages@[p]
            })
            &&& book1.pages@[p].provisional_task_ids@ == with_tracker(
                book0.pages@[p].provisional_task_ids@,
                made,
                made.len(),
                p,
                tracker,
            )
        }
    &&& counters1 == (Counters {
        contended_count: (counters0.contended_count - 1) as usize,
        provisioning_tracker_count: (counters0.provisioning_tracker_count + 1) as usize,
        ..counters0
    })
}

/// The task got all its locks, which it hands over. One that waited no longer does.
pub open spec fn lock_succeeded(
    book0: AddressBook,
    book1: AddressBook,
    tasks0: Seq<Task>,
    tasks1: Seq<Task>,
    counters0: Counters,
    counters1: Counters,
    source: TaskSource,
    t: TaskInQueue,
    made: Seq<LockAttempt>,
) -> bool {
    let t0 = tasks0[t.0 as int];
    let t1 = tasks1[t.0 as int];
    &&& same_but_for_task(tasks0, tasks1, t)
    &&& t1.lock_attempts@ == Seq::<LockAttempt>::empty()
    &&& t1.contention_count == t0.contention_count
    &&& locking::same_but_for_all_usages(book0, book1)
    &&& book1.held@ == book0.held@.add(locking::locks_with(made, LockStatus::Succeded, made.len()))
    &&& book1.pending@ == book0.pending@
    &&& match source {
        TaskSource::Runnable => {
            &&& t1.uncontended == t0.uncontended
            &&& t1.busiest_page_cu == locking::busiest_cu(book0, t0.lock_attempts@, made.len())
            &&& counters1 == (Counters {
                queue_clock: (counters0.queue_clock + 1) as usize,
                ..counters0
            })
        },
        TaskSource::Contended => {
            &&& t1.uncontended == Contention::Uncontended
            &&& t1.busiest_page_cu == t0.busiest_page_cu
            &&& counters1 == (Counters {
                contended_count: (counters0.contended_count - 1) as usize,
                ..counters0
            })
        },
    }
}

/// What must hold of a task for its locks to be tried.
pub open spec fn lockable(
    book: AddressBook,
    tasks: Seq<Task>,
    counters: Counters,
    source: TaskSource,
    prefer_immediate: bool,
    t: TaskInQueue,
) -> bool {
    let t0 = tasks[t.0 as int];
    let made = made_by(book, tasks, source, prefer_immediate, t);
    let failed = locking::count_with(made, LockStatus::Failed, made.len()) > 0;
    &&& t.0 < tasks.len()
    &&& locking::in_book(book, t0.lock_attempts@)
    &&& locking::room_for(book, t0.lock_attempts@.len())
    &&& source == TaskSource::Runnable ==> {
        &&& counters.queue_clock < usize::MAX
        &&& failed ==> counters.contended_count < usize::MAX && contended::can_wait(
            book,
            t0.unique_weight,
            t0.lock_attempts@,
        )
        &&& !failed ==> t0.uncontended != Contention::Finished
    }
    &&& source == TaskSource::Contended && !failed ==> {
        &&& counters.contended_count > 0
        &&& t0.uncontended == Contention::Contended
        &&& counters.provisioning_tracker_count < usize::MAX
        &&& book.trackers@.len() < usize::MAX
    }
}

/// Attempts that are made at once get nothing provisionally.
pub proof fn lemma_immediate_not_provisional(
    book: AddressBook,
    unique_weight: UniqueWeight,
    attempts: Seq<LockAttempt>,
    n: nat,
)
    requires
        n <= attempts.len(),
    ensures
        locking::tried(book, true, unique_weight, attempts, n).len() == n,
        locking::count_with(
            locking::tried(book, true, unique_weight, attempts, n),
            LockStatus::Provisional,
            n,
        ) == 0,
        locking::locks_with(
            locking::tried(book, true, unique_weight, attempts, n),
            LockStatus::Provisional,
            n,
        ) == Multiset::<Lock>::empty(),
    decreases n,
{
    if n > 0 {
        lemma_immediate_not_provisional(book, unique_weight, attempts, (n - 1) as nat);
        let before = locking::tried(book, true, unique_weight, attempts, (n - 1) as nat);
        let now = locking::tried(book, true, unique_weight, attempts, n);
        assert forall|i: int| 0 <= i < n - 1 implies #[trigger] now[i] == before[i] by {}
        locking::lemma_locks_with_prefix(now, before, LockStatus::Provisional, (n - 1) as nat);
        assert(now[n - 1].status != LockStatus::Provisional);
    }
}

/// Attempts of which none failed do not hold the status of failure.
pub proof fn lemma_none_with(attempts: Seq<LockAttempt>, status: LockStatus, n: nat)
    requires
        n <= attempts.len(),
        locking::count_with(attempts, status, n) == 0,
    ensures
        forall|i: int| 0 <= i < n ==> (#[trigger] attempts[i]).status != status,
        locking::locks_with(attempts, status, n) == Multiset::<Lock>::empty(),
    decreases n,
{
    if n > 0 {
        lemma_none_with(attempts, status, (n - 1) as nat);
    }
}

impl ScheduleStage {
    /// Counts a task as blocked once more. A new one waits for its pages from now on; one that
    /// waited already goes back to those worth another try.
    fn block_task(
        book: &mut AddressBook,
        tasks: &mut Vec<Task>,
        counters: &mut Counters,
        source: TaskSource,
        t: TaskInQueue,
        busiest_page_cu: CU,
        lock_attempts: &Vec<LockAttempt>,
    )
        requires
            old(book).wf(),
            old(book).steady(),
            t.0 < old(tasks)@.len(),
            locking::in_book(*old(book), lock_attempts@),
            source == TaskSource::Runnable ==> contended::can_wait(
                *old(book),
                old(tasks)@[t.0 as int].unique_weight,
                lock_attempts@,
            ) && old(counters).contended_count < usize::MAX,
        ensures
            final(book).wf(),
            final(book).steady(),
            match source {
                TaskSource::Runnable => {
                    &&& contended::indexed(
                        *old(book),
                        *final(book),
                        lock_attempts@,
                        lock_attempts@.len() as int,
                        old(tasks)@[t.0 as int].unique_weight,
                        t,
                    )
                    &&& *final(counters) == (Counters {
                        contended_count: (old(counters).contended_count + 1) as usize,
                        ..*old(counters)
                    })
                },
                TaskSource::Contended => {
                    &&& same_but_for_uncontended(*old(book), *final(book))
                    &&& final(book).uncontended_task_ids@ == old(book).uncontended_task_ids@.insert(
                        old(tasks)@[t.0 as int].unique_weight,
                        t.0,
                    )
                    &&& *final(counters) == *old(counters)
                },
            },
            final(tasks)@ == old(tasks)@.update(
                t.0 as int,
                Task {
                    contention_count: (if old(tasks)@[t.0 as int].contention_count == usize::MAX {
                        0
                    } else {
                        old(tasks)@[t.0 as int].contention_count + 1
                    }) as usize,
                    uncontended: if source == TaskSource::Runnable {
                        Contention::Contended
                    } else {
                        old(tasks)@[t.0 as int].uncontended
                    },
                    busiest_page_cu: if source == TaskSource::Runnable {
                        busiest_page_cu
                    } else {
                        old(tasks)@[t.0 as int].busiest_page_cu
                    },
                    ..old(tasks)@[t.0 as int]
                },
            ),
    {
        let i: usize = t.0;
        let unique_weight: UniqueWeight = tasks[i].unique_weight;
        let count: usize = tasks[i].contention_count;
        tasks[i].contention_count = count.wrapping_add(1);
        match source {
            TaskSource::Runnable => {
                tasks[i].mark_as_contended();
                counters.contended_count = counters.contended_count + 1;
                Task::index_with_address_book(book, unique_weight, t, lock_attempts);
                tasks[i].update_busiest_page_cu(busiest_page_cu);
            },
            TaskSource::Contended => {
                book.uncontended_task_ids.insert(unique_weight, i);
                proof {
                    release::lemma_same_pages_wf(*old(book), *book);
                }
            },
        }
    }

    /// Tries the locks of a selected task; a task that gets all of them at once is returned with
    /// them.
    fn lock_selected(
        book: &mut AddressBook,
        tasks: &mut Vec<Task>,
        counters: &mut Counters,
        prefer_immediate: bool,
        source: TaskSource,
        t: TaskInQueue,
    ) -> (r: Option<(UniqueWeight, TaskInQueue, Vec<LockAttempt>)>)
        requires
            old(book).wf(),
            old(book).steady(),
            lockable(*old(book), old(tasks)@, *old(counters), source, prefer_immediate, t),
        ensures
            final(book).wf(),
            final(book).steady(),
            lock_outcome(
                *old(book),
                *final(book),
                old(tasks)@,
                final(tasks)@,
                *old(counters),
                *final(counters),
                source,
                prefer_immediate,
                t,
                r,
            ),
    {
        let i: usize = t.0;
        let from_runnable = source == TaskSource::Runnable;
        if from_runnable {
            tasks[i].record_queue_time(counters.sequence_time, counters.queue_clock);
            counters.queue_clock = counters.queue_clock + 1;
        }
        let unique_weight: UniqueWeight = tasks[i].unique_weight;
        let mut lock_attempts: Vec<LockAttempt> = Vec::new();
        std::mem::swap(&mut lock_attempts, &mut tasks[i].lock_attempts);
        let ghost attempts = lock_attempts@;
        let ghost immediate = from_runnable || prefer_immediate;
        let (unlockable_count, provisional_count, busiest_page_cu) = attempt_lock_for_execution(
            from_runnable,
            prefer_immediate,
            book,
            unique_weight,
            &mut lock_attempts,
        );
        let ghost made = lock_attempts@;
        proof {
            locking::lemma_attempted(*old(book), immediate, unique_weight, attempts);
            lemma_made_same(*old(book), *book, unique_weight, attempts, made);
        }
        if unlockable_count > 0 {
            reset_lock_for_failed_execution(book, &lock_attempts);
            proof {
                assert(book.held@ =~= old(book).held@);
                assert(book.pending@ =~= old(book).pending@);
                locking::lemma_same_locks_same_pages(*old(book), *book);
                release::lemma_same_pages_wf(*old(book), *book);
                lemma_made_same(*old(book), *book, unique_weight, attempts, made);
            }
            let ghost before = *book;
            Self::block_task(
                book,
                tasks,
                counters,
                source,
                t,
                busiest_page_cu,
                &lock_attempts,
            );
            proof {
                if from_runnable {
                    lemma_indexed_same(before, *book, made, attempts, unique_weight, t);
                    lemma_indexed_from(*old(book), before, *book, attempts, unique_weight, t);
                }
            }
            std::mem::swap(&mut lock_attempts, &mut tasks[i].lock_attempts);
            return None;
        }
        proof {
            lemma_none_with(made, LockStatus::Failed, made.len());
        }
        if provisional_count > 0 {
            proof {
                if immediate {
                    lemma_immediate_not_provisional(
                        *old(book),
                        unique_weight,
                        attempts,
                        attempts.len(),
                    );
                }
            }
            counters.contended_count = counters.contended_count - 1;
            tasks[i].mark_as_uncontended();
            tasks[i].update_busiest_page_cu(busiest_page_cu);
            let tracker: usize = book.trackers.len();
            let ghost before = *book;
            book.trackers.push(ProvisioningTracker::new(provisional_count, t));
            proof {
                release::lemma_same_pages_wf(before, *book);
            }
            counters.provisioning_tracker_count = counters.provisioning_tracker_count + 1;
            let ghost middle = *book;
            Self::finalize_lock_for_provisional_execution(book, &lock_attempts, tracker);
            proof {
                assert forall|p: int| 0 <= p < old(book).pages@.len() implies {
                    &&& (#[trigger] book.pages@[p]) == (Page {
                        current_usage: book.pages@[p].current_usage,
                        next_usage: book.pages@[p].next_usage,
                        provisional_task_ids: book.pages@[p].provisional_task_ids,
                        ..old(book).pages@[p]
                    })
                    &&& book.pages@[p].provisional_task_ids@ == with_tracker(
                        old(book).pages@[p].provisional_task_ids@,
                        made,
                        made.len(),
                        p,
                        tracker,
                    )
                } by {
                    assert(before.pages@[p] == (Page {
                        current_usage: before.pages@[p].current_usage,
                        next_usage: before.pages@[p].next_usage,
                        ..old(book).pages@[p]
                    }));
                    assert(middle.pages@[p] == before.pages@[p]);
                }
            }
            std::mem::swap(&mut lock_attempts, &mut tasks[i].lock_attempts);
            return None;
        }
        proof {
            lemma_none_with(made, LockStatus::Provisional, made.len());
            assert(book.pending@ =~= old(book).pending@);
        }
        if from_runnable {
            tasks[i].update_busiest_page_cu(busiest_page_cu);
        } else {
            counters.contended_count = counters.contended_count - 1;
            tasks[i].mark_as_uncontended();
        }
        Some((unique_weight, t, lock_attempts))
    }
}

/// How trying the locks of a task comes out.
pub open spec fn lock_outcome(
    book0: AddressBook,
    book1: AddressBook,
    tasks0: Seq<Task>,
    tasks1: Seq<Task>,
    counters0: Counters,
    counters1: Counters,
    source: TaskSource,
    prefer_immediate: bool,
    t: TaskInQueue,
    r: Option<(UniqueWeight, TaskInQueue, Vec<LockAttempt>)>,
) -> bool {
    let made = made_by(book0, tasks0, source, prefer_immediate, t);
    if locking::count_with(made, LockStatus::Failed, made.len()) > 0 {
        r is None && lock_failed(
            book0,
            book1,
            tasks0,
            tasks1,
            counters0,
            counters1,
            source,
            t,
            made,
        )
    } else if locking::count_with(made, LockStatus::Provisional, made.len()) > 0 {
        r is None && lock_provisional(
            book0,
            book1,
            tasks0,
            tasks1,
            counters0,
            counters1,
            t,
            made,
        )
    } else {
        &&& r matches Some((unique_weight, task, attempts))
        &&& unique_weight == tasks0[t.0 as int].unique_weight
        &&& task == t
        &&& attempts@ == made
        &&& lock_succeeded(
            book0,
            book1,
            tasks0,
            tasks1,
            counters0,
            counters1,
            source,
            t,
            made,
        )
    }
}

/// Attempts that were made can wait for what they could wait for.
proof fn lemma_made_same(
    before: AddressBook,
    after: AddressBook,
    unique_weight: UniqueWeight,
    attempts: Seq<LockAttempt>,
    made: Seq<LockAttempt>,
)
    requires
        after.pages@.len() == before.pages@.len(),
        made.len() == attempts.len(),
        forall|i: int|
            0 <= i < attempts.len() ==> (#[trigger] made[i]).target == attempts[i].target
                && made[i].requested_usage == attempts[i].requested_usage,
    ensures
        locking::in_book(before, attempts) ==> locking::in_book(after, made),
        after.pages@ == before.pages@ && contended::can_wait(before, unique_weight, attempts)
            ==> contended::can_wait(after, unique_weight, made),
{
    if locking::in_book(before, attempts) {
        assert forall|i: int| 0 <= i < made.len() implies (#[trigger] made[i]).target.0
            < after.pages@.len() by {
            assert(attempts[i].target == made[i].target);
        }
    }
    if after.pages@ == before.pages@ && contended::can_wait(before, unique_weight, attempts) {
        assert forall|i: int, j: int| 0 <= i < j < made.len() implies (#[trigger] made[i]).target
            != (#[trigger] made[j]).target by {
            assert(attempts[i].target != attempts[j].target);
        }
        assert forall|i: int| 0 <= i < made.len() implies !after.pages@[(
        #[trigger] made[i]).target.0 as int].contended_unique_weights@.dom().contains(
            unique_weight,
        ) && (made[i].requested_usage == RequestedUsage::Writable
            ==> after.pages@[made[i].target.0 as int].contended_write_task_count < usize::MAX) by {
            assert(attempts[i].target == made[i].target);
        }
    }
}

/// Whether attempts have been made makes no difference to the queues that their task joins.
proof fn lemma_indexed_same(
    before: AddressBook,
    after: AddressBook,
    made: Seq<LockAttempt>,
    attempts: Seq<LockAttempt>,
    unique_weight: UniqueWeight,
    t: TaskInQueue,
)
    requires
        made.len() == attempts.len(),
        forall|i: int|
            0 <= i < attempts.len() ==> (#[trigger] made[i]).target == attempts[i].target
                && made[i].requested_usage == attempts[i].requested_usage,
        contended::indexed(before, after, made, made.len() as int, unique_weight, t),
    ensures
        contended::indexed(before, after, attempts, attempts.len() as int, unique_weight, t),
{
    let n = made.len() as int;
    assert forall|p: int| 0 <= p < before.pages@.len() implies contended::indexed_page(
        #[trigger] before.pages@[p],
        after.pages@[p],
        p,
        attempts,
        n,
        unique_weight,
        t,
    ) by {
        assert(contended::indexed_page(
            before.pages@[p],
            after.pages@[p],
            p,
            made,
            n,
            unique_weight,
            t,
        ));
        assert forall|i: int| 0 <= i < n implies (#[trigger] made[i]).lock()
            == attempts[i].lock() by {}
        contended::lemma_targeted_same(made, attempts, n, p);
    }
}

/// A book that is the same in all that matters can stand for the one before.
proof fn lemma_indexed_from(
    first: AddressBook,
    before: AddressBook,
    after: AddressBook,
    attempts: Seq<LockAttempt>,
    unique_weight: UniqueWeight,
    t: TaskInQueue,
)
    requires
        before.pages@ == first.pages@,
        before.held@ == first.held@,
        before.pending@ == first.pending@,
        before.entries() == first.entries(),
        before.trackers == first.trackers,
        before.uncontended_task_ids == first.uncontended_task_ids,
        before.fulfilled_provisional_task_ids == first.fulfilled_provisional_task_ids,
        contended::indexed(before, after, attempts, attempts.len() as int, unique_weight, t),
    ensures
        contended::indexed(first, after, attempts, attempts.len() as int, unique_weight, t),
{
    assert forall|p: int| 0 <= p < first.pages@.len() implies contended::indexed_page(
        #[trigger] first.pages@[p],
        after.pages@[p],
        p,
        attempts,
        attempts.len() as int,
        unique_weight,
        t,
    ) by {
        assert(contended::indexed_page(
            before.pages@[p],
            after.pages@[p],
            p,
            attempts,
            attempts.len() as int,
            unique_weight,
            t,
        ));
    }
}

/// The heaviest of the tasks whose provisional locks have all come true is returned with its locks.
pub open spec fn fulfilled_taken(
    book0: AddressBook,
    book1: AddressBook,
    tasks0: Seq<Task>,
    tasks1: Seq<Task>,
    k: UniqueWeight,
    t: TaskInQueue,
    lock_attempts: Seq<LockAttempt>,
) -> bool {
    &&& task::is_heaviest(book0.fulfilled_provisional_task_ids@, k)
    &&& book0.fulfilled_provisional_task_ids@[k] == t.0
    &&& book1.fulfilled_provisional_task_ids@ == book0.fulfilled_provisional_task_ids@.remove(k)
    &&& book1.pages == book0.pages
    &&& book1.held == book0.held
    &&& book1.pending == book0.pending
    &&& book1.trackers == book0.trackers
    &&& book1.uncontended_task_ids == book0.uncontended_task_ids
    &&& book1.entries() == book0.entries()
    &&& lock_attempts == tasks0[t.0 as int].lock_attempts@
    &&& same_but_for_task(tasks0, tasks1, t)
    &&& tasks1[t.0 as int].lock_attempts@ == Seq::<LockAttempt>::empty()
    &&& tasks1[t.0 as int].contention_count == tasks0[t.0 as int].contention_count
    &&& tasks1[t.0 as int].uncontended == tasks0[t.0 as int].uncontended
    &&& tasks1[t.0 as int].busiest_page_cu == tasks0[t.0 as int].busiest_page_cu
}

/// What a step that pops a task and locks it does, where `book1` is the book after the selection.
pub open spec fn popped(
    runnable0: Map<UniqueWeight, usize>,
    runnable2: Map<UniqueWeight, usize>,
    book0: AddressBook,
    book1: AddressBook,
    book2: AddressBook,
    tasks0: Seq<Task>,
    tasks2: Seq<Task>,
    counters0: Counters,
    counters2: Counters,
    prefer_immediate: bool,
    runnable_exclusive: bool,
    selection: Option<(TaskSource, TaskInQueue)>,
    r: Option<(UniqueWeight, TaskInQueue, Vec<LockAttempt>)>,
) -> bool {
    &&& same_but_for_uncontended(book0, book1)
    &&& selected(
        runnable0,
        runnable2,
        book0.uncontended_task_ids@,
        book1.uncontended_task_ids@,
        runnable_exclusive,
        selection,
    )
    &&& match selection {
        None => r is None && book2 == book1 && tasks2 == tasks0 && counters2 == counters0,
        Some((source, t)) => lock_outcome(
            book1,
            book2,
            tasks0,
            tasks2,
            counters0,
            counters2,
            source,
            prefer_immediate,
            t,
            r,
        ),
    }
}

/// What popping a task and locking it does.
pub open spec fn pop_done(
    runnable0: Map<UniqueWeight, usize>,
    runnable1: Map<UniqueWeight, usize>,
    book0: AddressBook,
    book1: AddressBook,
    tasks0: Seq<Task>,
    tasks1: Seq<Task>,
    counters0: Counters,
    counters1: Counters,
    prefer_immediate: bool,
    runnable_exclusive: bool,
    r: Option<(UniqueWeight, TaskInQueue, Vec<LockAttempt>)>,
) -> bool {
    if book0.fulfilled_provisional_task_ids@.dom() == Set::<UniqueWeight>::empty() {
        exists|book: AddressBook, selection: Option<(TaskSource, TaskInQueue)>| #[trigger]
            popped(
                runnable0,
                runnable1,
                book0,
                book,
                book1,
                tasks0,
                tasks1,
                counters0,
                counters1,
                prefer_immediate,
                runnable_exclusive,
                selection,
                r,
            )
    } else {
        &&& r matches Some((k, t, lock_attempts))
        &&& fulfilled_taken(book0, book1, tasks0, tasks1, k, t, lock_attempts@)
        &&& runnable1 == runnable0
        &&& counters1 == counters0
    }
}

/// What must hold for a task to be popped and locked.
pub open spec fn can_pop(
    runnable: Map<UniqueWeight, usize>,
    book: AddressBook,
    tasks: Seq<Task>,
    counters: Counters,
    prefer_immediate: bool,
    runnable_exclusive: bool,
) -> bool {
    if book.fulfilled_provisional_task_ids@.dom() == Set::<UniqueWeight>::empty() {
        &&& contended_first(runnable, book.uncontended_task_ids@)
        &&& forall|source: TaskSource, t: TaskInQueue| #[trigger]
            next_selected(runnable, book.uncontended_task_ids@, runnable_exclusive, source, t)
                ==> lockable(book, tasks, counters, source, prefer_immediate, t)
    } else {
        forall|k: UniqueWeight| #[trigger]
            book.fulfilled_provisional_task_ids@.dom().contains(k)
                ==> book.fulfilled_provisional_task_ids@[k] < tasks.len()
    }
}

/// What attempts come to depends on the pages and locks of the book only.
pub proof fn lemma_tried_same(
    before: AddressBook,
    after: AddressBook,
    immediate: bool,
    unique_weight: UniqueWeight,
    attempts: Seq<LockAttempt>,
    n: nat,
)
    requires
        after.pages == before.pages,
        after.held == before.held,
        after.pending == before.pending,
    ensures
        locking::tried(after, immediate, unique_weight, attempts, n) == locking::tried(
            before,
            immediate,
            unique_weight,
            attempts,
            n,
        ),
    decreases n,
{
    if n > 0 {
        lemma_tried_same(before, after, immediate, unique_weight, attempts, (n - 1) as nat);
    }
}

proof fn lemma_lockable_same(
    before: AddressBook,
    after: AddressBook,
    tasks: Seq<Task>,
    counters: Counters,
    source: TaskSource,
    prefer_immediate: bool,
    t: TaskInQueue,
)
    requires
        same_but_for_uncontended(before, after),
        lockable(before, tasks, counters, source, prefer_immediate, t),
    ensures
        lockable(after, tasks, counters, source, prefer_immediate, t),
{
    let t0 = tasks[t.0 as int];
    lemma_tried_same(
        before,
        after,
        source == TaskSource::Runnable || prefer_immediate,
        t0.unique_weight,
        t0.lock_attempts@,
        t0.lock_attempts@.len(),
    );
}

/// `rand::Rng::gen_range` on the generator of the thread: a number from `low` up to below `high`,
/// any of them.
#[verifier::external_body]
fn gen_range(low: u64, high: u64) -> (r: u64)
    requires
        low < high,
    ensures
        low <= r < high,
{
    rand::thread_rng().gen_range(low, high)
}

/// The least that an execution costs.
pub const MIN_EXECUTION_CU: CU = 3;

/// What every execution costs less than.
pub const EXECUTION_CU_LIMIT: CU = 1000;

impl ScheduleStage {
    /// Pops a task and locks what it needs. A task whose provisional locks have all come true goes
    /// first; otherwise one is selected. What is returned can be executed.
    pub fn pop_from_queue_then_lock(
        runnable_queue: &mut TaskQueue,
        book: &mut AddressBook,
        tasks: &mut Vec<Task>,
        counters: &mut Counters,
        prefer_immediate: bool,
        runnable_exclusive: bool,
    ) -> (r: Option<(UniqueWeight, TaskInQueue, Vec<LockAttempt>)>)
        requires
            old(book).wf(),
            old(book).steady(),
            can_pop(
                old(runnable_queue).tasks@,
                *old(book),
                old(tasks)@,
                *old(counters),
                prefer_immediate,
                runnable_exclusive,
            ),
        ensures
            final(book).wf(),
            final(book).steady(),
            pop_done(
                old(runnable_queue).tasks@,
                final(runnable_queue).tasks@,
                *old(book),
                *final(book),
                old(tasks)@,
                final(tasks)@,
                *old(counters),
                *final(counters),
                prefer_immediate,
                runnable_exclusive,
                r,
            ),
    {
        if let Some(k) = last_key_u64(&book.fulfilled_provisional_task_ids) {
            assert(book.fulfilled_provisional_task_ids@.contains_key(k));
            if let Some(i) = book.fulfilled_provisional_task_ids.remove(&k) {
                let mut lock_attempts: Vec<LockAttempt> = Vec::new();
                std::mem::swap(&mut lock_attempts, &mut tasks[i].lock_attempts);
                proof {
                    release::lemma_same_pages_wf(*old(book), *book);
                }
                return Some((k, TaskInQueue(i), lock_attempts));
            }
        }
        let selection = Self::select_next_task(runnable_queue, book, runnable_exclusive);
        let ghost book1 = *book;
        proof {
            release::lemma_same_pages_wf(*old(book), *book);
        }
        if let Some((source, t)) = selection {
            proof {
                assert(next_selected(
                    old(runnable_queue).tasks@,
                    old(book).uncontended_task_ids@,
                    runnable_exclusive,
                    source,
                    t,
                ));
                lemma_lockable_same(
                    *old(book),
                    book1,
                    tasks@,
                    *counters,
                    source,
                    prefer_immediate,
                    t,
                );
            }
            let r = Self::lock_selected(book, tasks, counters, prefer_immediate, source, t);
            assert(popped(
                old(runnable_queue).tasks@,
                runnable_queue.tasks@,
                *old(book),
                book1,
                *book,
                old(tasks)@,
                tasks@,
                *old(counters),
                *counters,
                prefer_immediate,
                runnable_exclusive,
                selection,
                r,
            ));
            r
        } else {
            let r: Option<(UniqueWeight, TaskInQueue, Vec<LockAttempt>)> = None;
            assert(popped(
                old(runnable_queue).tasks@,
                runnable_queue.tasks@,
                *old(book),
                book1,
                *book,
                old(tasks)@,
                tasks@,
                *old(counters),
                *counters,
                prefer_immediate,
                runnable_exclusive,
                selection,
                r,
            ));
            r
        }
    }

    /// A task with its locks, to be executed at a cost of `cu`.
    pub fn prepare_execution_of_cost(
        cu: CU,
        tasks: &mut Vec<Task>,
        unique_weight: UniqueWeight,
        task: TaskInQueue,
        finalized_lock_attempts: Vec<LockAttempt>,
        counters: &mut Counters,
    ) -> (r: Box<ExecutionEnvironment>)
        requires
            task.0 < old(tasks)@.len(),
            old(counters).execute_clock < usize::MAX,
        ensures
            *r == (ExecutionEnvironment {
                cu,
                unique_weight,
                task,
                finalized_lock_attempts,
                is_reindexed: false,
                execution_result: None,
            }),
            final(tasks)@ == old(tasks)@.update(
                task.0 as int,
                Task {
                    execute_time: old(counters).execute_clock,
                    ..old(tasks)@[task.0 as int]
                },
            ),
            *final(counters) == (Counters {
                execute_clock: (old(counters).execute_clock + 1) as usize,
                ..*old(counters)
            }),
    {
        tasks[task.0].record_execute_time(counters.queue_clock, counters.execute_clock);
        counters.execute_clock = counters.execute_clock + 1;
        Box::new(
            ExecutionEnvironment {
                cu,
                unique_weight,
                task,
                finalized_lock_attempts,
                is_reindexed: false,
                execution_result: None,
            },
        )
    }

    /// A task with its locks, to be executed at a random cost.
    pub fn prepare_scheduled_execution(
        tasks: &mut Vec<Task>,
        unique_weight: UniqueWeight,
        task: TaskInQueue,
        finalized_lock_attempts: Vec<LockAttempt>,
        counters: &mut Counters,
    ) -> (r: Box<ExecutionEnvironment>)
        requires
            task.0 < old(tasks)@.len(),
            old(counters).execute_clock < usize::MAX,
        ensures
            MIN_EXECUTION_CU <= r.cu < EXECUTION_CU_LIMIT,
            *r == (ExecutionEnvironment {
                cu: r.cu,
                unique_weight,
                task,
                finalized_lock_attempts,
                is_reindexed: false,
                execution_result: None,
            }),
            final(tasks)@ == old(tasks)@.update(
                task.0 as int,
                Task {
                    execute_time: old(counters).execute_clock,
                    ..old(tasks)@[task.0 as int]
                },
            ),
            *final(counters) == (Counters {
                execute_clock: (old(counters).execute_clock + 1) as usize,
                ..*old(counters)
            }),
    {
        let cu: CU = gen_range(MIN_EXECUTION_CU, EXECUTION_CU_LIMIT);
        Self::prepare_execution_of_cost(
            cu,
            tasks,
            unique_weight,
            task,
            finalized_lock_attempts,
            counters,
        )
    }

    /// Counts a task into the sequence and queues it. Tasks come in the order of their weights.
    pub fn register_runnable_task(
        tasks: &Vec<Task>,
        weighted_tx: TaskInQueue,
        runnable_queue: &mut TaskQueue,
        counters: &mut Counters,
    )
        requires
            weighted_tx.0 < tasks@.len(),
            old(counters).sequence_time < usize::MAX,
            old(counters).sequence_time == u64::MAX - tasks@[weighted_tx.0 as int].unique_weight,
            !old(runnable_queue).tasks@.dom().contains(tasks@[weighted_tx.0 as int].unique_weight),
        ensures
            final(runnable_queue).tasks@ == old(runnable_queue).tasks@.insert(
                tasks@[weighted_tx.0 as int].unique_weight,
                weighted_tx.0,
            ),
            *final(counters) == (Counters {
                sequence_time: (old(counters).sequence_time + 1) as usize,
                ..*old(counters)
            }),
    {
        let task = &tasks[weighted_tx.0];
        task.record_sequence_time(counters.sequence_time);
        counters.sequence_time = counters.sequence_time + 1;
        Self::push_to_runnable_queue(task.unique_weight, weighted_tx, runnable_queue)
    }
}

/// The attempts of an executed task, each with the task that is to try next.
pub open spec fn all_informed(
    book: AddressBook,
    tasks: Seq<Task>,
    attempts: Seq<LockAttempt>,
) -> Seq<LockAttempt> {
    Seq::new(attempts.len(), |i: int| contended::informed(book, tasks, attempts[i]))
}

/// What must hold for an execution to be committed.
pub open spec fn can_commit(
    book: AddressBook,
    tasks: Seq<Task>,
    counters: Counters,
    ee: ExecutionEnvironment,
) -> bool {
    let attempts = ee.finalized_lock_attempts@;
    let t = tasks[ee.task.0 as int];
    let should_remove = t.contention_count > 0;
    &&& !ee.is_reindexed
    &&& ee.task.0 < tasks.len()
    &&& t.uncontended != Contention::Finished
    &&& t.uncontended != Contention::Contended
    &&& counters.commit_clock < usize::MAX
    &&& should_remove ==> contended::distinct_pages(attempts)
    &&& forall|i: int|
        0 <= i < attempts.len() ==> contended::can_sweep(
            book.page((#[trigger] attempts[i]).target),
            tasks,
            should_remove,
            ee.unique_weight,
            attempts[i].requested_usage,
        )
    &&& release::can_release(
        book,
        tasks,
        all_informed(book, tasks, attempts),
        counters.provisioning_tracker_count as int,
        ee.cu,
    )
}

/// An execution was committed: the task left the queues of its pages and gave its locks back.
pub open spec fn committed(
    book0: AddressBook,
    book1: AddressBook,
    tasks: Seq<Task>,
    counters0: Counters,
    counters1: Counters,
    ee: ExecutionEnvironment,
) -> bool {
    let attempts = ee.finalized_lock_attempts@;
    let n = attempts.len();
    &&& book1.entries() == book0.entries()
    &&& book1.pages@.len() == book0.pages@.len()
    &&& forall|p: int|
        0 <= p < book0.pages@.len() ==> {
            &&& (#[trigger] book1.pages@[p]).address == book0.pages@[p].address
            &&& contended::reindexed_page(
                book0.pages@[p],
                book1.pages@[p],
                p,
                attempts,
                n as int,
                tasks,
                tasks[ee.task.0 as int].contention_count > 0,
                ee.unique_weight,
            )
        }
    &&& release::state_of(book1, counters1.provisioning_tracker_count as int) == release::released(
        release::state_of(book0, counters0.provisioning_tracker_count as int),
        tasks,
        all_informed(book0, tasks, attempts),
        ee.cu,
        n,
    )
    &&& counters1 == (Counters {
        commit_clock: (counters0.commit_clock + 1) as usize,
        provisioning_tracker_count: counters1.provisioning_tracker_count,
        ..counters0
    })
}

/// Sweeping queues takes nothing away from what can be given back.
proof fn lemma_can_release_reindexed(
    before: AddressBook,
    after: AddressBook,
    tasks: Seq<Task>,
    attempts: Seq<LockAttempt>,
    tracker_count: int,
    cu: CU,
)
    requires
        contended::same_but_for_queues(before, after),
        release::can_release(before, tasks, attempts, tracker_count, cu),
    ensures
        release::state_of(after, tracker_count) == release::state_of(before, tracker_count),
        release::can_release(after, tasks, attempts, tracker_count, cu),
{
    assert forall|p: int| 0 <= p < before.pages@.len() implies (#[trigger] after.pages@[p]).cu
        == before.pages@[p].cu && after.pages@[p].provisional_task_ids
        == before.pages@[p].provisional_task_ids by {}
    assert(release::state_of(after, tracker_count) =~~= release::state_of(before, tracker_count));
    assert forall|p: int, i: int|
        0 <= p < after.pages@.len() && 0 <= i
            < after.pages@[p].provisional_task_ids@.len() implies #[trigger] after.pages@[p].provisional_task_ids@[i]
        < after.trackers@.len() by {
        assert(before.pages@[p].provisional_task_ids == after.pages@[p].provisional_task_ids);
        assert(before.pages@[p].provisional_task_ids@[i] < before.trackers@.len());
    }
}

impl ScheduleStage {
    /// Commits an execution: the task leaves the queues of its pages, gives its locks back, and is
    /// finished.
    pub fn commit_processed_execution(
        ee: &mut ExecutionEnvironment,
        book: &mut AddressBook,
        tasks: &mut Vec<Task>,
        counters: &mut Counters,
    )
        requires
            old(book).wf(),
            can_commit(*old(book), old(tasks)@, *old(counters), *old(ee)),
        ensures
            final(book).wf(),
            old(book).steady() ==> final(book).steady(),
            committed(
                *old(book),
                *final(book),
                old(tasks)@,
                *old(counters),
                *final(counters),
                *old(ee),
            ),
            final(tasks)@ == old(tasks)@.update(
                old(ee).task.0 as int,
                Task {
                    uncontended: Contention::Finished,
                    ..old(tasks)@[old(ee).task.0 as int]
                },
            ),
            final(ee).is_reindexed,
            final(ee).cu == old(ee).cu,
            final(ee).unique_weight == old(ee).unique_weight,
            final(ee).task == old(ee).task,
            final(ee).execution_result == old(ee).execution_result,
            final(ee).finalized_lock_attempts@ == release::released_attempts(
                release::state_of(*old(book), old(counters).provisioning_tracker_count as int),
                old(tasks)@,
                all_informed(*old(book), old(tasks)@, old(ee).finalized_lock_attempts@),
                old(ee).cu,
            ),
            final(ee).finalized_lock_attempts@.len() == old(ee).finalized_lock_attempts@.len(),
            forall|i: int|
                0 <= i < old(ee).finalized_lock_attempts@.len() ==> (#[trigger] final(ee).finalized_lock_attempts@[i]).lock() == old(ee).finalized_lock_attempts@[i].lock()
                    && final(ee).finalized_lock_attempts@[i].status
                    == old(ee).finalized_lock_attempts@[i].status,
    {
        let ghost attempts = ee.finalized_lock_attempts@;
        let ghost told = all_informed(*book, tasks@, attempts);
        proof {
            assert forall|i: int| 0 <= i < attempts.len() implies (
            #[trigger] attempts[i]).target.0 < book.pages@.len() by {
                assert(told[i].target == attempts[i].target);
            }
        }
        ee.reindex_with_address_book(book, tasks);
        let ghost book1 = *book;
        proof {
            assert(ee.finalized_lock_attempts@ =~= told);
            lemma_can_release_reindexed(
                *old(book),
                book1,
                tasks@,
                told,
                counters.provisioning_tracker_count as int,
                ee.cu,
            );
        }
        tasks[ee.task.0].record_commit_time(counters.commit_clock);
        counters.commit_clock = counters.commit_clock + 1;
        let mut provisioning_tracker_count: usize = counters.provisioning_tracker_count;
        unlock_after_execution(
            book,
            tasks,
            &mut ee.finalized_lock_attempts,
            &mut provisioning_tracker_count,
            ee.cu,
        );
        counters.provisioning_tracker_count = provisioning_tracker_count;
        tasks[ee.task.0].mark_as_finished();
        proof {
            assert forall|p: int| 0 <= p < old(book).pages@.len() implies {
                &&& (#[trigger] book.pages@[p]).address == old(book).pages@[p].address
                &&& contended::reindexed_page(
                    old(book).pages@[p],
                    book.pages@[p],
                    p,
                    attempts,
                    attempts.len() as int,
                    old(tasks)@,
                    old(tasks)@[ee.task.0 as int].contention_count > 0,
                    ee.unique_weight,
                )
            } by {
                assert(book1.pages@[p].address == old(book).pages@[p].address);
                assert(contended::reindexed_page(
                    old(book).pages@[p],
                    book1.pages@[p],
                    p,
                    attempts,
                    attempts.len() as int,
                    old(tasks)@,
                    old(tasks)@[ee.task.0 as int].contention_count > 0,
                    ee.unique_weight,
                ));
            }
        }
    }
}

/// What a scheduled execution is, and what making it out of a popped task does.
pub open spec fn execution_of(
    tasks0: Seq<Task>,
    tasks1: Seq<Task>,
    counters0: Counters,
    counters1: Counters,
    popped: (UniqueWeight, TaskInQueue, Vec<LockAttempt>),
    ee: ExecutionEnvironment,
) -> bool {
    let t = popped.1.0 as int;
    &&& MIN_EXECUTION_CU <= ee.cu < EXECUTION_CU_LIMIT
    &&& ee.unique_weight == popped.0
    &&& ee.task == popped.1
    &&& ee.finalized_lock_attempts == popped.2
    &&& !ee.is_reindexed
    &&& ee.execution_result is None
    &&& tasks1 == tasks0.update(
        t,
        Task { execute_time: counters0.execute_clock, ..tasks0[t] },
    )
    &&& counters1 == (Counters {
        execute_clock: (counters0.execute_clock + 1) as usize,
        ..counters0
    })
}

/// What a step of scheduling does.
pub open spec fn next_scheduled(
    runnable0: Map<UniqueWeight, usize>,
    runnable2: Map<UniqueWeight, usize>,
    book0: AddressBook,
    book2: AddressBook,
    tasks0: Seq<Task>,
    tasks1: Seq<Task>,
    tasks2: Seq<Task>,
    counters0: Counters,
    counters1: Counters,
    counters2: Counters,
    prefer_immediate: bool,
    runnable_exclusive: bool,
    popped: Option<(UniqueWeight, TaskInQueue, Vec<LockAttempt>)>,
    r: Option<Box<ExecutionEnvironment>>,
) -> bool {
    &&& pop_done(
        runnable0,
        runnable2,
        book0,
        book2,
        tasks0,
        tasks1,
        counters0,
        counters1,
        prefer_immediate,
        runnable_exclusive,
        popped,
    )
    &&& match popped {
        None => r is None && tasks2 == tasks1 && counters2 == counters1,
        Some(p) => r is Some && execution_of(tasks1, tasks2, counters1, counters2, p, *r->0),
    }
}

impl ScheduleStage {
    /// Pops a task, locks what it needs, and makes it ready to be executed.
    pub fn schedule_next_execution(
        runnable_queue: &mut TaskQueue,
        book: &mut AddressBook,
        tasks: &mut Vec<Task>,
        counters: &mut Counters,
        prefer_immediate: bool,
        runnable_exclusive: bool,
    ) -> (r: Option<Box<ExecutionEnvironment>>)
        requires
            old(book).wf(),
            old(book).steady(),
            old(counters).execute_clock < usize::MAX,
            can_pop(
                old(runnable_queue).tasks@,
                *old(book),
                old(tasks)@,
                *old(counters),
                prefer_immediate,
                runnable_exclusive,
            ),
        ensures
            final(book).wf(),
            final(book).steady(),
            exists|
                tasks1: Seq<Task>,
                counters1: Counters,
                popped: Option<(UniqueWeight, TaskInQueue, Vec<LockAttempt>)>,
            | #[trigger]
                next_scheduled(
                    old(runnable_queue).tasks@,
                    final(runnable_queue).tasks@,
                    *old(book),
                    *final(book),
                    old(tasks)@,
                    tasks1,
                    final(tasks)@,
                    *old(counters),
                    counters1,
                    *final(counters),
                    prefer_immediate,
                    runnable_exclusive,
                    popped,
                    r,
                ),
    {
        let popped = Self::pop_from_queue_then_lock(
            runnable_queue,
            book,
            tasks,
            counters,
            prefer_immediate,
            runnable_exclusive,
        );
        let ghost tasks1 = tasks@;
        let ghost counters1 = *counters;
        let ghost popped_view = popped;
        let r = match popped {
            Some((unique_weight, task, lock_attempts)) => {
                assert(task.0 < tasks@.len() && counters.execute_clock < usize::MAX) by {
                    lemma_popped_known(
                        old(runnable_queue).tasks@,
                        runnable_queue.tasks@,
                        *old(book),
                        *book,
                        old(tasks)@,
                        tasks@,
                        *old(counters),
                        *counters,
                        prefer_immediate,
                        runnable_exclusive,
                        popped_view,
                    );
                }
                Some(
                    Self::prepare_scheduled_execution(
                        tasks,
                        unique_weight,
                        task,
                        lock_attempts,
                        counters,
                    ),
                )
            },
            None => None,
        };
        assert(next_scheduled(
            old(runnable_queue).tasks@,
            runnable_queue.tasks@,
            *old(book),
            *book,
            old(tasks)@,
            tasks1,
            tasks@,
            *old(counters),
            counters1,
            *counters,
            prefer_immediate,
            runnable_exclusive,
            popped_view,
            r,
        ));
        r
    }
}

/// A popped task is a known one, and popping does not advance the clock of executions.
proof fn lemma_popped_known(
    runnable0: Map<UniqueWeight, usize>,
    runnable1: Map<UniqueWeight, usize>,
    book0: AddressBook,
    book1: AddressBook,
    tasks0: Seq<Task>,
    tasks1: Seq<Task>,
    counters0: Counters,
    counters1: Counters,
    prefer_immediate: bool,
    runnable_exclusive: bool,
    r: Option<(UniqueWeight, TaskInQueue, Vec<LockAttempt>)>,
)
    requires
        can_pop(runnable0, book0, tasks0, counters0, prefer_immediate, runnable_exclusive),
        pop_done(
            runnable0,
            runnable1,
            book0,
            book1,
            tasks0,
            tasks1,
            counters0,
            counters1,
            prefer_immediate,
            runnable_exclusive,
            r,
        ),
    ensures
        r matches Some((_, t, _)) ==> t.0 < tasks1.len(),
        counters1.execute_clock == counters0.execute_clock,
{
    if book0.fulfilled_provisional_task_ids@.dom() == Set::<UniqueWeight>::empty() {
        let (book, selection) = choose|
            book: AddressBook,
            selection: Option<(TaskSource, TaskInQueue)>,
        | #[trigger]
            popped(
                runnable0,
                runnable1,
                book0,
                book,
                book1,
                tasks0,
                tasks1,
                counters0,
                counters1,
                prefer_immediate,
                runnable_exclusive,
                selection,
                r,
            );
        if let Some((source, t)) = selection {
            assert(next_selected(
                runnable0,
                book0.uncontended_task_ids@,
                runnable_exclusive,
                source,
                t,
            ));
        }
    } else {
        if let Some((k, t, _)) = r {
            assert(book0.fulfilled_provisional_task_ids@.dom().contains(k));
        }
    }
}

/// A task whose provisional locks have all come true goes first, the heaviest of them, with the locks
/// that it has.
pub proof fn law_ready_tasks_go_first(
    runnable_queue: &mut TaskQueue,
    book: &mut AddressBook,
    tasks: &mut Vec<Task>,
    counters: &mut Counters,
    prefer_immediate: bool,
    runnable_exclusive: bool,
    r: Option<(UniqueWeight, TaskInQueue, Vec<LockAttempt>)>,
    weight: UniqueWeight,
)
    requires
        call_ensures(
            ScheduleStage::pop_from_queue_then_lock,
            (runnable_queue, book, tasks, counters, prefer_immediate, runnable_exclusive),
            r,
        ),
        old(book).fulfilled_provisional_task_ids@.dom().contains(weight),
        forall|j: UniqueWeight| #[trigger]
            old(book).fulfilled_provisional_task_ids@.dom().contains(j) ==> j <= weight,
    ensures
        r is Some,
        r->Some_0.0 == weight,
        r->Some_0.1.0 == old(book).fulfilled_provisional_task_ids@[weight],
        r->Some_0.2@ == old(tasks)@[old(
            book,
        ).fulfilled_provisional_task_ids@[weight] as int].lock_attempts@,
        final(book).fulfilled_provisional_task_ids@ == old(
            book,
        ).fulfilled_provisional_task_ids@.remove(weight),
        final(runnable_queue).tasks@ == old(runnable_queue).tasks@,
        final(book).pages == old(book).pages,
{
    let ready = old(book).fulfilled_provisional_task_ids@;
    assert(ready.dom().contains(weight));
    assert(!(ready.dom() == Set::<UniqueWeight>::empty()));
    let k = r->Some_0.0;
    assert(task::is_heaviest(ready, k));
    assert(ready.dom().contains(k) && k <= weight);
    assert(weight <= k);
}

/// The heaviest task goes next: of the new ones where only those are asked for, and otherwise of those
/// worth another try. It leaves its queue, and the other queue stays.
pub proof fn law_the_heaviest_goes_next(
    runnable_queue: &mut TaskQueue,
    book: &mut AddressBook,
    runnable_exclusive: bool,
    r: Option<(TaskSource, TaskInQueue)>,
    weight: UniqueWeight,
)
    requires
        call_ensures(
            ScheduleStage::select_next_task,
            (runnable_queue, book, runnable_exclusive),
            r,
        ),
        runnable_exclusive ==> {
            &&& old(runnable_queue).tasks@.dom().contains(weight)
            &&& forall|j: UniqueWeight| #[trigger]
                old(runnable_queue).tasks@.dom().contains(j) ==> j <= weight
        },
        !runnable_exclusive ==> {
            &&& old(book).uncontended_task_ids@.dom().contains(weight)
            &&& forall|j: UniqueWeight| #[trigger]
                old(book).uncontended_task_ids@.dom().contains(j) ==> j <= weight
        },
    ensures
        runnable_exclusive ==> {
            &&& r == Some((TaskSource::Runnable, TaskInQueue(old(runnable_queue).tasks@[weight])))
            &&& final(runnable_queue).tasks@ == old(runnable_queue).tasks@.remove(weight)
            &&& final(book).uncontended_task_ids@ == old(book).uncontended_task_ids@
        },
        !runnable_exclusive ==> {
            &&& r == Some(
                (TaskSource::Contended, TaskInQueue(old(book).uncontended_task_ids@[weight])),
            )
            &&& final(book).uncontended_task_ids@ == old(book).uncontended_task_ids@.remove(weight)
            &&& final(runnable_queue).tasks@ == old(runnable_queue).tasks@
        },
        final(book).pages == old(book).pages,
{
    let (source, t) = r->Some_0;
    if runnable_exclusive {
        let queue = old(runnable_queue).tasks@;
        assert(queue.dom().contains(weight));
        let k = choose|k: UniqueWeight| #[trigger]
            task::is_heaviest(queue, k) && queue[k] == t.0 && final(runnable_queue).tasks@
                == queue.remove(k);
        assert(queue.dom().contains(k) && k <= weight);
        assert(weight <= k);
    } else {
        let queue = old(book).uncontended_task_ids@;
        assert(queue.dom().contains(weight));
        let k = choose|k: UniqueWeight| #[trigger]
            task::is_heaviest(queue, k) && queue[k] == t.0 && final(book).uncontended_task_ids@
                == queue.remove(k);
        assert(queue.dom().contains(k) && k <= weight);
        assert(weight <= k);
    }
}

/// New tasks are queued under their weights, one after the other, and none that is there is lost.
pub proof fn law_registered_tasks_are_queued(
    tasks: &Vec<Task>,
    task: TaskInQueue,
    runnable_queue: &mut TaskQueue,
    counters: &mut Counters,
    weight: UniqueWeight,
)
    requires
        call_ensures(
            ScheduleStage::register_runnable_task,
            (tasks, task, runnable_queue, counters),
            (),
        ),
        old(counters).sequence_time < usize::MAX,
    ensures
        final(runnable_queue).tasks@.dom().contains(tasks@[task.0 as int].unique_weight),
        final(runnable_queue).tasks@[tasks@[task.0 as int].unique_weight] == task.0,
        weight != tasks@[task.0 as int].unique_weight ==> {
            &&& final(runnable_queue).tasks@.dom().contains(weight) <==> old(
                runnable_queue,
            ).tasks@.dom().contains(weight)
            &&& old(runnable_queue).tasks@.dom().contains(weight) ==> final(runnable_queue).tasks@[weight] == old(runnable_queue).tasks@[weight]
        },
        final(counters).sequence_time == old(counters).sequence_time + 1,
        final(counters).queue_clock == old(counters).queue_clock,
{
}

/// No waiting task is forgotten: where a commit leaves a page that the task had without any user, and
/// nothing was pending on it, the heaviest of the tasks that wait for the page is worth another try.
pub proof fn law_no_waiting_task_is_forgotten(
    ee: &mut ExecutionEnvironment,
    book: &mut AddressBook,
    tasks: &mut Vec<Task>,
    counters: &mut Counters,
    i: int,
    k: UniqueWeight,
)
    requires
        old(book).wf(),
        locking::in_book(*old(book), old(ee).finalized_lock_attempts@),
        contended::distinct_pages(old(ee).finalized_lock_attempts@),
        call_ensures(
            ScheduleStage::commit_processed_execution,
            (ee, book, tasks, counters),
            (),
        ),
        0 <= i < old(ee).finalized_lock_attempts@.len(),
        old(ee).finalized_lock_attempts@[i].status != LockStatus::Failed,
        old(book).held@.count(old(ee).finalized_lock_attempts@[i].lock()) > 0,
        ({
            let p = old(ee).finalized_lock_attempts@[i].target.0 as int;
            let queue = old(book).pages@[p].contended_unique_weights@;
            &&& old(book).pages@[p].next_usage == Usage::Unused
            &&& final(book).pages@[p].current_usage == Usage::Unused
            &&& queue.dom().contains(k)
            &&& old(tasks)@[queue[k] as int].uncontended == Contention::Contended
            &&& forall|j: UniqueWeight| #[trigger]
                queue.dom().contains(j) && old(tasks)@[queue[j] as int].uncontended
                    == Contention::Contended ==> j <= k
        }),
    ensures
        ({
            let queue = old(book).pages@[old(
                ee,
            ).finalized_lock_attempts@[i].target.0 as int].contended_unique_weights@;
            final(book).uncontended_task_ids@.dom().contains(
                old(tasks)@[queue[k] as int].unique_weight,
            )
        }),
{
    let attempts = old(ee).finalized_lock_attempts@;
    let told = all_informed(*old(book), old(tasks)@, attempts);
    let p = attempts[i].target;
    let queue = old(book).pages@[p.0 as int].contended_unique_weights@;
    assert(old(book).page(p) == old(book).pages@[p.0 as int]);
    contended::lemma_found(queue, old(tasks)@, k);
    assert(told[i] == contended::informed(*old(book), old(tasks)@, attempts[i]));
    assert(told[i].lock() == attempts[i].lock());
    assert forall|j: int| 0 <= j < told.len() && j != i implies (#[trigger] told[j]).target
        != told[i].target by {
        assert(told[j].target == attempts[j].target);
        if j < i {
            assert(attempts[j].target != attempts[i].target);
        } else {
            assert(attempts[i].target != attempts[j].target);
        }
    }
    release::lemma_next_task_is_remembered(
        *old(book),
        *final(book),
        old(counters).provisioning_tracker_count as int,
        final(counters).provisioning_tracker_count as int,
        old(tasks)@,
        told,
        old(ee).cu,
        i,
        TaskInQueue(queue[k]),
    );
}

/// A tracker waits for each page that its task got provisionally, and for no other; those that waited
/// already keep waiting.
pub proof fn law_a_tracker_waits_for_its_pages(
    book: &mut AddressBook,
    lock_attempts: &Vec<LockAttempt>,
    tracker: usize,
    p: int,
    k: int,
)
    requires
        call_ensures(
            ScheduleStage::finalize_lock_for_provisional_execution,
            (book, lock_attempts, tracker),
            (),
        ),
        0 <= p < old(book).pages@.len(),
    ensures
        ({
            let before = old(book).pages@[p].provisional_task_ids@;
            let after = final(book).pages@[p].provisional_task_ids@;
            &&& after.len() == before.len() + lock_attempts@.filter(
                |a: LockAttempt| a.status == LockStatus::Provisional && a.target.0 == p,
            ).len()
            &&& 0 <= k < before.len() ==> after[k] == before[k]
            &&& before.len() <= k < after.len() ==> after[k] == tracker
        }),
        final(book).pages@[p].current_usage == old(book).pages@[p].current_usage,
        final(book).pages@[p].next_usage == old(book).pages@[p].next_usage,
{
    let n = lock_attempts@.len();
    assert(final(book).pages@[p].current_usage == old(book).pages@[p].current_usage);
    lemma_with_tracker(
        old(book).pages@[p].provisional_task_ids@,
        lock_attempts@,
        n,
        p,
        tracker,
        k,
    );
    assert(lock_attempts@.take(n as int) =~= lock_attempts@);
}

proof fn lemma_with_tracker(
    ids: Seq<usize>,
    attempts: Seq<LockAttempt>,
    n: nat,
    p: int,
    tracker: usize,
    k: int,
)
    requires
        n <= attempts.len(),
    ensures
        ({
            let after = with_tracker(ids, attempts, n, p, tracker);
            &&& after.len() == ids.len() + attempts.take(n as int).filter(
                |a: LockAttempt| a.status == LockStatus::Provisional && a.target.0 == p,
            ).len()
            &&& 0 <= k < ids.len() ==> after[k] == ids[k]
            &&& ids.len() <= k < after.len() ==> after[k] == tracker
        }),
    decreases n,
{
    reveal(Seq::filter);
    if n > 0 {
        lemma_with_tracker(ids, attempts, (n - 1) as nat, p, tracker, k);
        assert(attempts.take(n as int).drop_last() =~= attempts.take(n - 1));
        assert(attempts.take(n as int).last() == attempts[n - 1]);
    }
}

/// What becomes of the task that is tried, where none is ready: it is handed out with all its locks, or
/// it keeps them and a tracker counts the pages that are not free for it yet, or it has none and is
/// worth another try, or waits for its pages if it is new.
pub proof fn law_what_becomes_of_a_tried_task(
    runnable_queue: &mut TaskQueue,
    book: &mut AddressBook,
    tasks: &mut Vec<Task>,
    counters: &mut Counters,
    prefer_immediate: bool,
    r: Option<(UniqueWeight, TaskInQueue, Vec<LockAttempt>)>,
    weight: UniqueWeight,
    i: int,
)
    requires
        old(book).fulfilled_provisional_task_ids@.dom() == Set::<UniqueWeight>::empty(),
        old(book).uncontended_task_ids@.dom().contains(weight),
        forall|j: UniqueWeight| #[trigger]
            old(book).uncontended_task_ids@.dom().contains(j) ==> j <= weight,
        old(tasks)@[old(book).uncontended_task_ids@[weight] as int].unique_weight == weight,
        old(tasks)@[old(book).uncontended_task_ids@[weight] as int].uncontended
            == Contention::Contended,
        old(counters).contended_count > 0,
        old(counters).provisioning_tracker_count < usize::MAX,
        old(book).trackers@.len() < usize::MAX,
        0 <= i < old(tasks)@[old(
            book,
        ).uncontended_task_ids@[weight] as int].lock_attempts@.len(),
        old(tasks)@[old(book).uncontended_task_ids@[weight] as int].lock_attempts@.len()
            <= usize::MAX,
        call_ensures(
            ScheduleStage::pop_from_queue_then_lock,
            (runnable_queue, book, tasks, counters, prefer_immediate, false),
            r,
        ),
    ensures
        ({
            let t = old(book).uncontended_task_ids@[weight];
            let after = final(tasks)@[t as int];
            &&& r matches Some((w, task, attempts)) ==> {
                &&& w == weight
                &&& task.0 == t
                &&& attempts@.len() == old(tasks)@[t as int].lock_attempts@.len()
                &&& attempts@[i].status == LockStatus::Succeded
                &&& attempts@[i].target == old(tasks)@[t as int].lock_attempts@[i].target
                &&& after.uncontended == Contention::Uncontended
                &&& final(counters).contended_count == old(counters).contended_count - 1
                &&& !final(book).uncontended_task_ids@.dom().contains(weight)
            }
            &&& r is None && after.uncontended == Contention::Contended ==> {
                &&& final(book).uncontended_task_ids@.dom().contains(weight)
                &&& final(book).uncontended_task_ids@[weight] == t
                &&& final(book).pages@ == old(book).pages@
                &&& *final(counters) == *old(counters)
            }
            &&& r is None && after.uncontended != Contention::Contended ==> {
                &&& !prefer_immediate
                &&& final(book).trackers@.len() == old(book).trackers@.len() + 1
                &&& final(book).trackers@.last().task.0 == t
                &&& final(book).trackers@.last().remaining_count == after.lock_attempts@.filter(
                    |a: LockAttempt| a.status == LockStatus::Provisional,
                ).len()
                &&& final(book).trackers@.last().remaining_count > 0
                &&& after.lock_attempts@[i].status != LockStatus::Failed
                &&& final(counters).contended_count == old(counters).contended_count - 1
                &&& final(counters).provisioning_tracker_count == old(
                    counters,
                ).provisioning_tracker_count + 1
            }
        }),
        final(runnable_queue).tasks@ == old(runnable_queue).tasks@,
{
    let uncontended = old(book).uncontended_task_ids@;
    let (book1, selection) = choose|
        book1: AddressBook,
        selection: Option<(TaskSource, TaskInQueue)>,
    | #[trigger]
        popped(
            old(runnable_queue).tasks@,
            final(runnable_queue).tasks@,
            *old(book),
            book1,
            *final(book),
            old(tasks)@,
            final(tasks)@,
            *old(counters),
            *final(counters),
            prefer_immediate,
            false,
            selection,
            r,
        );
    assert(uncontended.dom().contains(weight));
    let (source, t) = selection->0;
    let v = choose|v: UniqueWeight| #[trigger]
        task::is_heaviest(uncontended, v) && uncontended[v] == t.0 && book1.uncontended_task_ids@
            == uncontended.remove(v);
    assert(uncontended.dom().contains(v) && v <= weight);
    assert(weight <= v);
    let t0 = old(tasks)@[t.0 as int];
    let made = made_by(book1, old(tasks)@, source, prefer_immediate, t);
    let n = made.len();
    locking::lemma_attempted(
        book1,
        source == TaskSource::Runnable || prefer_immediate,
        t0.unique_weight,
        t0.lock_attempts@,
    );
    assert(n == t0.lock_attempts@.len());
    locking::lemma_count_is_filter(made, LockStatus::Provisional, n);
    assert(made.take(n as int) =~= made);
    locking::lemma_locks_with_len(made, LockStatus::Provisional, n);
    if locking::count_with(made, LockStatus::Failed, n) == 0 {
        lemma_none_with(made, LockStatus::Failed, n);
        assert(made[i].status != LockStatus::Failed);
    }
    if locking::count_with(made, LockStatus::Provisional, n) == 0 {
        lemma_none_with(made, LockStatus::Provisional, n);
    }
    if prefer_immediate {
        lemma_immediate_not_provisional(book1, t0.unique_weight, t0.lock_attempts@, n);
    }
    assert(made[i].target == t0.lock_attempts@[i].target);
}

} // verus!
