//! A run of the scheduler over the transactions of a block.

use crate::scheduler::address_book::{AddressBook, Page, Preloader};
use crate::scheduler::contended;
use crate::scheduler::contended::ExecutionEnvironment;
use crate::scheduler::locking;
use crate::scheduler::release;
use crate::scheduler::stage;
use crate::scheduler::stage::{
    Counters, ScheduleStage, TaskSource, EXECUTION_CU_LIMIT, MIN_EXECUTION_CU,
};
use crate::scheduler::task;
use crate::scheduler::task::{
    Contention, LockAttempt, LockStatus, Task, TaskInQueue, TaskQueue, UniqueWeight, CU,
};
use crate::scheduler::usage;
use crate::scheduler::usage::{Lock, PageRc, RequestedUsage, Usage};
use crate::types::Pubkey;
use vstd::multiset::Multiset;
use vstd::prelude::*;

verus! {

/// The numbers below `n` that `f` holds of.
pub open spec fn members(n: int, f: spec_fn(int) -> bool) -> Set<int> {
    vstd::set_lib::set_int_range(0, n).filter(f)
}

proof fn lemma_members_finite(n: int, f: spec_fn(int) -> bool)
    requires
        0 <= n,
    ensures
        members(n, f).finite(),
        members(n, f).len() <= n,
{
    vstd::set_lib::lemma_int_range(0, n);
    vstd::set_lib::lemma_len_subset(members(n, f), vstd::set_lib::set_int_range(0, n));
}

proof fn lemma_members_same(n: int, f: spec_fn(int) -> bool, g: spec_fn(int) -> bool)
    requires
        forall|i: int| 0 <= i < n ==> #[trigger] f(i) == g(i),
    ensures
        members(n, f) == members(n, g),
{
    assert(members(n, f) =~= members(n, g)) by {
        assert forall|i: int| members(n, f).contains(i) == members(n, g).contains(i) by {
            if 0 <= i < n {
                assert(f(i) == g(i));
            }
        }
    }
}

proof fn lemma_members_grow(n: int, f: spec_fn(int) -> bool, g: spec_fn(int) -> bool)
    requires
        0 <= n,
        forall|i: int| 0 <= i < n ==> #[trigger] f(i) == g(i),
    ensures
        members(n + 1, g).finite(),
        members(n + 1, g).len() == members(n, f).len() + if g(n) {
            1nat
        } else {
            0nat
        },
{
    lemma_members_finite(n, f);
    lemma_members_finite(n + 1, g);
    if g(n) {
        assert(members(n + 1, g) =~= members(n, f).insert(n)) by {
            assert forall|i: int|
                members(n + 1, g).contains(i) == members(n, f).insert(n).contains(i) by {
                if 0 <= i < n {
                    assert(f(i) == g(i));
                }
            }
        }
    } else {
        assert(members(n + 1, g) =~= members(n, f)) by {
            assert forall|i: int| members(n + 1, g).contains(i) == members(n, f).contains(i) by {
                if 0 <= i < n {
                    assert(f(i) == g(i));
                }
            }
        }
    }
}

/// Only whether `j` is a member changes.
proof fn lemma_members_toggle(n: int, f: spec_fn(int) -> bool, g: spec_fn(int) -> bool, j: int)
    requires
        0 <= j < n,
        forall|i: int| 0 <= i < n && i != j ==> #[trigger] f(i) == g(i),
    ensures
        members(n, g).finite(),
        members(n, g).len() == members(n, f).len() + (if g(j) {
            1int
        } else {
            0int
        }) - (if f(j) {
            1int
        } else {
            0int
        }),
{
    lemma_members_finite(n, f);
    lemma_members_finite(n, g);
    let base = members(n, f).remove(j);
    assert(members(n, g).remove(j) =~= base) by {
        assert forall|i: int| members(n, g).remove(j).contains(i) == base.contains(i) by {
            if 0 <= i < n && i != j {
                assert(f(i) == g(i));
            }
        }
    }
    assert(members(n, f).contains(j) == f(j));
    assert(members(n, g).contains(j) == g(j));
    if !f(j) {
        assert(members(n, f).remove(j) =~= members(n, f));
    }
    if !g(j) {
        assert(members(n, g).remove(j) =~= members(n, g));
    }
}

/// A member makes the count positive.
proof fn lemma_members_positive(n: int, f: spec_fn(int) -> bool, j: int)
    requires
        0 <= j < n,
        f(j),
    ensures
        members(n, f).len() > 0,
{
    lemma_members_finite(n, f);
    assert(members(n, f).contains(j));
    if members(n, f).len() == 0 {
        assert(members(n, f) =~= Set::empty());
    }
}

/// The place in the order of the task of a weight.
pub open spec fn place_of(w: UniqueWeight) -> int {
    u64::MAX - w
}

/// The task was tried and has not been let through.
pub open spec fn is_contended(tasks: Seq<Task>, k: int) -> bool {
    tasks[k].uncontended == Contention::Contended
}

/// The task is under execution, given that it was tried.
pub open spec fn is_executing(tasks: Seq<Task>, k: int) -> bool {
    tasks[k].uncontended == Contention::Fresh || tasks[k].uncontended == Contention::Uncontended
}

pub open spec fn is_finished(tasks: Seq<Task>, k: int) -> bool {
    tasks[k].uncontended == Contention::Finished
}

/// The task is in the queues of its pages: it was blocked once and is not finished.
pub open spec fn is_queued(tasks: Seq<Task>, k: int) -> bool {
    tasks[k].contention_count > 0 && !is_finished(tasks, k)
}

/// The task needs the page.
pub open spec fn needs(tasks: Seq<Task>, k: int, p: int) -> bool {
    let attempts = tasks[k].for_indexer@;
    contended::targeted(attempts, attempts.len() as int, p)
}

/// The task needs to write the page.
pub open spec fn writes(tasks: Seq<Task>, k: int, p: int) -> bool {
    let attempts = tasks[k].for_indexer@;
    contended::write_targeted(attempts, attempts.len() as int, p)
}

/// The task needs the lock.
pub open spec fn takes(tasks: Seq<Task>, k: int, l: Lock) -> bool {
    exists|i: int|
        0 <= i < tasks[k].for_indexer@.len() && (#[trigger] tasks[k].for_indexer@[i]).lock() == l
}

/// The tasks need the same page, and not both only to read it.
pub open spec fn conflict(tasks: Seq<Task>, j: int, k: int) -> bool {
    exists|p: int|
        #![trigger needs(tasks, j, p)]
        needs(tasks, j, p) && needs(tasks, k, p) && (writes(tasks, j, p) || writes(tasks, k, p))
}

/// The tasks under execution that need the lock, among the first `n`.
pub open spec fn holders(tasks: Seq<Task>, n: int, l: Lock) -> Set<int> {
    members(n, |k: int| is_executing(tasks, k) && takes(tasks, k, l))
}

/// The tasks in the queue of the page that wait to write it, among the first `n`.
pub open spec fn waiting_writers(tasks: Seq<Task>, n: int, p: int) -> Set<int> {
    members(n, |k: int| is_queued(tasks, k) && writes(tasks, k, p))
}

/// A task with its attempts, as long as it has not handed them over: each is as the copy is, but for
/// how it came out last.
pub open spec fn has_attempts(t: Task) -> bool {
    &&& t.lock_attempts@.len() == t.for_indexer@.len()
    &&& forall|i: int|
        0 <= i < t.lock_attempts@.len() ==> (#[trigger] t.lock_attempts@[i]).lock()
            == t.for_indexer@[i].lock() && t.lock_attempts@[i].heaviest_uncontended is None
}

/// The tasks are numbered in the order of their weights, want no page twice, and have the attempts
/// and the count that fit where they stand. Those from `n` on were not tried yet.
pub open spec fn tasks_wf(tasks: Seq<Task>, n: int, pages: nat, max_executing: nat) -> bool {
    forall|k: int|
        0 <= k < tasks.len() ==> {
            let t = #[trigger] tasks[k];
            &&& t.unique_weight == u64::MAX - k
            &&& contended::distinct_pages(t.for_indexer@)
            &&& forall|i: int|
                0 <= i < t.for_indexer@.len() ==> (#[trigger] t.for_indexer@[i]).target.0 < pages
            &&& max_executing + t.for_indexer@.len() <= usize::MAX
            &&& k >= n ==> t.uncontended == Contention::Fresh && has_attempts(t)
            &&& t.uncontended == Contention::Fresh ==> t.contention_count == 0
            &&& t.uncontended == Contention::Contended ==> t.contention_count > 0 && has_attempts(t)
            &&& t.uncontended == Contention::Uncontended ==> t.contention_count > 0
            &&& k < n && t.uncontended != Contention::Contended ==> t.lock_attempts@.len() == 0
        }
}

/// The queue of a page holds the queued tasks that need it, and its count of writers counts those
/// that need to write it.
pub open spec fn page_queue_wf(page: Page, p: int, tasks: Seq<Task>, n: int) -> bool {
    let queue = page.contended_unique_weights@;
    &&& forall|w: UniqueWeight| #[trigger]
        queue.dom().contains(w) <==> place_of(w) < n && is_queued(tasks, place_of(w)) && needs(
            tasks,
            place_of(w),
            p,
        )
    &&& forall|w: UniqueWeight| #[trigger] queue.dom().contains(w) ==> queue[w] == place_of(w)
    &&& page.contended_write_task_count == waiting_writers(tasks, n, p).len()
    &&& page.provisional_task_ids@.len() == 0
}

/// No task goes ahead of an earlier one that it conflicts with.
pub open spec fn in_order(tasks: Seq<Task>, n: int) -> bool {
    forall|j: int, k: int|
        0 <= j < k < n && #[trigger] conflict(tasks, j, k) && !is_contended(tasks, k)
            ==> is_finished(tasks, j)
}

/// Task `j` keeps task `k` from page `p`, which both need: `j` is under execution, or is the earlier
/// one and waits too.
pub open spec fn stands_in_way(tasks: Seq<Task>, j: int, k: int, p: int) -> bool {
    &&& needs(tasks, j, p)
    &&& needs(tasks, k, p)
    &&& is_executing(tasks, j) || (j < k && is_contended(tasks, j))
}

/// One of the first `n` tasks keeps task `k` from a page.
pub open spec fn is_blocked(tasks: Seq<Task>, n: int, k: int) -> bool {
    exists|j: int, p: int| 0 <= j < n && #[trigger] stands_in_way(tasks, j, k, p)
}

/// If task `k` waits, it is among those worth another try, or else kept from a page by one of the
/// first `n` tasks.
pub open spec fn is_remembered(
    tasks: Seq<Task>,
    uncontended: Map<UniqueWeight, usize>,
    n: int,
    k: int,
) -> bool {
    is_contended(tasks, k) ==> uncontended.dom().contains((u64::MAX - k) as u64) || is_blocked(
        tasks,
        n,
        k,
    )
}

/// A run: the tasks that came in so far, the queues they are in, and how far they have come.
pub struct SchedulerRun {
    pub runnable_queue: TaskQueue,
    pub address_book: AddressBook,
    pub tasks: Vec<Task>,
    pub counters: Counters,
    pub executing_queue_count: usize,
    pub processed_count: usize,
    pub max_executing_queue_count: usize,
    pub from_disconnected: bool,
    pub from_exec_disconnected: bool,
}

impl SchedulerRun {
    /// How many tasks were tried so far.
    pub open spec fn tried(self) -> int {
        self.counters.queue_clock as int
    }

    /// The new tasks are those that came in and were not tried yet.
    pub open spec fn runnable_wf(self) -> bool {
        &&& forall|w: UniqueWeight| #[trigger]
            self.runnable_queue.tasks@.dom().contains(w) <==> self.tried() <= place_of(w)
                < self.tasks@.len()
        &&& forall|w: UniqueWeight| #[trigger]
            self.runnable_queue.tasks@.dom().contains(w) ==> self.runnable_queue.tasks@[w]
                == place_of(w)
    }

    /// The held locks are those of the tasks under execution, and the queues of pages hold those
    /// that were blocked.
    pub open spec fn book_wf(self) -> bool {
        let book = self.address_book;
        &&& book.wf()
        &&& book.steady()
        &&& book.pending@ == Multiset::<Lock>::empty()
        &&& book.trackers@.len() == 0
        &&& book.fulfilled_provisional_task_ids@.dom() == Set::<UniqueWeight>::empty()
        &&& forall|l: Lock| #[trigger]
            book.held@.count(l) == holders(self.tasks@, self.tried(), l).len()
        &&& forall|p: int|
            0 <= p < book.pages@.len() ==> page_queue_wf(
                #[trigger] book.pages@[p],
                p,
                self.tasks@,
                self.tried(),
            )
        &&& forall|w: UniqueWeight| #[trigger]
            book.uncontended_task_ids@.dom().contains(w) ==> place_of(w) < self.tried()
                && is_contended(self.tasks@, place_of(w)) && book.uncontended_task_ids@[w]
                == place_of(w)
    }

    /// The counts count.
    pub open spec fn counts_wf(self) -> bool {
        let n = self.tried();
        let tasks = self.tasks@;
        &&& self.counters.sequence_time == tasks.len()
        &&& tasks.len() < usize::MAX
        &&& n <= tasks.len()
        &&& self.counters.contended_count == members(n, |k: int| is_contended(tasks, k)).len()
        &&& self.executing_queue_count == members(n, |k: int| is_executing(tasks, k)).len()
        &&& self.processed_count == members(n, |k: int| is_finished(tasks, k)).len()
        &&& self.counters.commit_clock == self.processed_count
        &&& self.counters.execute_clock == self.executing_queue_count + self.processed_count
        &&& self.counters.contended_count + self.executing_queue_count + self.processed_count == n
        &&& self.counters.provisioning_tracker_count == 0
        &&& self.executing_queue_count <= self.max_executing_queue_count
        &&& self.max_executing_queue_count > 0
    }

    /// No task that waits is forgotten.
    pub open spec fn waiting_wf(self) -> bool {
        forall|k: int|
            0 <= k < self.tried() ==> #[trigger] is_remembered(
                self.tasks@,
                self.address_book.uncontended_task_ids@,
                self.tried(),
                k,
            )
    }

    /// The invariant of a run.
    pub open spec fn wf(self) -> bool {
        &&& self.counts_wf()
        &&& tasks_wf(
            self.tasks@,
            self.tried(),
            self.address_book.pages@.len(),
            self.max_executing_queue_count as nat,
        )
        &&& self.runnable_wf()
        &&& self.book_wf()
        &&& in_order(self.tasks@, self.tried())
        &&& self.waiting_wf()
    }

    /// The execution is one that this run handed out and that was not committed yet.
    pub open spec fn in_flight(self, ee: ExecutionEnvironment) -> bool {
        let k = ee.task.0 as int;
        let attempts = ee.finalized_lock_attempts@;
        &&& k < self.tried() <= self.tasks@.len()
        &&& is_executing(self.tasks@, k)
        &&& ee.unique_weight == self.tasks@[k].unique_weight
        &&& !ee.is_reindexed
        &&& attempts.len() == self.tasks@[k].for_indexer@.len()
        &&& forall|i: int|
            0 <= i < attempts.len() ==> (#[trigger] attempts[i]).lock()
                == self.tasks@[k].for_indexer@[i].lock() && attempts[i].status
                == LockStatus::Succeded && attempts[i].heaviest_uncontended is None
    }
}

/// Of two tasks that are under execution at the same time, neither needs to write a page that the
/// other needs.
pub proof fn law_no_conflicting_executions(run: SchedulerRun, j: int, k: int)
    requires
        run.wf(),
        0 <= j < run.tried(),
        0 <= k < run.tried(),
        j != k,
        is_executing(run.tasks@, j),
        is_executing(run.tasks@, k),
    ensures
        !conflict(run.tasks@, j, k),
{
    if conflict(run.tasks@, j, k) {
        if j < k {
            assert(is_finished(run.tasks@, j));
        } else {
            let p = choose|p: int|
                #![trigger needs(run.tasks@, j, p)]
                needs(run.tasks@, j, p) && needs(run.tasks@, k, p) && (writes(run.tasks@, j, p)
                    || writes(run.tasks@, k, p));
            assert(needs(run.tasks@, k, p));
            assert(conflict(run.tasks@, k, j));
        }
    }
}

/// Transactions take effect in the order of the block wherever that matters: a task that has been
/// let through has all the earlier tasks that it conflicts with behind it.
pub proof fn law_conflicting_tasks_run_in_order(run: SchedulerRun, j: int, k: int)
    requires
        run.wf(),
        0 <= j < k < run.tried(),
        conflict(run.tasks@, j, k),
        is_executing(run.tasks@, k) || is_finished(run.tasks@, k),
    ensures
        is_finished(run.tasks@, j),
{
}

/// Nothing below `n` is a member if `f` holds of nothing there.
proof fn lemma_members_empty(n: int, f: spec_fn(int) -> bool)
    requires
        forall|i: int| 0 <= i < n ==> !#[trigger] f(i),
    ensures
        members(n, f).len() == 0,
{
    assert(members(n, f) =~= Set::empty()) by {
        assert forall|i: int| !members(n, f).contains(i) by {
            if 0 <= i < n {
                assert(!f(i));
            }
        }
    }
}

/// A page that no task needs has an empty queue.
proof fn lemma_new_page(page: Page, p: int, tasks: Seq<Task>, n: int, pages: nat, max: nat)
    requires
        tasks_wf(tasks, n, pages, max),
        0 <= n <= tasks.len(),
        p >= pages,
        page.contended_unique_weights@.dom() == Set::<UniqueWeight>::empty(),
        page.contended_write_task_count == 0,
        page.provisional_task_ids@.len() == 0,
    ensures
        page_queue_wf(page, p, tasks, n),
{
    assert forall|k: int| 0 <= k < n implies !#[trigger] needs(tasks, k, p) && !writes(
        tasks,
        k,
        p,
    ) by {
        let attempts = tasks[k].for_indexer@;
        if needs(tasks, k, p) {
            let i = choose|i: int| 0 <= i < attempts.len() && (#[trigger] attempts[i]).target.0 == p;
            assert(attempts[i].target.0 < pages);
        }
        if writes(tasks, k, p) {
            let i = choose|i: int|
                0 <= i < attempts.len() && (#[trigger] attempts[i]).target.0 == p
                    && attempts[i].requested_usage == RequestedUsage::Writable;
            assert(attempts[i].target.0 < pages);
        }
    }
    assert forall|w: UniqueWeight|
        !(place_of(w) < n && is_queued(tasks, place_of(w)) && needs(tasks, place_of(w), p)) by {
        if place_of(w) < n {
            assert(!needs(tasks, place_of(w), p));
        }
    }
    let f = |k: int| is_queued(tasks, k) && writes(tasks, k, p);
    assert forall|k: int| 0 <= k < n implies !#[trigger] f(k) by {
        assert(!needs(tasks, k, p) && !writes(tasks, k, p));
    }
    lemma_members_empty(n, f);
}

/// The task can come in next: nothing has happened to it, its weight is the next in the order, it
/// wants pages of the book, none of them twice, and its locks can be counted.
pub open spec fn comes_next(run: SchedulerRun, t: Task) -> bool {
    &&& t.is_new()
    &&& t.unique_weight == u64::MAX - run.tasks@.len()
    &&& contended::distinct_pages(t.lock_attempts@)
    &&& t.for_indexer@ == task::unmade(t.lock_attempts@)
    &&& forall|i: int|
        0 <= i < t.lock_attempts@.len() ==> (#[trigger] t.lock_attempts@[i]).target.0
            < run.address_book.pages@.len() && t.lock_attempts@[i].heaviest_uncontended is None
    &&& run.max_executing_queue_count + t.lock_attempts@.len() <= usize::MAX
    &&& run.tasks@.len() + 1 < usize::MAX
}

impl SchedulerRun {
    /// A run that executes no more than `max_executing_queue_count` tasks at a time.
    pub fn new(max_executing_queue_count: usize) -> (r: Self)
        requires
            max_executing_queue_count > 0,
        ensures
            r.wf(),
            r.tasks@.len() == 0,
            r.address_book.pages@.len() == 0,
            r.max_executing_queue_count == max_executing_queue_count,
            !r.from_disconnected,
            !r.from_exec_disconnected,
    {
        let r = Self {
            runnable_queue: TaskQueue::new(),
            address_book: AddressBook::default(),
            tasks: Vec::new(),
            counters: Counters {
                sequence_time: 0,
                queue_clock: 0,
                execute_clock: 0,
                commit_clock: 0,
                contended_count: 0,
                provisioning_tracker_count: 0,
            },
            executing_queue_count: 0,
            processed_count: 0,
            max_executing_queue_count,
            from_disconnected: false,
            from_exec_disconnected: false,
        };
        proof {
            let tasks = r.tasks@;
            lemma_members_empty(0, |k: int| is_contended(tasks, k));
            lemma_members_empty(0, |k: int| is_executing(tasks, k));
            lemma_members_empty(0, |k: int| is_finished(tasks, k));
            assert forall|l: Lock| #[trigger] r.address_book.held@.count(l) == holders(
                tasks,
                0,
                l,
            ).len() by {
                lemma_members_empty(0, |k: int| is_executing(tasks, k) && takes(tasks, k, l));
            }
        }
        r
    }

    /// The page of an account, for the locks of tasks to come.
    pub fn load(&mut self, address: Pubkey) -> (r: PageRc)
        requires
            old(self).wf(),
        ensures
            final(self).wf(),
            r.0 < final(self).address_book.pages@.len(),
            final(self).address_book.entries().dom().contains(address.0),
            final(self).address_book.entries()[address.0] == r.0,
            final(self).address_book.pages@.len() >= old(self).address_book.pages@.len(),
            final(self).address_book.pages@.take(old(self).address_book.pages@.len() as int)
                == old(self).address_book.pages@,
            old(self).address_book.entries().dom().contains(address.0) ==> {
                &&& final(self).address_book.entries() == old(self).address_book.entries()
                &&& final(self).address_book.pages@ == old(self).address_book.pages@
            },
            !old(self).address_book.entries().dom().contains(address.0) ==> {
                &&& r.0 == old(self).address_book.pages@.len()
                &&& final(self).address_book.entries() == old(self).address_book.entries().insert(
                    address.0,
                    r.0,
                )
                &&& final(self).address_book.pages@.len() == old(self).address_book.pages@.len() + 1
                &&& final(self).address_book.page(r).address == address
                &&& final(self).address_book.page(r).current_usage == Usage::Unused
                &&& final(self).address_book.page(r).next_usage == Usage::Unused
                &&& final(self).address_book.page(r).provisional_task_ids@ == Seq::<usize>::empty()
                &&& final(self).address_book.page(r).cu == 0
                &&& final(self).address_book.page(r).contended_write_task_count == 0
                &&& final(self).address_book.page(r).contended_unique_weights@.dom() == Set::<
                    UniqueWeight,
                >::empty()
            },
            final(self).address_book.held@ == old(self).address_book.held@,
            final(self).address_book.pending@ == old(self).address_book.pending@,
            final(self).address_book.trackers == old(self).address_book.trackers,
            final(self).address_book.uncontended_task_ids
                == old(self).address_book.uncontended_task_ids,
            final(self).address_book.fulfilled_provisional_task_ids
                == old(self).address_book.fulfilled_provisional_task_ids,
            final(self).tasks == old(self).tasks,
            final(self).counters == old(self).counters,
            final(self).runnable_queue == old(self).runnable_queue,
            final(self).executing_queue_count == old(self).executing_queue_count,
            final(self).processed_count == old(self).processed_count,
            final(self).max_executing_queue_count == old(self).max_executing_queue_count,
            final(self).from_disconnected == old(self).from_disconnected,
            final(self).from_exec_disconnected == old(self).from_exec_disconnected,
    {
        let mut preloader = self.address_book.preloader();
        let r = preloader.load(address);
        proof {
            let book0 = old(self).address_book;
            let book1 = self.address_book;
            let n = self.tried();
            let tasks = self.tasks@;
            let old_pages = book0.pages@.len();
            assert(book1.pages@.take(old_pages as int) =~= book0.pages@) by {
                if book1.pages@.len() > old_pages {
                    assert(book1.pages@.drop_last() =~= book1.pages@.take(old_pages as int));
                }
            }
            assert forall|p: int| 0 <= p < book1.pages@.len() implies page_queue_wf(
                #[trigger] book1.pages@[p],
                p,
                tasks,
                n,
            ) by {
                if p < old_pages {
                    assert(book1.pages@.take(old_pages as int)[p] == book0.pages@[p]);
                    assert(page_queue_wf(book0.pages@[p], p, tasks, n));
                } else {
                    lemma_new_page(
                        book1.pages@[p],
                        p,
                        tasks,
                        n,
                        old_pages,
                        self.max_executing_queue_count as nat,
                    );
                }
            }
            assert forall|q: PageRc|
                q.0 < book1.pages@.len() && (#[trigger] book1.page(q)).current_usage
                    == Usage::Unused implies book1.page(q).next_usage == Usage::Unused by {
                if q.0 < old_pages {
                    assert(book1.pages@.take(old_pages as int)[q.0 as int]
                        == book0.pages@[q.0 as int]);
                    assert(book0.page(q) == book1.page(q));
                }
            }
            assert forall|k: int| 0 <= k < tasks.len() implies {
                let t = #[trigger] tasks[k];
                forall|i: int|
                    0 <= i < t.for_indexer@.len() ==> (#[trigger] t.for_indexer@[i]).target.0
                        < book1.pages@.len()
            } by {
                let t = tasks[k];
                assert forall|i: int| 0 <= i < t.for_indexer@.len() implies (
                #[trigger] t.for_indexer@[i]).target.0 < book1.pages@.len() by {
                    assert(t.for_indexer@[i].target.0 < old_pages);
                }
            }
        }
        r
    }

    /// Whether the task can come in next.
    pub fn can_register(&self, task: &Task) -> (r: bool)
        requires
            self.wf(),
        ensures
            r == comes_next(*self, *task),
    {
        let attempts = &task.lock_attempts;
        assert(self.tasks@.len() == self.tasks.len());
        if task.contention_count != 0 || task.busiest_page_cu != 0 || task.uncontended
            != Contention::Fresh || task.sequence_time != usize::MAX || task.sequence_end_time
            != usize::MAX || task.queue_time != usize::MAX || task.queue_end_time != usize::MAX
            || task.execute_time != usize::MAX || task.commit_time != usize::MAX {
            return false;
        }
        if task.unique_weight != u64::MAX - self.tasks.len() as u64 || self.tasks.len()
            >= usize::MAX - 1 || attempts.len() > usize::MAX - self.max_executing_queue_count
            || task.for_indexer.len() != attempts.len() {
            return false;
        }
        let mut i: usize = 0;
        while i < attempts.len()
            invariant
                i <= attempts@.len(),
                attempts == task.lock_attempts,
                task.for_indexer@.len() == attempts@.len(),
                forall|j: int|
                    0 <= j < i ==> (#[trigger] attempts@[j]).target.0
                        < self.address_book.pages@.len() && attempts@[j].heaviest_uncontended is None,
                forall|j: int| 0 <= j < i ==> #[trigger] task.for_indexer@[j] == attempts@[j].unmade(),
                forall|j: int, k: int|
                    0 <= j < k < i ==> (#[trigger] attempts@[j]).target != (
                    #[trigger] attempts@[k]).target,
            decreases attempts@.len() - i,
        {
            let attempt = attempts[i];
            if attempt.target.0 >= self.address_book.pages.len()
                || attempt.heaviest_uncontended.is_some() || task.for_indexer[i]
                != attempt.clone_for_test() {
                assert(!comes_next(*self, *task)) by {
                    assert(task::unmade(attempts@)[i as int] == attempt.unmade());
                    assert(attempts@[i as int] == attempt);
                }
                return false;
            }
            let mut k: usize = 0;
            while k < i
                invariant
                    k <= i < attempts@.len(),
                    attempts == task.lock_attempts,
                    attempt == attempts@[i as int],
                    forall|j: int| 0 <= j < k ==> (#[trigger] attempts@[j]).target != attempt.target,
                decreases i - k,
            {
                if attempts[k].target == attempt.target {
                    assert(!contended::distinct_pages(task.lock_attempts@)) by {
                        assert(attempts@[k as int].target == attempts@[i as int].target);
                    }
                    return false;
                }
                k = k + 1;
            }
            i = i + 1;
        }
        assert(task.for_indexer@ =~= task::unmade(attempts@));
        true
    }

    /// Takes a new task in, behind all that came in before.
    pub fn register(&mut self, task: Task)
        requires
            old(self).wf(),
            comes_next(*old(self), task),
        ensures
            final(self).wf(),
            final(self).tasks@ == old(self).tasks@.push(task),
            final(self).runnable_queue.tasks@ == old(self).runnable_queue.tasks@.insert(
                task.unique_weight,
                old(self).tasks@.len() as usize,
            ),
            final(self).address_book == old(self).address_book,
            final(self).counters == (Counters {
                sequence_time: (old(self).counters.sequence_time + 1) as usize,
                ..old(self).counters
            }),
            final(self).executing_queue_count == old(self).executing_queue_count,
            final(self).processed_count == old(self).processed_count,
            final(self).max_executing_queue_count == old(self).max_executing_queue_count,
            final(self).from_disconnected == old(self).from_disconnected,
            final(self).from_exec_disconnected == old(self).from_exec_disconnected,
            forall|ee: ExecutionEnvironment|
                old(self).in_flight(ee) ==> #[trigger] final(self).in_flight(ee),
    {
        let t: usize = self.tasks.len();
        self.tasks.push(task);
        proof {
            assert(place_of(task.unique_weight) == t);
        }
        ScheduleStage::register_runnable_task(
            &self.tasks,
            TaskInQueue(t),
            &mut self.runnable_queue,
            &mut self.counters,
        );
        proof {
            lemma_registered(*old(self), *self, task);
        }
    }
}

/// A task that came in keeps the invariant.
proof fn lemma_registered(before: SchedulerRun, after: SchedulerRun, task: Task)
    requires
        before.wf(),
        comes_next(before, task),
        after.tasks@ == before.tasks@.push(task),
        after.runnable_queue.tasks@ == before.runnable_queue.tasks@.insert(
            task.unique_weight,
            before.tasks@.len() as usize,
        ),
        after.address_book == before.address_book,
        after.counters == (Counters {
            sequence_time: (before.counters.sequence_time + 1) as usize,
            ..before.counters
        }),
        after.executing_queue_count == before.executing_queue_count,
        after.processed_count == before.processed_count,
        after.max_executing_queue_count == before.max_executing_queue_count,
    ensures
        after.wf(),
        forall|ee: ExecutionEnvironment|
            before.in_flight(ee) ==> #[trigger] after.in_flight(ee),
{
    let tasks0 = before.tasks@;
    let tasks1 = after.tasks@;
    let n = before.tried();
    assert forall|k: int| 0 <= k < n implies #[trigger] tasks1[k] == tasks0[k] by {}
    lemma_tried_tasks_same(before, after);
    assert forall|k: int| 0 <= k < tasks1.len() implies {
        let t = #[trigger] tasks1[k];
        &&& t.unique_weight == u64::MAX - k
        &&& contended::distinct_pages(t.for_indexer@)
        &&& forall|i: int|
            0 <= i < t.for_indexer@.len() ==> (#[trigger] t.for_indexer@[i]).target.0
                < after.address_book.pages@.len()
        &&& after.max_executing_queue_count + t.for_indexer@.len() <= usize::MAX
        &&& k >= n ==> t.uncontended == Contention::Fresh && has_attempts(t)
        &&& t.uncontended == Contention::Fresh ==> t.contention_count == 0
        &&& t.uncontended == Contention::Contended ==> t.contention_count > 0 && has_attempts(t)
        &&& t.uncontended == Contention::Uncontended ==> t.contention_count > 0
        &&& k < n && t.uncontended != Contention::Contended ==> t.lock_attempts@.len() == 0
    } by {
        if k < tasks0.len() {
            assert(tasks1[k] == tasks0[k]);
        } else {
            assert(tasks1[k] == task);
            let attempts = task.lock_attempts@;
            let copies = task.for_indexer@;
            assert forall|i: int| 0 <= i < copies.len() implies (#[trigger] copies[i]).lock()
                == attempts[i].lock() && copies[i].target.0
                < after.address_book.pages@.len() by {
                assert(attempts[i].target.0 < before.address_book.pages@.len());
            }
            assert forall|i: int, j: int| 0 <= i < j < copies.len() implies (
            #[trigger] copies[i]).target != (#[trigger] copies[j]).target by {
                assert(attempts[i].target != attempts[j].target);
                assert(copies[i].lock() == attempts[i].lock());
                assert(copies[j].lock() == attempts[j].lock());
            }
            assert forall|i: int| 0 <= i < attempts.len() implies (#[trigger] attempts[i]).lock()
                == copies[i].lock() && attempts[i].heaviest_uncontended is None by {}
        }
    }
    assert forall|w: UniqueWeight| #[trigger]
        after.runnable_queue.tasks@.dom().contains(w) <==> n <= place_of(w) < tasks1.len() by {
        if w != task.unique_weight {
            assert(before.runnable_queue.tasks@.dom().contains(w)
                == after.runnable_queue.tasks@.dom().contains(w));
        }
    }
    let uncontended = before.address_book.uncontended_task_ids@;
    assert forall|k: int| 0 <= k < n implies #[trigger] is_remembered(
        tasks1,
        uncontended,
        n,
        k,
    ) by {
        assert(is_remembered(tasks0, uncontended, n, k));
        lemma_still_remembered(tasks0, uncontended, n, tasks1, uncontended, n, k);
    }
}

/// What the invariant says of the tasks that were tried stays true as long as they, and what it
/// says it of, stay.
proof fn lemma_tried_tasks_same(before: SchedulerRun, after: SchedulerRun)
    requires
        before.counts_wf(),
        before.book_wf(),
        in_order(before.tasks@, before.tried()),
        after.tried() == before.tried(),
        after.tried() <= after.tasks@.len(),
        forall|k: int| 0 <= k < before.tried() ==> #[trigger] after.tasks@[k] == before.tasks@[k],
        after.address_book == before.address_book,
        after.counters.contended_count == before.counters.contended_count,
        after.executing_queue_count == before.executing_queue_count,
        after.processed_count == before.processed_count,
    ensures
        after.book_wf(),
        in_order(after.tasks@, after.tried()),
        ({
            let n = after.tried();
            let tasks = after.tasks@;
            &&& after.counters.contended_count == members(n, |k: int| is_contended(tasks, k)).len()
            &&& after.executing_queue_count == members(n, |k: int| is_executing(tasks, k)).len()
            &&& after.processed_count == members(n, |k: int| is_finished(tasks, k)).len()
        }),
{
    let n = before.tried();
    let tasks0 = before.tasks@;
    let tasks1 = after.tasks@;
    let book = before.address_book;
    lemma_members_same(n, |k: int| is_contended(tasks0, k), |k: int| is_contended(tasks1, k));
    lemma_members_same(n, |k: int| is_executing(tasks0, k), |k: int| is_executing(tasks1, k));
    lemma_members_same(n, |k: int| is_finished(tasks0, k), |k: int| is_finished(tasks1, k));
    assert forall|l: Lock| #[trigger] book.held@.count(l) == holders(tasks1, n, l).len() by {
        lemma_members_same(
            n,
            |k: int| is_executing(tasks0, k) && takes(tasks0, k, l),
            |k: int| is_executing(tasks1, k) && takes(tasks1, k, l),
        );
    }
    assert forall|p: int| 0 <= p < book.pages@.len() implies page_queue_wf(
        #[trigger] book.pages@[p],
        p,
        tasks1,
        n,
    ) by {
        assert(page_queue_wf(book.pages@[p], p, tasks0, n));
        lemma_members_same(
            n,
            |k: int| is_queued(tasks0, k) && writes(tasks0, k, p),
            |k: int| is_queued(tasks1, k) && writes(tasks1, k, p),
        );
    }
    assert forall|j: int, k: int|
        0 <= j < k < n && #[trigger] conflict(tasks1, j, k) && !is_contended(
            tasks1,
            k,
        ) implies is_finished(tasks1, j) by {
        let p = choose|p: int|
            #![trigger needs(tasks1, j, p)]
            needs(tasks1, j, p) && needs(tasks1, k, p) && (writes(tasks1, j, p) || writes(
                tasks1,
                k,
                p,
            ));
        assert(needs(tasks0, j, p));
        assert(conflict(tasks0, j, k));
    }
}

/// The tasks differ in one at most, and of that one the weight and the copy of the attempts are the
/// same.
pub open spec fn one_changed(tasks0: Seq<Task>, tasks1: Seq<Task>, k: int) -> bool {
    &&& 0 <= k < tasks0.len()
    &&& tasks1.len() == tasks0.len()
    &&& forall|i: int| 0 <= i < tasks0.len() && i != k ==> #[trigger] tasks1[i] == tasks0[i]
    &&& tasks1[k].unique_weight == tasks0[k].unique_weight
    &&& tasks1[k].for_indexer@ == tasks0[k].for_indexer@
}

/// What tasks need does not change with how far they have come.
proof fn lemma_same_needs(tasks0: Seq<Task>, tasks1: Seq<Task>, k: int)
    requires
        one_changed(tasks0, tasks1, k),
    ensures
        forall|i: int, p: int|
            0 <= i < tasks0.len() ==> #[trigger] needs(tasks1, i, p) == needs(tasks0, i, p),
        forall|i: int, p: int|
            0 <= i < tasks0.len() ==> #[trigger] writes(tasks1, i, p) == writes(tasks0, i, p),
        forall|i: int, l: Lock|
            0 <= i < tasks0.len() ==> #[trigger] takes(tasks1, i, l) == takes(tasks0, i, l),
        forall|i: int, j: int|
            0 <= i < tasks0.len() && 0 <= j < tasks0.len() ==> #[trigger] conflict(tasks1, i, j)
                == conflict(tasks0, i, j),
{
    assert forall|i: int, p: int| 0 <= i < tasks0.len() implies #[trigger] needs(tasks1, i, p)
        == needs(tasks0, i, p) by {
        assert(tasks1[i].for_indexer@ == tasks0[i].for_indexer@);
    }
    assert forall|i: int, p: int| 0 <= i < tasks0.len() implies #[trigger] writes(tasks1, i, p)
        == writes(tasks0, i, p) by {
        assert(tasks1[i].for_indexer@ == tasks0[i].for_indexer@);
    }
    assert forall|i: int, l: Lock| 0 <= i < tasks0.len() implies #[trigger] takes(tasks1, i, l)
        == takes(tasks0, i, l) by {
        assert(tasks1[i].for_indexer@ == tasks0[i].for_indexer@);
    }
    assert forall|i: int, j: int|
        0 <= i < tasks0.len() && 0 <= j < tasks0.len() implies #[trigger] conflict(tasks1, i, j)
        == conflict(tasks0, i, j) by {
        if conflict(tasks1, i, j) {
            let p = choose|p: int|
                #![trigger needs(tasks1, i, p)]
                needs(tasks1, i, p) && needs(tasks1, j, p) && (writes(tasks1, i, p) || writes(
                    tasks1,
                    j,
                    p,
                ));
            assert(needs(tasks0, i, p) && needs(tasks0, j, p));
        }
        if conflict(tasks0, i, j) {
            let p = choose|p: int|
                #![trigger needs(tasks0, i, p)]
                needs(tasks0, i, p) && needs(tasks0, j, p) && (writes(tasks0, i, p) || writes(
                    tasks0,
                    j,
                    p,
                ));
            assert(needs(tasks1, i, p) && needs(tasks1, j, p));
        }
    }
}

/// A task that waits is not forgotten as long as what it waits for stays.
proof fn lemma_still_remembered(
    tasks0: Seq<Task>,
    uncontended0: Map<UniqueWeight, usize>,
    n0: int,
    tasks1: Seq<Task>,
    uncontended1: Map<UniqueWeight, usize>,
    n1: int,
    k: int,
)
    requires
        is_remembered(tasks0, uncontended0, n0, k),
        n0 <= n1,
        is_contended(tasks1, k) ==> is_contended(tasks0, k),
        is_contended(tasks1, k) && uncontended0.dom().contains((u64::MAX - k) as u64)
            ==> uncontended1.dom().contains((u64::MAX - k) as u64),
        forall|j: int, p: int|
            0 <= j < n0 && #[trigger] stands_in_way(tasks0, j, k, p) ==> stands_in_way(
                tasks1,
                j,
                k,
                p,
            ),
    ensures
        is_remembered(tasks1, uncontended1, n1, k),
{
    if is_contended(tasks1, k) && !uncontended0.dom().contains((u64::MAX - k) as u64) {
        let (j, p) = choose|j: int, p: int|
            0 <= j < n0 && #[trigger] stands_in_way(tasks0, j, k, p);
        assert(stands_in_way(tasks1, j, k, p));
    }
}

/// Who holds a lock on a page needs that page and is under execution.
proof fn lemma_user_of_page(run: SchedulerRun, p: PageRc) -> (j: int)
    requires
        run.book_wf(),
        usage::usage_of(run.address_book.held@, p) != Usage::Unused,
    ensures
        0 <= j < run.tried(),
        is_executing(run.tasks@, j),
        needs(run.tasks@, j, p.0 as int),
{
    let tasks = run.tasks@;
    let n = run.tried();
    let held = run.address_book.held@;
    let l: Lock = if usage::writers(held, p) > 0 {
        (p, RequestedUsage::Writable)
    } else {
        (p, RequestedUsage::Readonly)
    };
    assert(held.count(l) == holders(tasks, n, l).len());
    let f = |k: int| is_executing(tasks, k) && takes(tasks, k, l);
    if forall|k: int| 0 <= k < n ==> !#[trigger] f(k) {
        lemma_members_empty(n, f);
    }
    let j = choose|k: int| 0 <= k < n && #[trigger] f(k);
    let attempts = tasks[j].for_indexer@;
    let i = choose|i: int| 0 <= i < attempts.len() && (#[trigger] attempts[i]).lock() == l;
    assert(attempts[i].target.0 == p.0);
    j
}

/// A task that does not get a lock is kept from the page by another.
proof fn lemma_refused_is_blocked(run: SchedulerRun, k: int, i: int)
    requires
        run.counts_wf(),
        run.book_wf(),
        tasks_wf(
            run.tasks@,
            run.tried(),
            run.address_book.pages@.len(),
            run.max_executing_queue_count as nat,
        ),
        k == run.tried() || (0 <= k < run.tried() && is_contended(run.tasks@, k)),
        k < run.tasks@.len(),
        ({
            let t = run.tasks@[k];
            &&& 0 <= i < t.lock_attempts@.len()
            &&& locking::attempted(
                run.address_book,
                true,
                t.unique_weight,
                t.lock_attempts@,
            )[i].status != LockStatus::Succeded
        }),
    ensures
        is_blocked(run.tasks@, run.tried(), k),
{
    let tasks = run.tasks@;
    let n = run.tried();
    let book = run.address_book;
    let t = tasks[k];
    let attempts = t.lock_attempts@;
    let copies = t.for_indexer@;
    let uw = t.unique_weight;
    assert(has_attempts(t));
    assert forall|a: int, b: int| 0 <= a < b < attempts.len() implies (
    #[trigger] attempts[a]).target != (#[trigger] attempts[b]).target by {
        assert(attempts[a].lock() == copies[a].lock());
        assert(attempts[b].lock() == copies[b].lock());
        assert(copies[a].target != copies[b].target);
    }
    locking::lemma_granted_alone(book, true, uw, attempts, i);
    assert(attempts[i].lock() == copies[i].lock());
    let page = attempts[i].target;
    let p = page.0 as int;
    assert(needs(tasks, k, p)) by {
        assert(copies[i].target.0 == p);
    }
    if usage::usage_of(book.held@, page) != Usage::Unused {
        let j = lemma_user_of_page(run, page);
        assert(stands_in_way(tasks, j, k, p));
    } else {
        assert(copies[i].target.0 < book.pages@.len());
        assert(page_queue_wf(book.pages@[p], p, tasks, n));
        let queue = book.pages@[p].contended_unique_weights@;
        assert(!task::is_heaviest(queue, uw));
        assert(queue.dom() != Set::<UniqueWeight>::empty());
        let w = if queue.dom().contains(uw) {
            choose|w: UniqueWeight| #[trigger] queue.dom().contains(w) && !(w <= uw)
        } else {
            assert(k == n);
            if forall|w: UniqueWeight| !queue.dom().contains(w) {
                assert(queue.dom() =~= Set::empty());
            }
            choose|w: UniqueWeight| #[trigger] queue.dom().contains(w)
        };
        assert(queue.dom().contains(w));
        let j = place_of(w);
        assert(j < k);
        assert(0 <= j);
        assert(is_queued(tasks, j) && needs(tasks, j, p));
        assert(stands_in_way(tasks, j, k, p));
    }
}

/// One of the attempts came out as is counted.
proof fn lemma_some_with(attempts: Seq<LockAttempt>, status: LockStatus, n: nat) -> (i: int)
    requires
        n <= attempts.len(),
        locking::count_with(attempts, status, n) > 0,
    ensures
        0 <= i < n,
        attempts[i].status == status,
    decreases n,
{
    if attempts[n - 1].status == status {
        n - 1
    } else {
        lemma_some_with(attempts, status, (n - 1) as nat)
    }
}

/// A task that gets all its locks has all the earlier tasks that it conflicts with behind it.
proof fn lemma_conflicts_behind(run: SchedulerRun, immediate: bool, j: int, k: int)
    requires
        run.wf(),
        0 <= j < k,
        j < run.tried(),
        k < run.tasks@.len(),
        has_attempts(run.tasks@[k]),
        conflict(run.tasks@, j, k),
        ({
            let t = run.tasks@[k];
            let made = locking::attempted(
                run.address_book,
                immediate,
                t.unique_weight,
                t.lock_attempts@,
            );
            forall|i: int|
                0 <= i < t.lock_attempts@.len() ==> (#[trigger] made[i]).status
                    == LockStatus::Succeded
        }),
    ensures
        is_finished(run.tasks@, j),
{
    let tasks = run.tasks@;
    let n = run.tried();
    let book = run.address_book;
    let t = tasks[k];
    let attempts = t.lock_attempts@;
    let copies = t.for_indexer@;
    let p = choose|p: int|
        #![trigger needs(tasks, j, p)]
        needs(tasks, j, p) && needs(tasks, k, p) && (writes(tasks, j, p) || writes(tasks, k, p));
    let i = if writes(tasks, k, p) {
        choose|i: int|
            0 <= i < copies.len() && (#[trigger] copies[i]).target.0 == p
                && copies[i].requested_usage == RequestedUsage::Writable
    } else {
        choose|i: int| 0 <= i < copies.len() && (#[trigger] copies[i]).target.0 == p
    };
    assert(0 <= i < copies.len() && copies[i].target.0 == p);
    assert(attempts[i].lock() == copies[i].lock());
    let page = attempts[i].target;
    assert(page.0 == p);
    assert forall|a: int, b: int| 0 <= a < b < attempts.len() implies (
    #[trigger] attempts[a]).target != (#[trigger] attempts[b]).target by {
        assert(attempts[a].lock() == copies[a].lock());
        assert(attempts[b].lock() == copies[b].lock());
        assert(copies[a].target != copies[b].target);
    }
    let made = locking::attempted(book, immediate, t.unique_weight, attempts);
    assert(made[i].status == LockStatus::Succeded);
    locking::lemma_granted_alone(book, immediate, t.unique_weight, attempts, i);
    let others = tasks[j].for_indexer@;
    if is_executing(tasks, j) {
        let m = if writes(tasks, j, p) {
            choose|m: int|
                0 <= m < others.len() && (#[trigger] others[m]).target.0 == p
                    && others[m].requested_usage == RequestedUsage::Writable
        } else {
            choose|m: int| 0 <= m < others.len() && (#[trigger] others[m]).target.0 == p
        };
        let l = others[m].lock();
        assert(l.0 == page);
        assert(takes(tasks, j, l));
        let f = |q: int| is_executing(tasks, q) && takes(tasks, q, l);
        lemma_members_positive(n, f, j);
        assert(book.held@.count(l) == holders(tasks, n, l).len());
        assert(book.held@.count(l) > 0);
        assert(false);
    } else if is_contended(tasks, j) {
        assert(tasks[j].contention_count > 0);
        let w: UniqueWeight = (u64::MAX - j) as u64;
        assert(place_of(w) == j);
        assert(book.page(page) == book.pages@[p]);
        assert(page_queue_wf(book.pages@[p], p, tasks, n));
        let queue = book.pages@[p].contended_unique_weights@;
        assert(queue.dom().contains(w));
        assert(w > t.unique_weight);
        assert(!task::is_heaviest(queue, t.unique_weight));
        assert(queue.dom() != Set::<UniqueWeight>::empty());
        assert(attempts[i].requested_usage == RequestedUsage::Readonly);
        assert(writes(tasks, j, p));
        let f = |q: int| is_queued(tasks, q) && writes(tasks, q, p);
        lemma_members_positive(n, f, j);
        assert(false);
    }
}

/// The attempts of a task that has them are for the pages that it needs.
proof fn lemma_attempts_needs(tasks: Seq<Task>, k: int, p: int)
    requires
        has_attempts(tasks[k]),
    ensures
        ({
            let attempts = tasks[k].lock_attempts@;
            let n = attempts.len() as int;
            &&& contended::targeted(attempts, n, p) == needs(tasks, k, p)
            &&& contended::write_targeted(attempts, n, p) == writes(tasks, k, p)
        }),
{
    let t = tasks[k];
    contended::lemma_targeted_same(
        t.lock_attempts@,
        t.for_indexer@,
        t.lock_attempts@.len() as int,
        p,
    );
}

/// The invariant after a new task did not get its locks: it waits for its pages.
proof fn lemma_new_task_blocked(before: SchedulerRun, after: SchedulerRun, refused: int)
    requires
        before.wf(),
        ({
            let k = before.tried();
            let t0 = before.tasks@[k];
            &&& k < before.tasks@.len()
            &&& one_changed(before.tasks@, after.tasks@, k)
            &&& after.tasks@[k].uncontended == Contention::Contended
            &&& after.tasks@[k].contention_count == 1
            &&& has_attempts(after.tasks@[k])
            &&& 0 <= refused < t0.lock_attempts@.len()
            &&& locking::attempted(
                before.address_book,
                true,
                t0.unique_weight,
                t0.lock_attempts@,
            )[refused].status != LockStatus::Succeded
            &&& contended::indexed(
                before.address_book,
                after.address_book,
                t0.lock_attempts@,
                t0.lock_attempts@.len() as int,
                t0.unique_weight,
                TaskInQueue(k as usize),
            )
            &&& after.address_book.wf()
            &&& after.address_book.steady()
            &&& after.runnable_queue.tasks@ == before.runnable_queue.tasks@.remove(t0.unique_weight)
            &&& after.counters == (Counters {
                queue_clock: (before.counters.queue_clock + 1) as usize,
                contended_count: (before.counters.contended_count + 1) as usize,
                ..before.counters
            })
            &&& after.executing_queue_count == before.executing_queue_count
            &&& after.processed_count == before.processed_count
            &&& after.max_executing_queue_count == before.max_executing_queue_count
        }),
    ensures
        after.wf(),
{
    let k = before.tried();
    let n = k;
    let tasks0 = before.tasks@;
    let tasks1 = after.tasks@;
    let book0 = before.address_book;
    let book1 = after.address_book;
    lemma_same_needs(tasks0, tasks1, k);
    lemma_members_grow(n, |i: int| is_contended(tasks0, i), |i: int| is_contended(tasks1, i));
    lemma_members_grow(n, |i: int| is_executing(tasks0, i), |i: int| is_executing(tasks1, i));
    lemma_members_grow(n, |i: int| is_finished(tasks0, i), |i: int| is_finished(tasks1, i));
    assert forall|l: Lock| #[trigger] book1.held@.count(l) == holders(tasks1, n + 1, l).len() by {
        lemma_members_grow(
            n,
            |i: int| is_executing(tasks0, i) && takes(tasks0, i, l),
            |i: int| is_executing(tasks1, i) && takes(tasks1, i, l),
        );
        assert(book0.held@.count(l) == holders(tasks0, n, l).len());
    }
    let t0 = tasks0[k];
    let uw = t0.unique_weight;
    assert(has_attempts(t0));
    assert forall|p: int| 0 <= p < book1.pages@.len() implies page_queue_wf(
        #[trigger] book1.pages@[p],
        p,
        tasks1,
        n + 1,
    ) by {
        assert(page_queue_wf(book0.pages@[p], p, tasks0, n));
        assert(contended::indexed_page(
            book0.pages@[p],
            book1.pages@[p],
            p,
            t0.lock_attempts@,
            t0.lock_attempts@.len() as int,
            uw,
            TaskInQueue(k as usize),
        ));
        lemma_attempts_needs(tasks0, k, p);
        lemma_members_grow(
            n,
            |i: int| is_queued(tasks0, i) && writes(tasks0, i, p),
            |i: int| is_queued(tasks1, i) && writes(tasks1, i, p),
        );
        let queue0 = book0.pages@[p].contended_unique_weights@;
        let queue1 = book1.pages@[p].contended_unique_weights@;
        assert forall|w: UniqueWeight| #[trigger]
            queue1.dom().contains(w) <==> place_of(w) < n + 1 && is_queued(tasks1, place_of(w))
                && needs(tasks1, place_of(w), p) by {
            if place_of(w) == k {
                assert(w == uw);
                assert(!queue0.dom().contains(w));
                assert(needs(tasks1, k, p) == needs(tasks0, k, p));
            } else {
                assert(queue1.dom().contains(w) == queue0.dom().contains(w));
                if 0 <= place_of(w) < n {
                    assert(needs(tasks1, place_of(w), p) == needs(tasks0, place_of(w), p));
                    assert(tasks1[place_of(w)] == tasks0[place_of(w)]);
                }
            }
        }
        assert forall|w: UniqueWeight| #[trigger] queue1.dom().contains(w) implies queue1[w]
            == place_of(w) by {
            if w != uw {
                assert(queue0.dom().contains(w));
            }
        }
    }
    assert forall|w: UniqueWeight| #[trigger]
        book1.uncontended_task_ids@.dom().contains(w) implies place_of(w) < n + 1 && is_contended(
        tasks1,
        place_of(w),
    ) && book1.uncontended_task_ids@[w] == place_of(w) by {
        assert(book0.uncontended_task_ids@.dom().contains(w));
    }
    assert forall|w: UniqueWeight| #[trigger]
        after.runnable_queue.tasks@.dom().contains(w) <==> n + 1 <= place_of(w)
            < tasks1.len() by {
        assert(before.runnable_queue.tasks@.dom().contains(w) <==> n <= place_of(w)
            < tasks0.len());
        if place_of(w) == n {
            assert(w == uw);
        }
    }
    assert forall|i: int, j: int|
        0 <= i < j < n + 1 && #[trigger] conflict(tasks1, i, j) && !is_contended(
            tasks1,
            j,
        ) implies is_finished(tasks1, i) by {
        assert(conflict(tasks0, i, j));
    }
    let uncontended0 = book0.uncontended_task_ids@;
    let uncontended1 = book1.uncontended_task_ids@;
    assert forall|i: int| 0 <= i < n + 1 implies #[trigger] is_remembered(
        tasks1,
        uncontended1,
        n + 1,
        i,
    ) by {
        if i < n {
            assert(is_remembered(tasks0, uncontended0, n, i));
            lemma_still_remembered(tasks0, uncontended0, n, tasks1, uncontended1, n + 1, i);
        } else {
            lemma_refused_is_blocked(before, k, refused);
            let (j, p) = choose|j: int, p: int|
                0 <= j < n && #[trigger] stands_in_way(tasks0, j, k, p);
            assert(stands_in_way(tasks1, j, k, p));
        }
    }
}

/// The invariant after a task that waited did not get its locks either.
proof fn lemma_task_blocked_again(before: SchedulerRun, after: SchedulerRun, k: int)
    requires
        before.wf(),
        0 <= k < before.tried(),
        is_contended(before.tasks@, k),
        one_changed(before.tasks@, after.tasks@, k),
        after.tasks@[k].uncontended == Contention::Contended,
        after.tasks@[k].contention_count > 0,
        has_attempts(after.tasks@[k]),
        after.address_book.pages@ == before.address_book.pages@,
        after.address_book.held@ == before.address_book.held@,
        after.address_book.pending@ == before.address_book.pending@,
        after.address_book.trackers == before.address_book.trackers,
        after.address_book.fulfilled_provisional_task_ids
            == before.address_book.fulfilled_provisional_task_ids,
        after.address_book.wf(),
        after.address_book.steady(),
        after.address_book.uncontended_task_ids@ == before.address_book.uncontended_task_ids@,
        after.runnable_queue.tasks@ == before.runnable_queue.tasks@,
        after.counters == before.counters,
        after.executing_queue_count == before.executing_queue_count,
        after.processed_count == before.processed_count,
        after.max_executing_queue_count == before.max_executing_queue_count,
    ensures
        after.wf(),
{
    let n = before.tried();
    let tasks0 = before.tasks@;
    let tasks1 = after.tasks@;
    let book0 = before.address_book;
    let book1 = after.address_book;
    lemma_same_needs(tasks0, tasks1, k);
    lemma_members_same(n, |i: int| is_contended(tasks0, i), |i: int| is_contended(tasks1, i));
    lemma_members_same(n, |i: int| is_executing(tasks0, i), |i: int| is_executing(tasks1, i));
    lemma_members_same(n, |i: int| is_finished(tasks0, i), |i: int| is_finished(tasks1, i));
    assert forall|l: Lock| #[trigger] book1.held@.count(l) == holders(tasks1, n, l).len() by {
        lemma_members_same(
            n,
            |i: int| is_executing(tasks0, i) && takes(tasks0, i, l),
            |i: int| is_executing(tasks1, i) && takes(tasks1, i, l),
        );
        assert(book0.held@.count(l) == holders(tasks0, n, l).len());
    }
    assert(tasks0[k].contention_count > 0);
    assert forall|p: int| 0 <= p < book1.pages@.len() implies page_queue_wf(
        #[trigger] book1.pages@[p],
        p,
        tasks1,
        n,
    ) by {
        assert(page_queue_wf(book0.pages@[p], p, tasks0, n));
        lemma_members_same(
            n,
            |i: int| is_queued(tasks0, i) && writes(tasks0, i, p),
            |i: int| is_queued(tasks1, i) && writes(tasks1, i, p),
        );
        let queue = book0.pages@[p].contended_unique_weights@;
        assert forall|w: UniqueWeight| #[trigger]
            queue.dom().contains(w) <==> place_of(w) < n && is_queued(tasks1, place_of(w)) && needs(
                tasks1,
                place_of(w),
                p,
            ) by {
            if 0 <= place_of(w) < n {
                assert(needs(tasks1, place_of(w), p) == needs(tasks0, place_of(w), p));
            }
        }
    }
    assert forall|i: int, j: int|
        0 <= i < j < n && #[trigger] conflict(tasks1, i, j) && !is_contended(
            tasks1,
            j,
        ) implies is_finished(tasks1, i) by {
        assert(conflict(tasks0, i, j));
    }
    let uncontended0 = book0.uncontended_task_ids@;
    let uncontended1 = book1.uncontended_task_ids@;
    assert forall|i: int| 0 <= i < n implies #[trigger] is_remembered(
        tasks1,
        uncontended1,
        n,
        i,
    ) by {
        assert(is_remembered(tasks0, uncontended0, n, i));
        lemma_still_remembered(tasks0, uncontended0, n, tasks1, uncontended1, n, i);
    }
}

/// The held locks after a task got all of its own.
proof fn lemma_locks_taken(
    tasks: Seq<Task>,
    k: int,
    held: Multiset<Lock>,
    made: Seq<LockAttempt>,
    l: Lock,
)
    requires
        contended::distinct_pages(tasks[k].for_indexer@),
        made.len() == tasks[k].for_indexer@.len(),
        forall|i: int|
            0 <= i < made.len() ==> (#[trigger] made[i]).lock() == tasks[k].for_indexer@[i].lock()
                && made[i].status == LockStatus::Succeded,
    ensures
        held.add(locking::locks_with(made, LockStatus::Succeded, made.len())).count(l)
            == held.count(l) + if takes(tasks, k, l) {
            1nat
        } else {
            0nat
        },
        locking::locks_with(made, LockStatus::Succeded, made.len()).count(l) == if takes(
            tasks,
            k,
            l,
        ) {
            1nat
        } else {
            0nat
        },
{
    let copies = tasks[k].for_indexer@;
    assert forall|i: int, j: int| 0 <= i < j < made.len() implies (#[trigger] made[i]).target != (
    #[trigger] made[j]).target by {
        assert(made[i].lock() == copies[i].lock());
        assert(made[j].lock() == copies[j].lock());
        assert(copies[i].target != copies[j].target);
    }
    locking::lemma_locks_once(made, made.len(), l);
    if takes(tasks, k, l) {
        let i = choose|i: int| 0 <= i < copies.len() && (#[trigger] copies[i]).lock() == l;
        assert(made[i].lock() == copies[i].lock());
        assert(0 <= i < made.len() && made[i].lock() == l);
    }
    if exists|i: int| 0 <= i < made.len() && (#[trigger] made[i]).lock() == l {
        let i = choose|i: int| 0 <= i < made.len() && (#[trigger] made[i]).lock() == l;
        assert(copies[i].lock() == l);
    }
}

/// The attempts of task `k` all got their locks, and those are held now.
pub open spec fn locks_granted(
    before: SchedulerRun,
    after: SchedulerRun,
    k: int,
    immediate: bool,
) -> bool {
    let t0 = before.tasks@[k];
    let made = locking::attempted(
        before.address_book,
        immediate,
        t0.unique_weight,
        t0.lock_attempts@,
    );
    &&& made.len() == t0.lock_attempts@.len()
    &&& forall|i: int|
        0 <= i < made.len() ==> (#[trigger] made[i]).status == LockStatus::Succeded
            && made[i].lock() == t0.lock_attempts@[i].lock()
    &&& after.address_book.held@ == before.address_book.held@.add(
        locking::locks_with(made, LockStatus::Succeded, made.len()),
    )
    &&& after.address_book.pending@ == before.address_book.pending@
    &&& after.address_book.trackers == before.address_book.trackers
    &&& after.address_book.fulfilled_provisional_task_ids
        == before.address_book.fulfilled_provisional_task_ids
    &&& after.address_book.wf()
    &&& after.address_book.steady()
    &&& after.address_book.pages@.len() == before.address_book.pages@.len()
    &&& forall|p: int|
        0 <= p < before.address_book.pages@.len() ==> #[trigger] after.address_book.pages@[p] == (
        Page {
            current_usage: after.address_book.pages@[p].current_usage,
            next_usage: after.address_book.pages@[p].next_usage,
            ..before.address_book.pages@[p]
        })
}

/// The invariant after a new task got its locks.
proof fn lemma_new_task_started(before: SchedulerRun, after: SchedulerRun)
    requires
        before.wf(),
        ({
            let k = before.tried();
            let t0 = before.tasks@[k];
            &&& k < before.tasks@.len()
            &&& one_changed(before.tasks@, after.tasks@, k)
            &&& after.tasks@[k].uncontended == Contention::Fresh
            &&& after.tasks@[k].contention_count == 0
            &&& after.tasks@[k].lock_attempts@.len() == 0
            &&& locks_granted(before, after, k, true)
            &&& after.address_book.uncontended_task_ids@
                == before.address_book.uncontended_task_ids@
            &&& after.runnable_queue.tasks@ == before.runnable_queue.tasks@.remove(t0.unique_weight)
            &&& after.counters == (Counters {
                queue_clock: (before.counters.queue_clock + 1) as usize,
                execute_clock: (before.counters.execute_clock + 1) as usize,
                ..before.counters
            })
            &&& after.executing_queue_count == before.executing_queue_count + 1
            &&& before.executing_queue_count < before.max_executing_queue_count
            &&& after.processed_count == before.processed_count
            &&& after.max_executing_queue_count == before.max_executing_queue_count
        }),
    ensures
        after.wf(),
{
    let k = before.tried();
    let n = k;
    let tasks0 = before.tasks@;
    let tasks1 = after.tasks@;
    let book0 = before.address_book;
    let book1 = after.address_book;
    let t0 = tasks0[k];
    let made = locking::attempted(book0, true, t0.unique_weight, t0.lock_attempts@);
    lemma_same_needs(tasks0, tasks1, k);
    lemma_members_grow(n, |i: int| is_contended(tasks0, i), |i: int| is_contended(tasks1, i));
    lemma_members_grow(n, |i: int| is_executing(tasks0, i), |i: int| is_executing(tasks1, i));
    lemma_members_grow(n, |i: int| is_finished(tasks0, i), |i: int| is_finished(tasks1, i));
    assert(has_attempts(t0));
    assert forall|i: int| 0 <= i < made.len() implies (#[trigger] made[i]).lock()
        == t0.for_indexer@[i].lock() && made[i].status == LockStatus::Succeded by {
        assert(t0.lock_attempts@[i].lock() == t0.for_indexer@[i].lock());
    }
    assert forall|l: Lock| #[trigger] book1.held@.count(l) == holders(tasks1, n + 1, l).len() by {
        lemma_members_grow(
            n,
            |i: int| is_executing(tasks0, i) && takes(tasks0, i, l),
            |i: int| is_executing(tasks1, i) && takes(tasks1, i, l),
        );
        assert(book0.held@.count(l) == holders(tasks0, n, l).len());
        lemma_locks_taken(tasks0, k, book0.held@, made, l);
        assert(takes(tasks1, k, l) == takes(tasks0, k, l));
    }
    assert forall|p: int| 0 <= p < book1.pages@.len() implies page_queue_wf(
        #[trigger] book1.pages@[p],
        p,
        tasks1,
        n + 1,
    ) by {
        assert(page_queue_wf(book0.pages@[p], p, tasks0, n));
        lemma_members_grow(
            n,
            |i: int| is_queued(tasks0, i) && writes(tasks0, i, p),
            |i: int| is_queued(tasks1, i) && writes(tasks1, i, p),
        );
        let queue = book0.pages@[p].contended_unique_weights@;
        assert forall|w: UniqueWeight| #[trigger]
            queue.dom().contains(w) <==> place_of(w) < n + 1 && is_queued(tasks1, place_of(w))
                && needs(tasks1, place_of(w), p) by {
            if 0 <= place_of(w) < n {
                assert(needs(tasks1, place_of(w), p) == needs(tasks0, place_of(w), p));
                assert(tasks1[place_of(w)] == tasks0[place_of(w)]);
            }
        }
    }
    assert forall|w: UniqueWeight| #[trigger]
        book1.uncontended_task_ids@.dom().contains(w) implies place_of(w) < n + 1 && is_contended(
        tasks1,
        place_of(w),
    ) && book1.uncontended_task_ids@[w] == place_of(w) by {
        assert(book0.uncontended_task_ids@.dom().contains(w));
    }
    assert forall|w: UniqueWeight| #[trigger]
        after.runnable_queue.tasks@.dom().contains(w) <==> n + 1 <= place_of(w)
            < tasks1.len() by {
        assert(before.runnable_queue.tasks@.dom().contains(w) <==> n <= place_of(w)
            < tasks0.len());
        if place_of(w) == n {
            assert(w == t0.unique_weight);
        }
    }
    assert forall|i: int, j: int|
        0 <= i < j < n + 1 && #[trigger] conflict(tasks1, i, j) && !is_contended(
            tasks1,
            j,
        ) implies is_finished(tasks1, i) by {
        assert(conflict(tasks0, i, j));
        if j == k {
            lemma_conflicts_behind(before, true, i, k);
        }
    }
    let uncontended0 = book0.uncontended_task_ids@;
    let uncontended1 = book1.uncontended_task_ids@;
    assert forall|i: int| 0 <= i < n + 1 implies #[trigger] is_remembered(
        tasks1,
        uncontended1,
        n + 1,
        i,
    ) by {
        if i < n {
            assert(is_remembered(tasks0, uncontended0, n, i));
            lemma_still_remembered(tasks0, uncontended0, n, tasks1, uncontended1, n + 1, i);
        }
    }
}

/// The invariant after a task that waited got its locks.
proof fn lemma_waiting_task_started(before: SchedulerRun, after: SchedulerRun, k: int)
    requires
        before.wf(),
        0 <= k < before.tried(),
        is_contended(before.tasks@, k),
        one_changed(before.tasks@, after.tasks@, k),
        after.tasks@[k].uncontended == Contention::Uncontended,
        after.tasks@[k].lock_attempts@.len() == 0,
        after.tasks@[k].contention_count == before.tasks@[k].contention_count,
        locks_granted(before, after, k, true),
        after.address_book.uncontended_task_ids@ == before.address_book.uncontended_task_ids@.remove(
            before.tasks@[k].unique_weight,
        ),
        after.runnable_queue.tasks@ == before.runnable_queue.tasks@,
        after.counters == (Counters {
            contended_count: (before.counters.contended_count - 1) as usize,
            execute_clock: (before.counters.execute_clock + 1) as usize,
            ..before.counters
        }),
        after.executing_queue_count == before.executing_queue_count + 1,
        before.executing_queue_count < before.max_executing_queue_count,
        after.processed_count == before.processed_count,
        after.max_executing_queue_count == before.max_executing_queue_count,
    ensures
        after.wf(),
{
    let n = before.tried();
    let tasks0 = before.tasks@;
    let tasks1 = after.tasks@;
    let book0 = before.address_book;
    let book1 = after.address_book;
    let t0 = tasks0[k];
    let made = locking::attempted(book0, true, t0.unique_weight, t0.lock_attempts@);
    lemma_same_needs(tasks0, tasks1, k);
    lemma_members_toggle(n, |i: int| is_contended(tasks0, i), |i: int| is_contended(tasks1, i), k);
    lemma_members_toggle(n, |i: int| is_executing(tasks0, i), |i: int| is_executing(tasks1, i), k);
    lemma_members_toggle(n, |i: int| is_finished(tasks0, i), |i: int| is_finished(tasks1, i), k);
    assert(has_attempts(t0));
    assert forall|i: int| 0 <= i < made.len() implies (#[trigger] made[i]).lock()
        == t0.for_indexer@[i].lock() && made[i].status == LockStatus::Succeded by {
        assert(t0.lock_attempts@[i].lock() == t0.for_indexer@[i].lock());
    }
    assert forall|l: Lock| #[trigger] book1.held@.count(l) == holders(tasks1, n, l).len() by {
        lemma_members_toggle(
            n,
            |i: int| is_executing(tasks0, i) && takes(tasks0, i, l),
            |i: int| is_executing(tasks1, i) && takes(tasks1, i, l),
            k,
        );
        assert(book0.held@.count(l) == holders(tasks0, n, l).len());
        lemma_locks_taken(tasks0, k, book0.held@, made, l);
        assert(takes(tasks1, k, l) == takes(tasks0, k, l));
    }
    assert forall|p: int| 0 <= p < book1.pages@.len() implies page_queue_wf(
        #[trigger] book1.pages@[p],
        p,
        tasks1,
        n,
    ) by {
        assert(page_queue_wf(book0.pages@[p], p, tasks0, n));
        lemma_members_same(
            n,
            |i: int| is_queued(tasks0, i) && writes(tasks0, i, p),
            |i: int| is_queued(tasks1, i) && writes(tasks1, i, p),
        );
        let queue = book0.pages@[p].contended_unique_weights@;
        assert forall|w: UniqueWeight| #[trigger]
            queue.dom().contains(w) <==> place_of(w) < n && is_queued(tasks1, place_of(w)) && needs(
                tasks1,
                place_of(w),
                p,
            ) by {
            if 0 <= place_of(w) < n {
                assert(needs(tasks1, place_of(w), p) == needs(tasks0, place_of(w), p));
            }
        }
    }
    assert forall|w: UniqueWeight| #[trigger]
        book1.uncontended_task_ids@.dom().contains(w) implies place_of(w) < n && is_contended(
        tasks1,
        place_of(w),
    ) && book1.uncontended_task_ids@[w] == place_of(w) by {
        assert(book0.uncontended_task_ids@.dom().contains(w));
        assert(w != t0.unique_weight);
        assert(place_of(w) != k);
    }
    assert forall|i: int, j: int|
        0 <= i < j < n && #[trigger] conflict(tasks1, i, j) && !is_contended(
            tasks1,
            j,
        ) implies is_finished(tasks1, i) by {
        assert(conflict(tasks0, i, j));
        if j == k {
            lemma_conflicts_behind(before, true, i, k);
        }
    }
    let uncontended0 = book0.uncontended_task_ids@;
    let uncontended1 = book1.uncontended_task_ids@;
    assert forall|i: int| 0 <= i < n implies #[trigger] is_remembered(
        tasks1,
        uncontended1,
        n,
        i,
    ) by {
        assert(is_remembered(tasks0, uncontended0, n, i));
        lemma_still_remembered(tasks0, uncontended0, n, tasks1, uncontended1, n, i);
    }
}

/// Whatever is selected next can have its locks tried.
proof fn lemma_can_pop(run: SchedulerRun, runnable_exclusive: bool)
    requires
        run.wf(),
        run.executing_queue_count < run.max_executing_queue_count,
    ensures
        run.counters.execute_clock < usize::MAX,
        stage::can_pop(
            run.runnable_queue.tasks@,
            run.address_book,
            run.tasks@,
            run.counters,
            true,
            runnable_exclusive,
        ),
{
    let runnable = run.runnable_queue.tasks@;
    let book = run.address_book;
    let tasks = run.tasks@;
    let n = run.tried();
    assert forall|r: UniqueWeight, c: UniqueWeight|
        #![trigger runnable.dom().contains(r), book.uncontended_task_ids@.dom().contains(c)]
        runnable.dom().contains(r) && book.uncontended_task_ids@.dom().contains(c) implies r
        < c by {}
    assert forall|source: TaskSource, t: TaskInQueue| #[trigger]
        stage::next_selected(
            runnable,
            book.uncontended_task_ids@,
            runnable_exclusive,
            source,
            t,
        ) implies stage::lockable(book, tasks, run.counters, source, true, t) by {
        let k = t.0 as int;
        if runnable_exclusive {
            let w = choose|w: UniqueWeight| #[trigger]
                task::is_heaviest(runnable, w) && runnable[w] == t.0;
            assert(runnable.dom().contains(w));
            let first: UniqueWeight = (u64::MAX - n) as u64;
            assert(n <= place_of(w) < tasks.len());
            assert(place_of(first) == n);
            assert(runnable.dom().contains(first));
            assert(k == n);
        } else {
            let w = choose|w: UniqueWeight| #[trigger]
                task::is_heaviest(book.uncontended_task_ids@, w) && book.uncontended_task_ids@[w]
                    == t.0;
            assert(book.uncontended_task_ids@.dom().contains(w));
            let f = |i: int| is_contended(tasks, i);
            lemma_members_positive(n, f, k);
        }
        let t0 = tasks[k];
        let attempts = t0.lock_attempts@;
        let copies = t0.for_indexer@;
        assert(has_attempts(t0));
        assert forall|i: int| 0 <= i < attempts.len() implies (#[trigger] attempts[i]).target.0
            < book.pages@.len() by {
            assert(attempts[i].lock() == copies[i].lock());
            assert(copies[i].target.0 < book.pages@.len());
        }
        assert forall|p: PageRc| p.0 < book.pages@.len() implies #[trigger] usage::readers(
            book.held@,
            p,
        ) + attempts.len() <= usize::MAX by {
            let l: Lock = (p, RequestedUsage::Readonly);
            assert(book.held@.count(l) == holders(tasks, n, l).len());
            let f = |i: int| is_executing(tasks, i) && takes(tasks, i, l);
            let g = |i: int| is_executing(tasks, i);
            lemma_members_finite(n, g);
            assert(members(n, f).subset_of(members(n, g)));
            vstd::set_lib::lemma_len_subset(members(n, f), members(n, g));
        }
        if runnable_exclusive {
            assert forall|i: int, j: int| 0 <= i < j < attempts.len() implies (
            #[trigger] attempts[i]).target != (#[trigger] attempts[j]).target by {
                assert(attempts[i].lock() == copies[i].lock());
                assert(attempts[j].lock() == copies[j].lock());
                assert(copies[i].target != copies[j].target);
            }
            assert forall|i: int| 0 <= i < attempts.len() implies !book.pages@[(
            #[trigger] attempts[i]).target.0 as int].contended_unique_weights@.dom().contains(
                t0.unique_weight,
            ) && (attempts[i].requested_usage == RequestedUsage::Writable
                ==> book.pages@[attempts[i].target.0 as int].contended_write_task_count
                < usize::MAX) by {
                let p = attempts[i].target.0 as int;
                assert(page_queue_wf(book.pages@[p], p, tasks, n));
                assert(place_of(t0.unique_weight) == n);
                lemma_members_finite(n, |i: int| is_queued(tasks, i) && writes(tasks, i, p));
            }
        }
    }
}

/// What a step of scheduling does to a run that has room for one execution more.
pub open spec fn scheduled(
    before: SchedulerRun,
    after: SchedulerRun,
    runnable_exclusive: bool,
    r: Option<Box<ExecutionEnvironment>>,
) -> bool {
    exists|
        tasks1: Seq<Task>,
        counters1: Counters,
        popped: Option<(UniqueWeight, TaskInQueue, Vec<LockAttempt>)>,
    | #[trigger]
        stage::next_scheduled(
            before.runnable_queue.tasks@,
            after.runnable_queue.tasks@,
            before.address_book,
            after.address_book,
            before.tasks@,
            tasks1,
            after.tasks@,
            before.counters,
            counters1,
            after.counters,
            true,
            runnable_exclusive,
            popped,
            r,
        )
}

/// A step of scheduling keeps the invariant, and what it returns is in flight.
proof fn lemma_scheduled(
    before: SchedulerRun,
    after: SchedulerRun,
    runnable_exclusive: bool,
    r: Option<Box<ExecutionEnvironment>>,
)
    requires
        before.wf(),
        before.executing_queue_count < before.max_executing_queue_count,
        forall|k: int|
            0 <= k < before.tasks@.len() ==> (#[trigger] before.tasks@[k]).contention_count
                < usize::MAX,
        after.address_book.wf(),
        after.address_book.steady(),
        scheduled(before, after, runnable_exclusive, r),
        after.executing_queue_count == before.executing_queue_count + if r is Some {
            1int
        } else {
            0int
        },
        after.processed_count == before.processed_count,
        after.max_executing_queue_count == before.max_executing_queue_count,
    ensures
        after.wf(),
        r matches Some(ee) ==> after.in_flight(*ee) && !before.in_flight(*ee),
        forall|ee: ExecutionEnvironment|
            before.in_flight(ee) ==> #[trigger] after.in_flight(ee),
{
    let (tasks1, counters1, popped) = choose|
        tasks1: Seq<Task>,
        counters1: Counters,
        popped: Option<(UniqueWeight, TaskInQueue, Vec<LockAttempt>)>,
    | #[trigger]
        stage::next_scheduled(
            before.runnable_queue.tasks@,
            after.runnable_queue.tasks@,
            before.address_book,
            after.address_book,
            before.tasks@,
            tasks1,
            after.tasks@,
            before.counters,
            counters1,
            after.counters,
            true,
            runnable_exclusive,
            popped,
            r,
        );
    let (book1, selection) = choose|
        book1: AddressBook,
        selection: Option<(TaskSource, TaskInQueue)>,
    | #[trigger]
        stage::popped(
            before.runnable_queue.tasks@,
            after.runnable_queue.tasks@,
            before.address_book,
            book1,
            after.address_book,
            before.tasks@,
            tasks1,
            before.counters,
            counters1,
            true,
            runnable_exclusive,
            selection,
            popped,
        );
    let tasks0 = before.tasks@;
    let tasks2 = after.tasks@;
    let book0 = before.address_book;
    let n = before.tried();
    match selection {
        None => {
            assert(after.tasks@ == before.tasks@);
            assert(after.counters == before.counters);
            assert(after.address_book == book1);
            lemma_nothing_selected(before, after);
        },
        Some((source, t)) => {
            let k = t.0 as int;
            let runnable = before.runnable_queue.tasks@;
            let uncontended = book0.uncontended_task_ids@;
            let t0 = tasks0[k];
            if runnable_exclusive {
                let w = choose|w: UniqueWeight| #[trigger]
                    task::is_heaviest(runnable, w) && runnable[w] == t.0
                        && after.runnable_queue.tasks@ == runnable.remove(w);
                let first: UniqueWeight = (u64::MAX - n) as u64;
                assert(runnable.dom().contains(w));
                assert(place_of(first) == n);
                assert(runnable.dom().contains(first));
                assert(k == n && w == t0.unique_weight);
            } else {
                let w = choose|w: UniqueWeight| #[trigger]
                    task::is_heaviest(uncontended, w) && uncontended[w] == t.0
                        && book1.uncontended_task_ids@ == uncontended.remove(w);
                assert(uncontended.dom().contains(w));
                assert(k == place_of(w) && w == t0.unique_weight);
                assert(is_contended(tasks0, k));
            }
            let attempts = t0.lock_attempts@;
            assert(has_attempts(t0));
            let made = locking::attempted(book0, true, t0.unique_weight, attempts);
            stage::lemma_tried_same(
                book0,
                book1,
                true,
                t0.unique_weight,
                attempts,
                attempts.len(),
            );
            stage::lemma_immediate_not_provisional(
                book0,
                t0.unique_weight,
                attempts,
                attempts.len(),
            );
            locking::lemma_attempted(book0, true, t0.unique_weight, attempts);
            assert(stage::made_by(book1, tasks0, source, true, t) == made);
            let failed = locking::count_with(made, LockStatus::Failed, made.len()) > 0;
            assert(one_changed(tasks0, tasks1, k));
            if failed {
                assert(tasks2 == tasks1);
                assert(after.counters == counters1);
                assert(has_attempts(tasks2[k])) by {
                    assert forall|i: int| 0 <= i < made.len() implies (
                    #[trigger] tasks2[k].lock_attempts@[i]).lock()
                        == tasks2[k].for_indexer@[i].lock()
                        && tasks2[k].lock_attempts@[i].heaviest_uncontended is None by {
                        assert(attempts[i].lock() == t0.for_indexer@[i].lock());
                        assert(made[i].target == attempts[i].target);
                    }
                }
                if source == TaskSource::Runnable {
                    lemma_indexed_from_same(book0, book1, after.address_book, attempts, t0.unique_weight, t);
                    let refused = lemma_some_with(made, LockStatus::Failed, made.len());
                    lemma_new_task_blocked(before, after, refused);
                } else {
                    assert(after.address_book.uncontended_task_ids@ =~= uncontended);
                    lemma_task_blocked_again(before, after, k);
                }
            } else {
                stage::lemma_none_with(made, LockStatus::Failed, made.len());
                stage::lemma_none_with(made, LockStatus::Provisional, made.len());
                assert(one_changed(tasks0, tasks2, k)) by {
                    assert(tasks2 == tasks1.update(
                        k,
                        Task { execute_time: counters1.execute_clock, ..tasks1[k] },
                    ));
                }
                assert(locks_granted(before, after, k, true)) by {
                    assert forall|i: int| 0 <= i < made.len() implies (#[trigger] made[i]).status
                        == LockStatus::Succeded && made[i].lock() == attempts[i].lock() by {
                        assert(made[i].status != LockStatus::Failed);
                        assert(made[i].status != LockStatus::Provisional);
                        assert(made[i].target == attempts[i].target);
                    }
                }
                if source == TaskSource::Runnable {
                    lemma_new_task_started(before, after);
                } else {
                    lemma_waiting_task_started(before, after, k);
                }
                let ee = *r->0;
                assert forall|i: int| 0 <= i < ee.finalized_lock_attempts@.len() implies (
                #[trigger] ee.finalized_lock_attempts@[i]).lock()
                    == tasks2[k].for_indexer@[i].lock() && ee.finalized_lock_attempts@[i].status
                    == LockStatus::Succeded
                    && ee.finalized_lock_attempts@[i].heaviest_uncontended is None by {
                    assert(made[i].status == LockStatus::Succeded);
                    assert(attempts[i].lock() == t0.for_indexer@[i].lock());
                }
            }
            assert forall|ee: ExecutionEnvironment|
                before.in_flight(ee) implies #[trigger] after.in_flight(ee) by {
                let j = ee.task.0 as int;
                if j == k {
                    assert(is_executing(tasks0, k));
                    assert(false);
                } else {
                    assert(tasks2[j] == tasks0[j]);
                }
            }
        },
    }
}

/// Where nothing was selected nothing changed.
proof fn lemma_nothing_selected(before: SchedulerRun, after: SchedulerRun)
    requires
        before.wf(),
        after.tasks@ == before.tasks@,
        after.counters == before.counters,
        after.runnable_queue.tasks@ == before.runnable_queue.tasks@,
        stage::same_but_for_uncontended(before.address_book, after.address_book),
        after.address_book.uncontended_task_ids@ == before.address_book.uncontended_task_ids@,
        after.address_book.wf(),
        after.address_book.steady(),
        after.executing_queue_count == before.executing_queue_count,
        after.processed_count == before.processed_count,
        after.max_executing_queue_count == before.max_executing_queue_count,
    ensures
        after.wf(),
        forall|ee: ExecutionEnvironment|
            before.in_flight(ee) ==> #[trigger] after.in_flight(ee),
{
    let book0 = before.address_book;
    let book1 = after.address_book;
    assert forall|l: Lock| #[trigger] book1.held@.count(l) == holders(
        after.tasks@,
        after.tried(),
        l,
    ).len() by {
        assert(book0.held@.count(l) == holders(before.tasks@, before.tried(), l).len());
    }
    assert forall|p: int| 0 <= p < book1.pages@.len() implies page_queue_wf(
        #[trigger] book1.pages@[p],
        p,
        after.tasks@,
        after.tried(),
    ) by {
        assert(page_queue_wf(book0.pages@[p], p, before.tasks@, before.tried()));
    }
}

/// A selection makes no difference to the queues that a task joins.
proof fn lemma_indexed_from_same(
    first: AddressBook,
    before: AddressBook,
    after: AddressBook,
    attempts: Seq<LockAttempt>,
    unique_weight: UniqueWeight,
    t: TaskInQueue,
)
    requires
        stage::same_but_for_uncontended(first, before),
        before.uncontended_task_ids@ == first.uncontended_task_ids@,
        contended::indexed(before, after, attempts, attempts.len() as int, unique_weight, t),
    ensures
        contended::indexed(first, after, attempts, attempts.len() as int, unique_weight, t),
{
    assert forall|p: int| 0 <= p < first.pages@.len() implies contended::indexed_page(
        #[trigger] first.pages@[p],
        after.pages@[p],
        p,
        attempts,
        attempts.len() as int,
        unique_weight,
        t,
    ) by {
        assert(contended::indexed_page(
            before.pages@[p],
            after.pages@[p],
            p,
            attempts,
            attempts.len() as int,
            unique_weight,
            t,
        ));
    }
}

/// What giving locks back costs, where no page is wanted twice: each page that was locked, once.
proof fn lemma_cost_once(
    s: release::Released,
    tasks: Seq<Task>,
    attempts: Seq<LockAttempt>,
    cu: CU,
    n: nat,
    p: int,
)
    requires
        n <= attempts.len(),
        contended::distinct_pages(attempts),
        forall|i: int| 0 <= i < attempts.len() ==> (#[trigger] attempts[i]).target.0 < s.cus.len(),
        0 <= p < s.cus.len(),
    ensures
        release::released(s, tasks, attempts, cu, n).cus.len() == s.cus.len(),
        release::released(s, tasks, attempts, cu, n).cus[p] == s.cus[p] + if contended::targeted(
            attempts,
            n as int,
            p,
        ) {
            cu as int
        } else {
            0int
        },
    decreases n,
{
    if n > 0 {
        lemma_cost_once(s, tasks, attempts, cu, (n - 1) as nat, p);
        let before = release::released(s, tasks, attempts, cu, (n - 1) as nat);
        assert(attempts[n - 1].target.0 < s.cus.len());
        release::lemma_cost_of_one(before, tasks, attempts[n - 1], cu);
        contended::lemma_targeted_step(attempts, n - 1, p);
        if attempts[n - 1].target.0 == p && contended::targeted(attempts, n - 1, p) {
            let i = choose|i: int| 0 <= i < n - 1 && (#[trigger] attempts[i]).target.0 == p;
            assert(attempts[i].target != attempts[n - 1].target);
        }
    }
}

/// The costs of the pages that an execution locked can be counted.
pub open spec fn cost_fits(run: SchedulerRun, ee: ExecutionEnvironment) -> bool {
    forall|i: int|
        0 <= i < ee.finalized_lock_attempts@.len() ==> run.address_book.page(
            (#[trigger] ee.finalized_lock_attempts@[i]).target,
        ).cu + ee.cu <= u64::MAX
}

/// The informed attempts of an execution in flight.
proof fn lemma_informed(run: SchedulerRun, ee: ExecutionEnvironment)
    requires
        run.wf(),
        run.in_flight(ee),
    ensures
        ({
            let k = ee.task.0 as int;
            let attempts = ee.finalized_lock_attempts@;
            let told = stage::all_informed(run.address_book, run.tasks@, attempts);
            &&& told.len() == attempts.len()
            &&& contended::distinct_pages(attempts)
            &&& contended::distinct_pages(told)
            &&& forall|i: int|
                0 <= i < told.len() ==> {
                    &&& (#[trigger] told[i]).lock() == run.tasks@[k].for_indexer@[i].lock()
                    &&& told[i].lock() == attempts[i].lock()
                    &&& told[i].status == LockStatus::Succeded
                    &&& told[i].target.0 < run.address_book.pages@.len()
                    &&& told[i].heaviest_uncontended matches Some(t) ==> t.0 < run.tried()
                }
            &&& forall|i: int|
                0 <= i < attempts.len() ==> (#[trigger] attempts[i]).target.0
                    < run.address_book.pages@.len()
        }),
{
    let k = ee.task.0 as int;
    let attempts = ee.finalized_lock_attempts@;
    let book = run.address_book;
    let tasks = run.tasks@;
    let copies = tasks[k].for_indexer@;
    let told = stage::all_informed(book, tasks, attempts);
    assert(tasks[k].unique_weight == u64::MAX - k);
    assert forall|i: int| 0 <= i < attempts.len() implies (#[trigger] attempts[i]).target.0
        < book.pages@.len() by {
        assert(attempts[i].lock() == copies[i].lock());
        assert(copies[i].target.0 < book.pages@.len());
    }
    assert forall|i: int, j: int| 0 <= i < j < attempts.len() implies (
    #[trigger] attempts[i]).target != (#[trigger] attempts[j]).target by {
        assert(attempts[i].lock() == copies[i].lock());
        assert(attempts[j].lock() == copies[j].lock());
        assert(copies[i].target != copies[j].target);
    }
    assert forall|i: int| 0 <= i < told.len() implies {
        &&& (#[trigger] told[i]).lock() == copies[i].lock()
        &&& told[i].lock() == attempts[i].lock()
        &&& told[i].status == LockStatus::Succeded
        &&& told[i].target.0 < book.pages@.len()
        &&& told[i].heaviest_uncontended matches Some(t) ==> t.0 < run.tried()
    } by {
        assert(attempts[i].lock() == copies[i].lock());
        let p = attempts[i].target.0 as int;
        assert(p < book.pages@.len());
        assert(page_queue_wf(book.pages@[p], p, tasks, run.tried()));
        let queue = book.page(attempts[i].target).contended_unique_weights@;
        if exists|w: UniqueWeight| contended::is_heaviest_contended(queue, tasks, w) {
            let w = choose|w: UniqueWeight| contended::is_heaviest_contended(queue, tasks, w);
            assert(queue.dom().contains(w));
        }
    }
    assert forall|i: int, j: int| 0 <= i < j < told.len() implies (#[trigger] told[i]).target != (
    #[trigger] told[j]).target by {
        assert(told[i].lock() == attempts[i].lock());
        assert(told[j].lock() == attempts[j].lock());
        assert(attempts[i].target != attempts[j].target);
    }
}

/// An execution in flight can be committed.
proof fn lemma_can_commit(run: SchedulerRun, ee: ExecutionEnvironment)
    requires
        run.wf(),
        run.in_flight(ee),
        cost_fits(run, ee),
    ensures
        stage::can_commit(run.address_book, run.tasks@, run.counters, ee),
{
    let k = ee.task.0 as int;
    let n = run.tried();
    let attempts = ee.finalized_lock_attempts@;
    let book = run.address_book;
    let tasks = run.tasks@;
    let should_remove = tasks[k].contention_count > 0;
    let told = stage::all_informed(book, tasks, attempts);
    lemma_informed(run, ee);
    assert(tasks[k].unique_weight == u64::MAX - k);
    let uq = ee.unique_weight;
    assert(place_of(uq) == k);
    assert forall|i: int| 0 <= i < attempts.len() implies contended::can_sweep(
        book.page((#[trigger] attempts[i]).target),
        tasks,
        should_remove,
        uq,
        attempts[i].requested_usage,
    ) by {
        let p = attempts[i].target.0 as int;
        let page = book.pages@[p];
        assert(page_queue_wf(page, p, tasks, n));
        let copies = tasks[k].for_indexer@;
        assert(attempts[i].lock() == copies[i].lock());
        assert(needs(tasks, k, p)) by {
            assert(copies[i].target.0 == p);
        }
        let queue = page.contended_unique_weights@;
        if should_remove {
            assert(queue.dom().contains(uq));
            if attempts[i].requested_usage == RequestedUsage::Writable {
                assert(writes(tasks, k, p)) by {
                    assert(copies[i].target.0 == p);
                }
                let f = |q: int| is_queued(tasks, q) && writes(tasks, q, p);
                lemma_members_positive(n, f, k);
            }
        }
    }
    let s = release::state_of(book, 0);
    assert forall|i: int| 0 <= i < told.len() implies {
        &&& release::holds(#[trigger] told[i]) ==> release::released(
            s,
            tasks,
            told,
            ee.cu,
            i as nat,
        ).held.count(told[i].lock()) > 0
        &&& told[i].heaviest_uncontended matches Some(t) ==> t.0 < tasks.len()
    } by {
        release::lemma_released_without_pending(s, tasks, told, ee.cu, i as nat);
        assert forall|j: int| 0 <= j < i implies (#[trigger] told[j]).target
            != told[i].lock().0 by {
            assert(told[j].target != told[i].target);
        }
        locking::lemma_locks_elsewhere(told, LockStatus::Succeded, i as nat, told[i].lock());
        let l = told[i].lock();
        assert(tasks[k].for_indexer@[i].lock() == l);
        assert(takes(tasks, k, l));
        let f = |q: int| is_executing(tasks, q) && takes(tasks, q, l);
        lemma_members_positive(n, f, k);
        assert(book.held@.count(l) == holders(tasks, n, l).len());
    }
    assert forall|p: int| 0 <= p < book.pages@.len() implies #[trigger] release::released(
        s,
        tasks,
        told,
        ee.cu,
        told.len(),
    ).cus[p] <= u64::MAX by {
        lemma_cost_once(s, tasks, told, ee.cu, told.len(), p);
        if contended::targeted(told, told.len() as int, p) {
            let i = choose|i: int| 0 <= i < told.len() && (#[trigger] told[i]).target.0 == p;
            assert(told[i].lock() == attempts[i].lock());
            assert(book.page(attempts[i].target).cu + ee.cu <= u64::MAX);
        }
    }
    release::lemma_released_without_pending(s, tasks, told, ee.cu, told.len());
    assert(release::trackers_known(book, tasks)) by {
        assert forall|p: int, i: int|
            0 <= p < book.pages@.len() && 0 <= i
                < book.pages@[p].provisional_task_ids@.len() implies #[trigger] book.pages@[p].provisional_task_ids@[i]
            < book.trackers@.len() by {
            assert(page_queue_wf(book.pages@[p], p, tasks, n));
        }
    }
}

/// A queue that holds no finished task loses to a sweep just the task to remove.
proof fn lemma_sweep_removes_one(
    queue: Map<UniqueWeight, usize>,
    tasks: Seq<Task>,
    should_remove: bool,
    uq: UniqueWeight,
)
    requires
        forall|w: UniqueWeight| #[trigger]
            queue.dom().contains(w) ==> tasks[queue[w] as int].uncontended != Contention::Finished,
        queue.dom().contains(uq) ==> should_remove,
    ensures
        contended::swept(queue, tasks, should_remove, uq) == if should_remove {
            queue.remove(uq)
        } else {
            queue
        },
{
    assert(contended::swept(queue, tasks, should_remove, uq) =~= if should_remove {
        queue.remove(uq)
    } else {
        queue
    });
}

/// The first number that `f` holds of.
proof fn lemma_first(f: spec_fn(int) -> bool, k: int) -> (first: int)
    requires
        0 <= k,
        f(k),
    ensures
        0 <= first <= k,
        f(first),
        forall|j: int| 0 <= j < first ==> !#[trigger] f(j),
    decreases k,
{
    if exists|j: int| 0 <= j < k && #[trigger] f(j) {
        let j = choose|j: int| 0 <= j < k && #[trigger] f(j);
        lemma_first(f, j)
    } else {
        k
    }
}

/// Giving back a lock frees its page where no other execution needs the page.
proof fn lemma_frees_page(run: SchedulerRun, ee: ExecutionEnvironment, m: int)
    requires
        run.wf(),
        run.in_flight(ee),
        0 <= m < ee.finalized_lock_attempts@.len(),
        forall|j: int|
            0 <= j < run.tried() && j != ee.task.0 && #[trigger] needs(
                run.tasks@,
                j,
                ee.finalized_lock_attempts@[m].target.0 as int,
            ) ==> !is_executing(run.tasks@, j),
    ensures
        ({
            let told = stage::all_informed(
                run.address_book,
                run.tasks@,
                ee.finalized_lock_attempts@,
            );
            let s = release::state_of(
                run.address_book,
                run.counters.provisioning_tracker_count as int,
            );
            release::frees(
                release::released(s, run.tasks@, told, ee.cu, m as nat),
                told[m],
            )
        }),
{
    let k = ee.task.0 as int;
    let n = run.tried();
    let tasks = run.tasks@;
    let book = run.address_book;
    let copies = tasks[k].for_indexer@;
    let told = stage::all_informed(book, tasks, ee.finalized_lock_attempts@);
    let s = release::state_of(book, run.counters.provisioning_tracker_count as int);
    lemma_informed(run, ee);
    release::lemma_released_without_pending(s, tasks, told, ee.cu, m as nat);
    let lock = told[m].lock();
    let page = told[m].target;
    assert forall|l: Lock| l.0 == page implies #[trigger] book.held@.remove(lock).count(l) == 0 by {
        let f = |q: int| is_executing(tasks, q) && takes(tasks, q, l);
        assert(book.held@.count(l) == holders(tasks, n, l).len());
        assert forall|q: int| #[trigger] members(n, f).contains(q) implies q == k && l == lock by {
            let attempts = tasks[q].for_indexer@;
            let i = choose|i: int| 0 <= i < attempts.len() && (#[trigger] attempts[i]).lock() == l;
            assert(attempts[i].target.0 == page.0);
            assert(needs(tasks, q, page.0 as int));
            if q == k && i != m {
                assert(told[i].lock() == copies[i].lock());
                assert(told[m].lock() == copies[m].lock());
                assert(copies[i].target == copies[m].target);
            }
        }
        if l == lock {
            assert(members(n, f).subset_of(set![k]));
            vstd::set_lib::lemma_len_subset(members(n, f), set![k]);
        } else {
            assert(members(n, f) =~= Set::empty());
        }
    }
    let held = release::released(s, tasks, told, ee.cu, m as nat).held;
    assert forall|l: Lock| l.0 == page implies #[trigger] held.remove(lock).count(l) == 0 by {
        assert(book.held@.remove(lock).count(l) == 0);
    }
    assert(held.remove(lock).count((page, RequestedUsage::Readonly)) == 0);
    assert(held.remove(lock).count((page, RequestedUsage::Writable)) == 0);
}

/// A task that waits is not forgotten when an execution is committed: where the execution was all
/// that kept it from a page, the first that waits for the page is worth another try.
proof fn lemma_remembered_after_commit(
    run: SchedulerRun,
    ee: ExecutionEnvironment,
    tasks1: Seq<Task>,
    uncontended1: Map<UniqueWeight, usize>,
    i: int,
)
    requires
        run.wf(),
        run.in_flight(ee),
        0 <= i < run.tried(),
        tasks1 == run.tasks@.update(
            ee.task.0 as int,
            Task { uncontended: Contention::Finished, ..run.tasks@[ee.task.0 as int] },
        ),
        uncontended1 == release::released(
            release::state_of(run.address_book, run.counters.provisioning_tracker_count as int),
            run.tasks@,
            stage::all_informed(run.address_book, run.tasks@, ee.finalized_lock_attempts@),
            ee.cu,
            ee.finalized_lock_attempts@.len(),
        ).uncontended,
    ensures
        is_remembered(tasks1, uncontended1, run.tried(), i),
{
    let k = ee.task.0 as int;
    let n = run.tried();
    let tasks0 = run.tasks@;
    let book = run.address_book;
    let uncontended0 = book.uncontended_task_ids@;
    let attempts = ee.finalized_lock_attempts@;
    let told = stage::all_informed(book, tasks0, attempts);
    let s = release::state_of(book, run.counters.provisioning_tracker_count as int);
    let copies = tasks0[k].for_indexer@;
    lemma_informed(run, ee);
    release::lemma_released_without_pending(s, tasks0, told, ee.cu, told.len());
    assert(is_remembered(tasks0, uncontended0, n, i));
    let wi = (u64::MAX - i) as u64;
    if s.uncontended.dom().contains(wi) {
        assert(uncontended1.dom().contains(wi));
    } else if is_contended(tasks1, i) {
        assert(i != k);
        let (j, p) = choose|j: int, p: int|
            0 <= j < n && #[trigger] stands_in_way(tasks0, j, i, p);
        if j != k {
            assert(stands_in_way(tasks1, j, i, p));
        } else if exists|q: int|
            0 <= q < n && q != k && #[trigger] needs(tasks0, q, p) && is_executing(tasks0, q) {
            let q = choose|q: int|
                0 <= q < n && q != k && #[trigger] needs(tasks0, q, p) && is_executing(tasks0, q);
            assert(stands_in_way(tasks1, q, i, p));
        } else {
            let m = choose|m: int| 0 <= m < copies.len() && (#[trigger] copies[m]).target.0 == p;
            assert(told[m].lock() == copies[m].lock());
            assert(attempts[m].lock() == told[m].lock());
            lemma_frees_page(run, ee, m);
            let f = |q: int| is_contended(tasks0, q) && needs(tasks0, q, p);
            let h = lemma_first(f, i);
            let wh = (u64::MAX - h) as u64;
            assert(place_of(wh) == h);
            assert(told[m].target.0 < book.pages@.len());
            assert(page_queue_wf(book.pages@[p], p, tasks0, n));
            let queue = book.page(attempts[m].target).contended_unique_weights@;
            assert(queue == book.pages@[p].contended_unique_weights@);
            assert(tasks0[h].contention_count > 0);
            assert(queue.dom().contains(wh));
            assert(contended::is_heaviest_contended(queue, tasks0, wh)) by {
                assert forall|w: UniqueWeight| #[trigger]
                    queue.dom().contains(w) && contended::contended_at(
                        queue,
                        tasks0,
                        w,
                    ) implies w <= wh by {
                    assert(queue[w] == place_of(w));
                    assert(f(place_of(w)));
                }
            }
            let chosen = choose|w: UniqueWeight| contended::is_heaviest_contended(queue, tasks0, w);
            assert(contended::is_heaviest_contended(queue, tasks0, chosen));
            assert(queue.dom().contains(chosen) && contended::contended_at(queue, tasks0, chosen));
            assert(contended::contended_at(queue, tasks0, wh));
            assert(chosen == wh);
            assert(release::leads_to(tasks0, told[m], wh, h as usize)) by {
                assert(tasks0[h].unique_weight == u64::MAX - h);
            }
            release::lemma_freed_leads_on(
                s,
                tasks0,
                told,
                ee.cu,
                told.len(),
                m,
                wh,
                h as usize,
            );
            if h != i {
                assert(stands_in_way(tasks1, h, i, p));
            }
        }
    }
}

/// The invariant after an execution was committed.
proof fn lemma_committed(before: SchedulerRun, after: SchedulerRun, ee: ExecutionEnvironment)
    requires
        before.wf(),
        before.in_flight(ee),
        after.address_book.wf(),
        after.address_book.steady(),
        stage::committed(
            before.address_book,
            after.address_book,
            before.tasks@,
            before.counters,
            after.counters,
            ee,
        ),
        after.tasks@ == before.tasks@.update(
            ee.task.0 as int,
            Task { uncontended: Contention::Finished, ..before.tasks@[ee.task.0 as int] },
        ),
        after.runnable_queue.tasks@ == before.runnable_queue.tasks@,
        after.executing_queue_count == before.executing_queue_count - 1,
        after.processed_count == before.processed_count + 1,
        after.max_executing_queue_count == before.max_executing_queue_count,
    ensures
        after.wf(),
        forall|other: ExecutionEnvironment|
            before.in_flight(other) && other.task != ee.task ==> #[trigger] after.in_flight(other),
{
    let k = ee.task.0 as int;
    let n = before.tried();
    let tasks0 = before.tasks@;
    let tasks1 = after.tasks@;
    let book0 = before.address_book;
    let book1 = after.address_book;
    let attempts = ee.finalized_lock_attempts@;
    let told = stage::all_informed(book0, tasks0, attempts);
    let should_remove = tasks0[k].contention_count > 0;
    let uq = ee.unique_weight;
    let s0 = release::state_of(book0, before.counters.provisioning_tracker_count as int);
    let s1 = release::state_of(book1, after.counters.provisioning_tracker_count as int);
    assert(one_changed(tasks0, tasks1, k));
    lemma_informed(before, ee);
    lemma_same_needs(tasks0, tasks1, k);
    assert(tasks0[k].unique_weight == u64::MAX - k);
    assert(place_of(uq) == k);
    release::lemma_released_without_pending(s0, tasks0, told, ee.cu, told.len());
    assert(s1 == release::released(s0, tasks0, told, ee.cu, told.len()));
    lemma_members_toggle(n, |i: int| is_contended(tasks0, i), |i: int| is_contended(tasks1, i), k);
    lemma_members_toggle(n, |i: int| is_executing(tasks0, i), |i: int| is_executing(tasks1, i), k);
    lemma_members_toggle(n, |i: int| is_finished(tasks0, i), |i: int| is_finished(tasks1, i), k);
    assert forall|l: Lock| #[trigger] book1.held@.count(l) == holders(tasks1, n, l).len() by {
        lemma_members_toggle(
            n,
            |i: int| is_executing(tasks0, i) && takes(tasks0, i, l),
            |i: int| is_executing(tasks1, i) && takes(tasks1, i, l),
            k,
        );
        assert(book0.held@.count(l) == holders(tasks0, n, l).len());
        lemma_locks_taken(tasks0, k, book0.held@, told, l);
        if takes(tasks0, k, l) {
            let f = |i: int| is_executing(tasks0, i) && takes(tasks0, i, l);
            lemma_members_positive(n, f, k);
        }
    }
    assert forall|p: int| 0 <= p < book1.pages@.len() implies page_queue_wf(
        #[trigger] book1.pages@[p],
        p,
        tasks1,
        n,
    ) by {
        let page0 = book0.pages@[p];
        let page1 = book1.pages@[p];
        assert(page_queue_wf(page0, p, tasks0, n));
        assert(page1.address == page0.address);
        assert(contended::reindexed_page(
            page0,
            page1,
            p,
            attempts,
            attempts.len() as int,
            tasks0,
            should_remove,
            uq,
        ));
        assert(s1.waiting[p] == s0.waiting[p]);
        assert(page1.provisional_task_ids@ == page0.provisional_task_ids@);
        let queue0 = page0.contended_unique_weights@;
        let queue1 = page1.contended_unique_weights@;
        contended::lemma_targeted_same(
            attempts,
            tasks0[k].for_indexer@,
            attempts.len() as int,
            p,
        );
        lemma_members_toggle(
            n,
            |i: int| is_queued(tasks0, i) && writes(tasks0, i, p),
            |i: int| is_queued(tasks1, i) && writes(tasks1, i, p),
            k,
        );
        assert(writes(tasks1, k, p) == writes(tasks0, k, p));
        assert forall|w: UniqueWeight| #[trigger]
            queue0.dom().contains(w) implies tasks0[queue0[w] as int].uncontended
            != Contention::Finished by {
            assert(is_queued(tasks0, place_of(w)));
        }
        lemma_sweep_removes_one(queue0, tasks0, should_remove, uq);
        assert forall|w: UniqueWeight| #[trigger]
            queue1.dom().contains(w) <==> place_of(w) < n && is_queued(tasks1, place_of(w))
                && needs(tasks1, place_of(w), p) by {
            if place_of(w) == k {
                assert(w == uq);
            } else {
                assert(queue1.dom().contains(w) == queue0.dom().contains(w));
                if 0 <= place_of(w) < n {
                    assert(needs(tasks1, place_of(w), p) == needs(tasks0, place_of(w), p));
                    assert(tasks1[place_of(w)] == tasks0[place_of(w)]);
                }
            }
        }
        assert forall|w: UniqueWeight| #[trigger] queue1.dom().contains(w) implies queue1[w]
            == place_of(w) by {
            assert(queue0.dom().contains(w));
        }
    }
    assert(book1.trackers@ == book0.trackers@);
    assert forall|w: UniqueWeight| #[trigger]
        book1.uncontended_task_ids@.dom().contains(w) implies place_of(w) < n && is_contended(
        tasks1,
        place_of(w),
    ) && book1.uncontended_task_ids@[w] == place_of(w) by {
        assert(s1.uncontended.dom().contains(w));
        if book0.uncontended_task_ids@.dom().contains(w) && book0.uncontended_task_ids@[w]
            == book1.uncontended_task_ids@[w] {
            assert(place_of(w) != k);
        } else {
            let v = book1.uncontended_task_ids@[w];
            let i = choose|i: int|
                0 <= i < told.len() && release::leads_to(tasks0, #[trigger] told[i], w, v);
            assert(release::leads_to(tasks0, told[i], w, v));
            assert(v < n);
            assert(tasks0[v as int].unique_weight == u64::MAX - v);
            assert(v != k);
        }
    }
    assert forall|i: int, j: int|
        0 <= i < j < n && #[trigger] conflict(tasks1, i, j) && !is_contended(
            tasks1,
            j,
        ) implies is_finished(tasks1, i) by {
        assert(conflict(tasks0, i, j));
    }
    assert forall|i: int| 0 <= i < n implies #[trigger] is_remembered(
        tasks1,
        book1.uncontended_task_ids@,
        n,
        i,
    ) by {
        lemma_remembered_after_commit(before, ee, tasks1, s1.uncontended, i);
    }
    assert forall|other: ExecutionEnvironment|
        before.in_flight(other) && other.task != ee.task implies #[trigger] after.in_flight(
        other,
    ) by {
        assert(tasks1[other.task.0 as int] == tasks0[other.task.0 as int]);
    }
}

/// A run before and after it was asked to schedule a task. Where there is no room nothing happens.
/// What was in flight stays so, and the execution that is handed out, if one is, joins it.
pub open spec fn steps(
    before: SchedulerRun,
    after: SchedulerRun,
    runnable_exclusive: bool,
    r: Option<Box<ExecutionEnvironment>>,
) -> bool {
    &&& after.wf()
    &&& after.from_disconnected == before.from_disconnected
    &&& after.from_exec_disconnected == before.from_exec_disconnected
    &&& after.max_executing_queue_count == before.max_executing_queue_count
    &&& after.processed_count == before.processed_count
    &&& after.executing_queue_count == before.executing_queue_count + if r is Some {
        1int
    } else {
        0int
    }
    &&& before.executing_queue_count >= before.max_executing_queue_count ==> r is None && after
        == before
    &&& before.executing_queue_count < before.max_executing_queue_count ==> scheduled(
        before,
        after,
        runnable_exclusive,
        r,
    )
    &&& r matches Some(ee) ==> after.in_flight(*ee) && !before.in_flight(*ee)
    &&& forall|ee: ExecutionEnvironment| before.in_flight(ee) ==> #[trigger] after.in_flight(ee)
}

impl SchedulerRun {
    /// Schedules a task if there is room for one execution more: the heaviest of those worth
    /// another try, or of the new ones if `runnable_exclusive`. What is returned is to be executed.
    pub fn schedule(&mut self, runnable_exclusive: bool) -> (r: Option<Box<ExecutionEnvironment>>)
        requires
            old(self).wf(),
            forall|k: int|
                0 <= k < old(self).tasks@.len() ==> (#[trigger] old(self).tasks@[k]).contention_count
                    < usize::MAX,
        ensures
            steps(*old(self), *final(self), runnable_exclusive, r),
    {
        if self.executing_queue_count >= self.max_executing_queue_count {
            return None;
        }
        proof {
            lemma_can_pop(*self, runnable_exclusive);
        }
        let r = ScheduleStage::schedule_next_execution(
            &mut self.runnable_queue,
            &mut self.address_book,
            &mut self.tasks,
            &mut self.counters,
            true,
            runnable_exclusive,
        );
        let ghost (tasks1, counters1, popped) = choose|
            tasks1: Seq<Task>,
            counters1: Counters,
            popped: Option<(UniqueWeight, TaskInQueue, Vec<LockAttempt>)>,
        | #[trigger]
            stage::next_scheduled(
                old(self).runnable_queue.tasks@,
                self.runnable_queue.tasks@,
                old(self).address_book,
                self.address_book,
                old(self).tasks@,
                tasks1,
                self.tasks@,
                old(self).counters,
                counters1,
                self.counters,
                true,
                runnable_exclusive,
                popped,
                r,
            );
        assert(stage::next_scheduled(
                old(self).runnable_queue.tasks@,
                self.runnable_queue.tasks@,
                old(self).address_book,
                self.address_book,
                old(self).tasks@,
                tasks1,
                self.tasks@,
                old(self).counters,
                counters1,
                self.counters,
                true,
                runnable_exclusive,
                popped,
                r,
            ));
        if r.is_some() {
            self.executing_queue_count = self.executing_queue_count + 1;
        }
        proof {
            assert(stage::next_scheduled(
                old(self).runnable_queue.tasks@,
                self.runnable_queue.tasks@,
                old(self).address_book,
                self.address_book,
                old(self).tasks@,
                tasks1,
                self.tasks@,
                old(self).counters,
                counters1,
                self.counters,
                true,
                runnable_exclusive,
                popped,
                r,
            ));
            assert(scheduled(*old(self), *self, runnable_exclusive, r));
            lemma_scheduled(*old(self), *self, runnable_exclusive, r);
        }
        r
    }

    /// Whether every task can still be tried once more.
    pub fn can_schedule(&self) -> (r: bool)
        ensures
            r == (forall|k: int|
                0 <= k < self.tasks@.len() ==> (#[trigger] self.tasks@[k]).contention_count
                    < usize::MAX),
    {
        let mut k: usize = 0;
        while k < self.tasks.len()
            invariant
                k <= self.tasks@.len(),
                forall|j: int|
                    0 <= j < k ==> (#[trigger] self.tasks@[j]).contention_count < usize::MAX,
            decreases self.tasks@.len() - k,
        {
            if self.tasks[k].contention_count == usize::MAX {
                assert(!(self.tasks@[k as int].contention_count < usize::MAX));
                return false;
            }
            k = k + 1;
        }
        true
    }

    /// Whether the execution is one that can be committed now.
    pub fn can_commit(&self, ee: &ExecutionEnvironment) -> (r: bool)
        requires
            self.wf(),
        ensures
            r == (self.in_flight(*ee) && cost_fits(*self, *ee)),
    {
        let k = ee.task.0;
        if k >= self.counters.queue_clock || ee.is_reindexed {
            return false;
        }
        let task = &self.tasks[k];
        if task.uncontended == Contention::Contended || task.uncontended == Contention::Finished
            || ee.unique_weight != task.unique_weight || ee.finalized_lock_attempts.len()
            != task.for_indexer.len() {
            return false;
        }
        let mut i: usize = 0;
        while i < ee.finalized_lock_attempts.len()
            invariant
                self.wf(),
                k == ee.task.0,
                k < self.tasks@.len(),
                *task == self.tasks@[k as int],
                i <= ee.finalized_lock_attempts@.len(),
                ee.finalized_lock_attempts@.len() == task.for_indexer@.len(),
                forall|j: int|
                    0 <= j < i ==> (#[trigger] ee.finalized_lock_attempts@[j]).lock()
                        == task.for_indexer@[j].lock() && ee.finalized_lock_attempts@[j].status
                        == LockStatus::Succeded
                        && ee.finalized_lock_attempts@[j].heaviest_uncontended is None
                        && self.address_book.page(ee.finalized_lock_attempts@[j].target).cu + ee.cu
                        <= u64::MAX,
            decreases ee.finalized_lock_attempts@.len() - i,
        {
            let attempt = ee.finalized_lock_attempts[i];
            let copy = task.for_indexer[i];
            assert(attempt == ee.finalized_lock_attempts@[i as int]);
            assert(copy == self.tasks@[k as int].for_indexer@[i as int]);
            if attempt.target != copy.target || attempt.requested_usage != copy.requested_usage
                || attempt.status != LockStatus::Succeded || attempt.heaviest_uncontended.is_some() {
                return false;
            }
            if self.address_book.pages[attempt.target.0].cu > u64::MAX - ee.cu {
                return false;
            }
            i = i + 1;
        }
        true
    }

    /// Commits an execution that this run handed out.
    pub fn commit(&mut self, ee: &mut ExecutionEnvironment)
        requires
            old(self).wf(),
            old(self).in_flight(*old(ee)),
            cost_fits(*old(self), *old(ee)),
        ensures
            final(self).wf(),
            final(self).from_disconnected == old(self).from_disconnected,
            final(self).from_exec_disconnected == old(self).from_exec_disconnected,
            final(self).max_executing_queue_count == old(self).max_executing_queue_count,
            final(self).runnable_queue == old(self).runnable_queue,
            final(self).processed_count == old(self).processed_count + 1,
            final(self).executing_queue_count == old(self).executing_queue_count - 1,
            stage::committed(
                old(self).address_book,
                final(self).address_book,
                old(self).tasks@,
                old(self).counters,
                final(self).counters,
                *old(ee),
            ),
            final(self).tasks@ == old(self).tasks@.update(
                old(ee).task.0 as int,
                Task {
                    uncontended: Contention::Finished,
                    ..old(self).tasks@[old(ee).task.0 as int]
                },
            ),
            final(ee).is_reindexed,
            final(ee).cu == old(ee).cu,
            final(ee).unique_weight == old(ee).unique_weight,
            final(ee).task == old(ee).task,
            final(ee).execution_result == old(ee).execution_result,
            final(ee).finalized_lock_attempts@ == release::released_attempts(
                release::state_of(old(self).address_book, old(self).counters.provisioning_tracker_count as int),
                old(self).tasks@,
                stage::all_informed(old(self).address_book, old(self).tasks@, old(ee).finalized_lock_attempts@),
                old(ee).cu,
            ),
            forall|other: ExecutionEnvironment|
                old(self).in_flight(other) && other.task != old(ee).task
                    ==> #[trigger] final(self).in_flight(other),
    {
        proof {
            lemma_can_commit(*self, *ee);
            let f = |i: int| is_executing(old(self).tasks@, i);
            lemma_members_positive(self.tried(), f, ee.task.0 as int);
        }
        ScheduleStage::commit_processed_execution(
            ee,
            &mut self.address_book,
            &mut self.tasks,
            &mut self.counters,
        );
        self.executing_queue_count = self.executing_queue_count - 1;
        self.processed_count = self.processed_count + 1;
        proof {
            lemma_committed(*old(self), *self, *old(ee));
        }
    }
}

/// A task to be scheduled.
pub struct SchedulablePayload(pub Task);

/// A task to be executed.
pub struct ExecutablePayload(pub Box<ExecutionEnvironment>);

/// A task that was executed, whose locks are to be given back.
pub struct UnlockablePayload(pub Box<ExecutionEnvironment>);

/// A task that was committed.
pub struct ExaminablePayload(pub Box<ExecutionEnvironment>);

impl SchedulerRun {
    /// Whether the run has to wait for something to happen: for a new task, or for an execution.
    pub fn must_wait(&self) -> (r: bool)
        ensures
            r == (!self.from_disconnected || self.executing_queue_count >= 1),
    {
        !self.from_disconnected || self.executing_queue_count >= 1
    }

    /// No task will come in any more.
    pub fn disconnect(&mut self)
        ensures
            *final(self) == (SchedulerRun { from_disconnected: true, ..*old(self) }),
            old(self).wf() ==> final(self).wf(),
            forall|ee: ExecutionEnvironment|
                old(self).in_flight(ee) ==> #[trigger] final(self).in_flight(ee),
    {
        self.from_disconnected = true;
        proof {
            if old(self).wf() {
                lemma_nothing_selected(*old(self), *self);
            }
        }
    }

    /// No execution will come back any more. Says whether that ends the run.
    pub fn disconnect_exec(&mut self) -> (ends: bool)
        ensures
            *final(self) == (SchedulerRun { from_exec_disconnected: true, ..*old(self) }),
            old(self).wf() ==> final(self).wf(),
            ends == old(self).from_disconnected,
    {
        self.from_exec_disconnected = true;
        proof {
            if old(self).wf() {
                lemma_nothing_selected(*old(self), *self);
            }
        }
        self.from_disconnected
    }

    /// Whether the run is over: no task will come in, and either no execution will come back, or
    /// all that came in is finished.
    pub fn is_done(&self) -> (r: bool)
        requires
            self.wf(),
        ensures
            r == (self.from_disconnected && (self.from_exec_disconnected || self.processed_count
                == self.tasks@.len())),
    {
        proof {
            let dom = self.runnable_queue.tasks@.dom();
            if self.runnable_queue.tasks@.len() == 0 {
                self.runnable_queue.tasks@.dom().lemma_len0_is_empty();
                let first: UniqueWeight = (u64::MAX - self.tried()) as u64;
                assert(place_of(first) == self.tried());
                assert(!dom.contains(first));
            } else {
                if self.tried() == self.tasks@.len() {
                    assert forall|w: UniqueWeight| !dom.contains(w) by {
                        assert(self.runnable_queue.tasks@.dom().contains(w) <==> self.tried()
                            <= place_of(w) < self.tasks@.len());
                    }
                    assert(dom =~= Set::empty());
                }
            }
        }
        let no_more_work = self.from_disconnected && self.runnable_queue.task_count() == 0
            && self.counters.contended_count == 0 && self.executing_queue_count == 0
            && self.counters.provisioning_tracker_count == 0;
        self.from_disconnected && (self.from_exec_disconnected || no_more_work)
    }
}

/// Where a round stands.
#[derive(Clone, Copy, Debug, PartialEq, Eq, Structural)]
pub enum RoundPhase {
    /// One of the tasks worth another try is scheduled.
    Retry,
    /// A new task is scheduled.
    New,
    /// One new task was scheduled. Another is, unless an execution came back meanwhile.
    MoreNew,
    /// The channels are looked at.
    Take,
}

/// What is done between two waits: where it stands, and how many messages were seen in each channel
/// and are still to be taken.
#[derive(Clone, Copy, Debug, PartialEq, Eq, Structural)]
pub struct Round {
    pub phase: RoundPhase,
    pub from_len: usize,
    pub from_exec_len: usize,
}

/// What to take from the channels next. Where nothing is taken the round is over.
#[derive(Clone, Copy, Debug, PartialEq, Eq, Structural)]
pub struct RoundStep {
    pub take_exec: bool,
    pub take_task: bool,
}

/// What a turn of a round came to.
#[derive(Debug)]
pub enum RoundAction {
    /// A task was scheduled, and is to be executed, or none could be.
    Scheduled(Option<Box<ExecutionEnvironment>>),
    /// Messages are to be taken from the channels.
    Take(RoundStep),
}

/// A look at the channels, before and after it was planned what to take. A channel is looked at
/// again when all that was seen in it is taken.
pub open spec fn planned(
    before: Round,
    from_len_now: usize,
    from_exec_len_now: usize,
    after: Round,
    step: RoundStep,
) -> bool {
    let from_len = if before.from_len == 0 {
        from_len_now
    } else {
        before.from_len
    };
    let from_exec_len = if before.from_exec_len == 0 {
        from_exec_len_now
    } else {
        before.from_exec_len
    };
    &&& step.take_task == (from_len > 0)
    &&& step.take_exec == (from_exec_len > 0)
    &&& after.from_len == if from_len > 0 {
        from_len - 1
    } else {
        0
    }
    &&& after.from_exec_len == if from_exec_len > 0 {
        from_exec_len - 1
    } else {
        0
    }
}

impl Round {
    pub fn new() -> (r: Self)
        ensures
            r == (Round { phase: RoundPhase::Retry, from_len: 0, from_exec_len: 0 }),
    {
        Round { phase: RoundPhase::Retry, from_len: 0, from_exec_len: 0 }
    }

    /// The next turn schedules: `true` for a new task, `false` for one worth another try. Otherwise
    /// it looks at the channels.
    pub open spec fn schedules(self, from_exec_len_now: usize) -> Option<bool> {
        match self.phase {
            RoundPhase::Retry => Some(false),
            RoundPhase::New => Some(true),
            RoundPhase::MoreNew => if from_exec_len_now == 0 {
                Some(true)
            } else {
                None
            },
            RoundPhase::Take => None,
        }
    }

    /// Takes a turn. First one task that is worth another try is scheduled, then new ones until that
    /// is not possible or an execution came back, and then messages are taken from the channels,
    /// after which all this begins again.
    pub fn turn(
        &mut self,
        run: &mut SchedulerRun,
        from_len_now: usize,
        from_exec_len_now: usize,
    ) -> (r: RoundAction)
        requires
            old(run).wf(),
            forall|k: int|
                0 <= k < old(run).tasks@.len() ==> (#[trigger] old(run).tasks@[k]).contention_count
                    < usize::MAX,
        ensures
            final(run).wf(),
            match old(self).schedules(from_exec_len_now) {
                Some(runnable_exclusive) => {
                    &&& r is Scheduled
                    &&& steps(*old(run), *final(run), runnable_exclusive, r->Scheduled_0)
                    &&& *final(self) == (Round {
                        phase: if !runnable_exclusive {
                            RoundPhase::New
                        } else if r->Scheduled_0 is Some {
                            RoundPhase::MoreNew
                        } else {
                            RoundPhase::Take
                        },
                        ..*old(self)
                    })
                },
                None => {
                    &&& r is Take
                    &&& *final(run) == *old(run)
                    &&& planned(
                        *old(self),
                        from_len_now,
                        from_exec_len_now,
                        *final(self),
                        r->Take_0,
                    )
                    &&& final(self).phase == RoundPhase::Retry
                },
            },
    {
        if self.phase == RoundPhase::Retry {
            self.phase = RoundPhase::New;
            return RoundAction::Scheduled(run.schedule(false));
        }
        if self.phase == RoundPhase::New || (self.phase == RoundPhase::MoreNew && from_exec_len_now
            == 0) {
            let scheduled = run.schedule(true);
            self.phase = if scheduled.is_some() {
                RoundPhase::MoreNew
            } else {
                RoundPhase::Take
            };
            return RoundAction::Scheduled(scheduled);
        }
        let step = self.plan(from_len_now, from_exec_len_now);
        self.phase = RoundPhase::Retry;
        RoundAction::Take(step)
    }

    /// Plans the next step. A channel is looked at again when all that was seen in it is taken.
    pub fn plan(&mut self, from_len_now: usize, from_exec_len_now: usize) -> (r: RoundStep)
        ensures
            planned(*old(self), from_len_now, from_exec_len_now, *final(self), r),
            final(self).phase == old(self).phase,
    {
        if self.from_len == 0 {
            self.from_len = from_len_now;
        }
        if self.from_exec_len == 0 {
            self.from_exec_len = from_exec_len_now;
        }
        let take_exec = self.from_exec_len > 0;
        let take_task = self.from_len > 0;
        if take_exec {
            self.from_exec_len = self.from_exec_len - 1;
        }
        if take_task {
            self.from_len = self.from_len - 1;
        }
        RoundStep { take_exec, take_task }
    }
}

/// A run is never stuck: as long as tasks are left and none is under execution, a step of scheduling
/// hands one out. That is one of those that wait, or a new one where none waits.
pub proof fn law_run_is_never_stuck(
    run: SchedulerRun,
    after: SchedulerRun,
    r: Option<Box<ExecutionEnvironment>>,
)
    requires
        run.wf(),
        run.executing_queue_count == 0,
        run.processed_count < run.tasks@.len(),
        steps(run, after, run.counters.contended_count == 0, r),
    ensures
        r is Some,
{
    let runnable_exclusive = run.counters.contended_count == 0;
    let tasks = run.tasks@;
    let n = run.tried();
    let book = run.address_book;
    let runnable = run.runnable_queue.tasks@;
    let uncontended = book.uncontended_task_ids@;
    let executing = |i: int| is_executing(tasks, i);
    assert forall|i: int| 0 <= i < n implies !is_executing(tasks, i) by {
        if executing(i) {
            lemma_members_positive(n, executing, i);
        }
    }
    let waiting = |i: int| is_contended(tasks, i);
    let (tasks1, counters1, popped) = choose|
        tasks1: Seq<Task>,
        counters1: Counters,
        popped: Option<(UniqueWeight, TaskInQueue, Vec<LockAttempt>)>,
    | #[trigger]
        stage::next_scheduled(
            run.runnable_queue.tasks@,
            after.runnable_queue.tasks@,
            run.address_book,
            after.address_book,
            run.tasks@,
            tasks1,
            after.tasks@,
            run.counters,
            counters1,
            after.counters,
            true,
            runnable_exclusive,
            popped,
            r,
        );
    let (book1, selection) = choose|
        book1: AddressBook,
        selection: Option<(TaskSource, TaskInQueue)>,
    | #[trigger]
        stage::popped(
            run.runnable_queue.tasks@,
            after.runnable_queue.tasks@,
            run.address_book,
            book1,
            after.address_book,
            run.tasks@,
            tasks1,
            run.counters,
            counters1,
            true,
            runnable_exclusive,
            selection,
            popped,
        );
    // The task that comes first of those that can be selected.
    let k = if runnable_exclusive {
        n
    } else {
        if forall|i: int| 0 <= i < n ==> !#[trigger] waiting(i) {
            lemma_members_empty(n, waiting);
        }
        let some = choose|i: int| 0 <= i < n && #[trigger] waiting(i);
        lemma_first(waiting, some)
    };
    let w: UniqueWeight = (u64::MAX - k) as u64;
    assert(place_of(w) == k);
    assert(!is_blocked(tasks, n, k)) by {
        if is_blocked(tasks, n, k) {
            let (j, p) = choose|j: int, p: int|
                0 <= j < n && #[trigger] stands_in_way(tasks, j, k, p);
            if runnable_exclusive {
                lemma_members_positive(n, waiting, j);
            } else {
                assert(!waiting(j));
            }
        }
    }
    if runnable_exclusive {
        assert(runnable.dom().contains(w));
        assert(task::is_heaviest(runnable, w));
    } else {
        assert(waiting(k));
        assert(is_remembered(tasks, uncontended, n, k));
        assert(uncontended.dom().contains(w));
        assert forall|v: UniqueWeight| #[trigger] uncontended.dom().contains(v) implies v <= w by {
            assert(waiting(place_of(v)));
        }
        assert(task::is_heaviest(uncontended, w));
    }
    let (source, t) = selection->0;
    assert(selection is Some && t.0 == k) by {
        if runnable_exclusive {
            let v = choose|v: UniqueWeight| #[trigger]
                task::is_heaviest(runnable, v) && runnable[v] == t.0
                    && after.runnable_queue.tasks@ == runnable.remove(v);
            assert(runnable.dom().contains(v));
            assert(v == w);
        } else {
            let v = choose|v: UniqueWeight| #[trigger]
                task::is_heaviest(uncontended, v) && uncontended[v] == t.0
                    && book1.uncontended_task_ids@ == uncontended.remove(v);
            assert(uncontended.dom().contains(v));
            assert(v == w);
        }
    }
    let t0 = tasks[k];
    let attempts = t0.lock_attempts@;
    let made = locking::attempted(book, true, t0.unique_weight, attempts);
    stage::lemma_tried_same(book, book1, true, t0.unique_weight, attempts, attempts.len());
    stage::lemma_immediate_not_provisional(book, t0.unique_weight, attempts, attempts.len());
    if locking::count_with(made, LockStatus::Failed, made.len()) > 0 {
        let refused = lemma_some_with(made, LockStatus::Failed, made.len());
        lemma_refused_is_blocked(run, k, refused);
    }
}

/// A run that is over, with its executions still coming back, has executed every task that came in.
pub proof fn law_done_means_all_finished(run: SchedulerRun, k: int)
    requires
        run.wf(),
        run.processed_count == run.tasks@.len(),
        0 <= k < run.tasks@.len(),
    ensures
        run.tried() == run.tasks@.len(),
        is_finished(run.tasks@, k),
{
    let n = run.tried();
    let tasks = run.tasks@;
    let f = |i: int| is_finished(tasks, i);
    if !f(k) {
        if is_contended(tasks, k) {
            lemma_members_positive(n, |i: int| is_contended(tasks, i), k);
        } else {
            assert(is_executing(tasks, k));
            lemma_members_positive(n, |i: int| is_executing(tasks, i), k);
        }
    }
}

/// New tasks are tried in the order in which they came in. The one that is tried is handed out, with
/// a lock for each page that it needs, or else it waits for each of them.
pub proof fn law_new_tasks_are_tried_in_order(
    run: &mut SchedulerRun,
    r: Option<Box<ExecutionEnvironment>>,
    i: int,
)
    requires
        old(run).wf(),
        old(run).executing_queue_count < old(run).max_executing_queue_count,
        old(run).counters.queue_clock < old(run).tasks@.len(),
        call_ensures(SchedulerRun::schedule, (run, true), r),
        0 <= i < old(run).tasks@[old(run).counters.queue_clock as int].for_indexer@.len(),
    ensures
        final(run).counters.queue_clock == old(run).counters.queue_clock + 1,
        final(run).tasks@.len() == old(run).tasks@.len(),
        ({
            let k = old(run).counters.queue_clock as int;
            let needed = old(run).tasks@[k].for_indexer@[i];
            let page = final(run).address_book.pages@[needed.target.0 as int];
            match r {
                Some(ee) => {
                    &&& ee.task.0 == k
                    &&& ee.finalized_lock_attempts@.len() == old(run).tasks@[k].for_indexer@.len()
                    &&& ee.finalized_lock_attempts@[i].target == needed.target
                    &&& ee.finalized_lock_attempts@[i].requested_usage == needed.requested_usage
                    &&& ee.finalized_lock_attempts@[i].status == LockStatus::Succeded
                },
                None => {
                    &&& final(run).tasks@[k].uncontended == Contention::Contended
                    &&& page.contended_unique_weights@.dom().contains((u64::MAX - k) as u64)
                    &&& page.contended_unique_weights@[(u64::MAX - k) as u64] == k
                },
            }
        }),
{
    let before = *old(run);
    let after = *final(run);
    let k = before.tried();
    let w: UniqueWeight = (u64::MAX - k) as u64;
    let (tasks1, counters1, popped) = choose|
        tasks1: Seq<Task>,
        counters1: Counters,
        popped: Option<(UniqueWeight, TaskInQueue, Vec<LockAttempt>)>,
    | #[trigger]
        stage::next_scheduled(
            before.runnable_queue.tasks@,
            after.runnable_queue.tasks@,
            before.address_book,
            after.address_book,
            before.tasks@,
            tasks1,
            after.tasks@,
            before.counters,
            counters1,
            after.counters,
            true,
            true,
            popped,
            r,
        );
    let (book1, selection) = choose|
        book1: AddressBook,
        selection: Option<(TaskSource, TaskInQueue)>,
    | #[trigger]
        stage::popped(
            before.runnable_queue.tasks@,
            after.runnable_queue.tasks@,
            before.address_book,
            book1,
            after.address_book,
            before.tasks@,
            tasks1,
            before.counters,
            counters1,
            true,
            true,
            selection,
            popped,
        );
    let runnable = before.runnable_queue.tasks@;
    assert(place_of(w) == k);
    assert(runnable.dom().contains(w));
    let (source, t) = selection->0;
    let v = choose|v: UniqueWeight| #[trigger]
        task::is_heaviest(runnable, v) && runnable[v] == t.0 && after.runnable_queue.tasks@
            == runnable.remove(v);
    assert(runnable.dom().contains(v));
    assert(v == w);
    assert(t.0 == k);
    let t0 = before.tasks@[k];
    let attempts = t0.lock_attempts@;
    stage::lemma_tried_same(
        before.address_book,
        book1,
        true,
        t0.unique_weight,
        attempts,
        attempts.len(),
    );
    stage::lemma_immediate_not_provisional(book1, t0.unique_weight, attempts, attempts.len());
    match r {
        Some(ee) => {
            assert(ee.task.0 == k);
            assert(after.in_flight(*ee));
            assert(after.tasks@[k].for_indexer == t0.for_indexer);
            let needed = t0.for_indexer@[i];
            let had = ee.finalized_lock_attempts@[i];
            assert(had.lock() == after.tasks@[k].for_indexer@[i].lock());
            assert(had.target == needed.target);
            assert(had.requested_usage == needed.requested_usage);
            assert(had.status == LockStatus::Succeded);
        },
        None => {
            assert(after.tasks@[k].for_indexer == t0.for_indexer);
            let p = t0.for_indexer@[i].target.0 as int;
            assert(after.tasks@[k].uncontended == Contention::Contended);
            assert(contended::targeted(t0.for_indexer@, t0.for_indexer@.len() as int, p));
            assert(needs(after.tasks@, k, p));
            assert(is_queued(after.tasks@, k));
            assert(p < after.address_book.pages@.len());
            assert(page_queue_wf(after.address_book.pages@[p], p, after.tasks@, after.tried()));
            assert(after.address_book.pages@[p].contended_unique_weights@.dom().contains(w));
        },
    }
}

/// Of the tasks worth another try the heaviest is tried, and where it is not handed out, it stays worth
/// another try. Where there is none, or no room for one execution more, nothing happens.
pub proof fn law_the_earliest_waiting_task_is_retried(
    run: &mut SchedulerRun,
    r: Option<Box<ExecutionEnvironment>>,
    k: int,
)
    requires
        old(run).wf(),
        old(run).executing_queue_count < old(run).max_executing_queue_count,
        call_ensures(SchedulerRun::schedule, (run, false), r),
        0 <= k <= u64::MAX,
        old(run).address_book.uncontended_task_ids@.dom().contains((u64::MAX - k) as u64),
        forall|w: UniqueWeight| #[trigger]
            old(run).address_book.uncontended_task_ids@.dom().contains(w) ==> w <= u64::MAX - k,
    ensures
        final(run).counters.queue_clock == old(run).counters.queue_clock,
        match r {
            Some(ee) => ee.task.0 == k && !final(run).address_book.uncontended_task_ids@.dom().contains((u64::MAX - k) as u64),
            None => {
                &&& final(run).address_book.uncontended_task_ids@.dom().contains(
                    (u64::MAX - k) as u64,
                )
                &&& final(run).tasks@[k].uncontended == Contention::Contended
                &&& final(run).address_book.pages@ == old(run).address_book.pages@
            },
        },
{
    let before = *old(run);
    let after = *final(run);
    let w: UniqueWeight = (u64::MAX - k) as u64;
    let (tasks1, counters1, popped) = choose|
        tasks1: Seq<Task>,
        counters1: Counters,
        popped: Option<(UniqueWeight, TaskInQueue, Vec<LockAttempt>)>,
    | #[trigger]
        stage::next_scheduled(
            before.runnable_queue.tasks@,
            after.runnable_queue.tasks@,
            before.address_book,
            after.address_book,
            before.tasks@,
            tasks1,
            after.tasks@,
            before.counters,
            counters1,
            after.counters,
            true,
            false,
            popped,
            r,
        );
    let (book1, selection) = choose|
        book1: AddressBook,
        selection: Option<(TaskSource, TaskInQueue)>,
    | #[trigger]
        stage::popped(
            before.runnable_queue.tasks@,
            after.runnable_queue.tasks@,
            before.address_book,
            book1,
            after.address_book,
            before.tasks@,
            tasks1,
            before.counters,
            counters1,
            true,
            false,
            selection,
            popped,
        );
    let uncontended = before.address_book.uncontended_task_ids@;
    assert(uncontended.dom().contains(w));
    assert(place_of(w) == k);
    let (source, t) = selection->0;
    let v = choose|v: UniqueWeight| #[trigger]
        task::is_heaviest(uncontended, v) && uncontended[v] == t.0 && book1.uncontended_task_ids@
            == uncontended.remove(v);
    assert(uncontended.dom().contains(v));
    assert(v == w);
    assert(t.0 == k);
    let t0 = before.tasks@[k];
    let attempts = t0.lock_attempts@;
    stage::lemma_tried_same(
        before.address_book,
        book1,
        true,
        t0.unique_weight,
        attempts,
        attempts.len(),
    );
    stage::lemma_immediate_not_provisional(book1, t0.unique_weight, attempts, attempts.len());
    assert(t0.unique_weight == w);
}

/// No more tasks run at a time than there is room for.
pub proof fn law_no_room_no_execution(
    run: &mut SchedulerRun,
    runnable_exclusive: bool,
    r: Option<Box<ExecutionEnvironment>>,
)
    requires
        old(run).executing_queue_count >= old(run).max_executing_queue_count,
        call_ensures(SchedulerRun::schedule, (run, runnable_exclusive), r),
    ensures
        r is None,
        *final(run) == *old(run),
{
}

/// A commit finishes its task, which then waits for no page, and every page that the task had costs
/// as much more as the execution did; the other pages cost what they did. No other task changes.
pub proof fn law_a_commit_finishes_its_task(
    run: &mut SchedulerRun,
    ee: &mut ExecutionEnvironment,
    j: int,
    p: int,
)
    requires
        old(run).wf(),
        old(run).in_flight(*old(ee)),
        call_ensures(SchedulerRun::commit, (run, ee), ()),
        0 <= j < old(run).tasks@.len(),
        0 <= p < old(run).address_book.pages@.len(),
    ensures
        final(run).processed_count == old(run).processed_count + 1,
        final(run).executing_queue_count == old(run).executing_queue_count - 1,
        final(run).tasks@.len() == old(run).tasks@.len(),
        final(run).tasks@[old(ee).task.0 as int].uncontended == Contention::Finished,
        j != old(ee).task.0 ==> final(run).tasks@[j] == old(run).tasks@[j],
        ({
            let attempts = old(ee).finalized_lock_attempts@;
            let before = old(run).address_book.pages@[p];
            let after = final(run).address_book.pages@[p];
            let had = exists|i: int| 0 <= i < attempts.len() && (#[trigger] attempts[i]).target.0 == p;
            &&& had ==> after.cu == before.cu + old(ee).cu
            &&& !had ==> after.cu == before.cu
            &&& !after.contended_unique_weights@.dom().contains(
                (u64::MAX - old(ee).task.0) as u64,
            )
        }),
{
    let before = *old(run);
    let after = *final(run);
    let k = old(ee).task.0 as int;
    let attempts = old(ee).finalized_lock_attempts@;
    let n = attempts.len();
    let told = stage::all_informed(before.address_book, before.tasks@, attempts);
    let s = release::state_of(
        before.address_book,
        before.counters.provisioning_tracker_count as int,
    );
    let e = release::state_of(after.address_book, after.counters.provisioning_tracker_count as int);
    assert(told.len() == n);
    assert(before.tasks@[k].for_indexer@.len() == n);
    assert forall|i: int| 0 <= i < told.len() implies (#[trigger] told[i]).target.0 < s.cus.len() by {
        assert(told[i].target == attempts[i].target);
        assert(attempts[i].lock() == before.tasks@[k].for_indexer@[i].lock());
        assert(before.tasks@[k].for_indexer@[i].target.0 < before.address_book.pages@.len());
    }
    release::lemma_charged(s, before.tasks@, told, old(ee).cu, n, p);
    assert(told.take(n as int) =~= told);
    assert forall|i: int, l: int| 0 <= i < l < told.len() implies (#[trigger] told[i]).target != (
    #[trigger] told[l]).target by {
        let own = before.tasks@[k].for_indexer@;
        assert(attempts[i].lock() == own[i].lock());
        assert(attempts[l].lock() == own[l].lock());
        assert(own[i].target != own[l].target);
    }
    lemma_one_of_distinct(told, n, p);
    let cu = old(ee).cu as int;
    assert(cu * 1 == cu && cu * 0 == 0);
    assert(e.cus[p] == after.address_book.pages@[p].cu);
    assert(s.cus[p] == before.address_book.pages@[p].cu);
    if exists|i: int| 0 <= i < attempts.len() && (#[trigger] attempts[i]).target.0 == p {
        let i = choose|i: int| 0 <= i < attempts.len() && (#[trigger] attempts[i]).target.0 == p;
        assert(told[i].target.0 == p);
    }
    if exists|i: int| 0 <= i < told.len() && (#[trigger] told[i]).target.0 == p {
        let i = choose|i: int| 0 <= i < told.len() && (#[trigger] told[i]).target.0 == p;
        assert(attempts[i].target.0 == p);
    }
    assert(page_queue_wf(after.address_book.pages@[p], p, after.tasks@, after.tried()));
    let w: UniqueWeight = (u64::MAX - k) as u64;
    assert(place_of(w) == k);
    assert(is_finished(after.tasks@, k));
}

/// Of attempts for different pages, one at most is for page `p`.
proof fn lemma_one_of_distinct(attempts: Seq<LockAttempt>, n: nat, p: int)
    requires
        n <= attempts.len(),
        forall|i: int, l: int|
            0 <= i < l < attempts.len() ==> (#[trigger] attempts[i]).target != (
            #[trigger] attempts[l]).target,
    ensures
        attempts.take(n as int).filter(|a: LockAttempt| a.target.0 == p).len() == if exists|i: int|
            0 <= i < n && (#[trigger] attempts[i]).target.0 == p {
            1nat
        } else {
            0nat
        },
    decreases n,
{
    reveal(Seq::filter);
    if n > 0 {
        lemma_one_of_distinct(attempts, (n - 1) as nat, p);
        assert(attempts.take(n as int).drop_last() =~= attempts.take(n - 1));
        assert(attempts.take(n as int).last() == attempts[n - 1]);
        if attempts[n - 1].target.0 == p {
            assert(!exists|i: int| 0 <= i < n - 1 && (#[trigger] attempts[i]).target.0 == p) by {
                if exists|i: int| 0 <= i < n - 1 && (#[trigger] attempts[i]).target.0 == p {
                    let i = choose|i: int| 0 <= i < n - 1 && (#[trigger] attempts[i]).target.0 == p;
                    assert(attempts[i].target != attempts[n - 1].target);
                }
            }
        } else if exists|i: int| 0 <= i < n && (#[trigger] attempts[i]).target.0 == p {
            let i = choose|i: int| 0 <= i < n && (#[trigger] attempts[i]).target.0 == p;
            assert(i < n - 1);
        }
    }
}

/// A run is over just when no task will come in, and either no execution will come back any more or
/// every task that came in is finished.
pub proof fn law_a_run_ends_with_its_tasks(run: &SchedulerRun, done: bool)
    requires
        run.wf(),
        call_ensures(SchedulerRun::is_done, (run,), done),
    ensures
        done && !run.from_exec_disconnected ==> forall|k: int|
            0 <= k < run.tasks@.len() ==> (#[trigger] run.tasks@[k]).uncontended
                == Contention::Finished,
        done ==> run.from_disconnected,
        run.from_disconnected && run.from_exec_disconnected ==> done,
        run.from_disconnected && run.processed_count == run.tasks@.len() ==> done,
{
    if done && !run.from_exec_disconnected {
        assert forall|k: int| 0 <= k < run.tasks@.len() implies (
        #[trigger] run.tasks@[k]).uncontended == Contention::Finished by {
            law_done_means_all_finished(*run, k);
        }
    }
}

/// What a round does in turn: one task that is worth another try, then new ones, as long as they are
/// handed out and no execution comes back, and then a message from each channel that has any.
pub proof fn law_the_turns_of_a_round(
    round: &mut Round,
    run: &mut SchedulerRun,
    from_len_now: usize,
    from_exec_len_now: usize,
    r: RoundAction,
)
    requires
        call_ensures(Round::turn, (round, run, from_len_now, from_exec_len_now), r),
    ensures
        old(round).phase == RoundPhase::Retry ==> r is Scheduled && final(round).phase
            == RoundPhase::New,
        old(round).phase == RoundPhase::New ==> {
            &&& r is Scheduled
            &&& final(round).phase == (if r->Scheduled_0 is Some {
                RoundPhase::MoreNew
            } else {
                RoundPhase::Take
            })
        },
        old(round).phase == RoundPhase::MoreNew ==> (r is Scheduled <==> from_exec_len_now == 0),
        old(round).phase == RoundPhase::Take ==> r is Take,
        r matches RoundAction::Take(step) ==> {
            &&& *final(run) == *old(run)
            &&& final(round).phase == RoundPhase::Retry
            &&& step.take_task <==> old(round).from_len > 0 || from_len_now > 0
            &&& step.take_exec <==> old(round).from_exec_len > 0 || from_exec_len_now > 0
            &&& old(round).from_len > 0 ==> final(round).from_len == old(round).from_len - 1
            &&& old(round).from_len == 0 && from_len_now > 0 ==> final(round).from_len
                == from_len_now - 1
            &&& old(round).from_exec_len > 0 ==> final(round).from_exec_len == old(
                round,
            ).from_exec_len - 1
            &&& old(round).from_exec_len == 0 && from_exec_len_now > 0 ==> final(round).from_exec_len == from_exec_len_now - 1
        },
{
}

/// What was handed out can be committed, as long as its cost fits on its pages, and only once.
pub proof fn law_what_was_handed_out_is_committed_once(
    run: &mut SchedulerRun,
    runnable_exclusive: bool,
    handed_out: ExecutionEnvironment,
    can: bool,
    later: &mut SchedulerRun,
    ee: &mut ExecutionEnvironment,
    again: bool,
)
    requires
        call_ensures(
            SchedulerRun::schedule,
            (run, runnable_exclusive),
            Some(Box::new(handed_out)),
        ),
        call_ensures(SchedulerRun::can_commit, (&*final(run), &handed_out), can),
        *old(later) == *final(run),
        *old(ee) == handed_out,
        call_ensures(SchedulerRun::commit, (later, ee), ()),
        call_ensures(SchedulerRun::can_commit, (&*final(later), &handed_out), again),
    ensures
        (forall|i: int|
            0 <= i < handed_out.finalized_lock_attempts@.len() ==> final(run).address_book.pages@[(
            #[trigger] handed_out.finalized_lock_attempts@[i]).target.0 as int].cu + handed_out.cu
                <= u64::MAX) ==> can,
        handed_out.task.0 < final(run).tasks@.len(),
        !again,
{
    let k = handed_out.task.0 as int;
    assert(final(run).in_flight(handed_out));
    assert(final(later).tasks@[k].uncontended == Contention::Finished);
    if forall|i: int|
        0 <= i < handed_out.finalized_lock_attempts@.len() ==> final(run).address_book.pages@[(
        #[trigger] handed_out.finalized_lock_attempts@[i]).target.0 as int].cu + handed_out.cu
            <= u64::MAX {
        assert(cost_fits(*final(run), handed_out)) by {
            assert forall|i: int|
                0 <= i < handed_out.finalized_lock_attempts@.len() implies final(run).address_book.page((#[trigger] handed_out.finalized_lock_attempts@[i]).target).cu
                + handed_out.cu <= u64::MAX by {
                let target = handed_out.finalized_lock_attempts@[i].target;
                assert(final(run).address_book.page(target) == final(run).address_book.pages@[target.0 as int]);
            }
        }
    }
}

/// A task comes in once, behind those that came in before, and is then the last of the new ones to be
/// tried.
pub proof fn law_a_task_comes_in_once(
    run: &mut SchedulerRun,
    task: Task,
    again: bool,
    w: UniqueWeight,
)
    requires
        old(run).wf(),
        call_ensures(SchedulerRun::can_register, (&*old(run), &task), true),
        call_ensures(SchedulerRun::register, (run, task), ()),
        call_ensures(SchedulerRun::can_register, (&*final(run), &task), again),
    ensures
        !again,
        final(run).tasks@.len() == old(run).tasks@.len() + 1,
        final(run).tasks@.last() == task,
        final(run).runnable_queue.tasks@.dom().contains(task.unique_weight),
        final(run).runnable_queue.tasks@.dom().contains(w) ==> task.unique_weight <= w,
        final(run).executing_queue_count == old(run).executing_queue_count,
        final(run).processed_count == old(run).processed_count,
{
    assert(final(run).runnable_wf());
    if final(run).runnable_queue.tasks@.dom().contains(w) {
        assert(place_of(w) < final(run).tasks@.len());
    }
}

} // verus!
