use crate::scheduler::usage;
use crate::scheduler::usage::{Lock, PageRc, RequestedUsage, Usage};
use crate::scheduler_pool::address_book::{AddressBook, Page};
use crate::scheduler_pool::locks;
use crate::scheduler_pool::locks::{
    Contention, LockAttempt, LockStatus, Task, TaskInQueue, UniqueWeight,
};
use crate::scheduler_pool::task_queue::{ExecutionEnvironment, Flushable, ModeSpecificTaskQueue};
use crate::types::{ExecuteTimings, TransactionError};
use vstd::multiset::Multiset;
use vstd::prelude::*;

verus! {

/// The locks that the first `n` attempts of a task of weight `unique_weight` get when they are
/// made in order: each is decided against the locks held before and those just granted.
pub open spec fn granted(
    book: AddressBook,
    unique_weight: UniqueWeight,
    attempts: Seq<LockAttempt>,
    n: nat,
) -> Multiset<Lock>
    decreases n,
{
    if n == 0 {
        Multiset::empty()
    } else {
        let before = granted(book, unique_weight, attempts, (n - 1) as nat);
        if is_granted(book, unique_weight, attempts, n - 1, before) {
            before.insert(attempts[n - 1].lock())
        } else {
            before
        }
    }
}

/// Attempt `i` gets its lock when `before` was granted to the attempts ahead of it.
pub open spec fn is_granted(
    book: AddressBook,
    unique_weight: UniqueWeight,
    attempts: Seq<LockAttempt>,
    i: int,
    before: Multiset<Lock>,
) -> bool {
    book.grantable(book.held@.add(before), unique_weight, attempts[i])
}

/// How attempt `i` comes out.
pub open spec fn status_of(
    book: AddressBook,
    unique_weight: UniqueWeight,
    attempts: Seq<LockAttempt>,
    i: int,
) -> LockStatus {
    if is_granted(
        book,
        unique_weight,
        attempts,
        i,
        granted(book, unique_weight, attempts, i as nat),
    ) {
        LockStatus::Succeded
    } else {
        LockStatus::Failed
    }
}

/// The attempts after they were made in order.
pub open spec fn attempted(
    book: AddressBook,
    unique_weight: UniqueWeight,
    attempts: Seq<LockAttempt>,
) -> Seq<LockAttempt> {
    Seq::new(
        attempts.len(),
        |i: int|
            LockAttempt { status: status_of(book, unique_weight, attempts, i), ..attempts[i] },
    )
}

/// Every attempt gets its lock.
pub open spec fn all_granted(
    book: AddressBook,
    unique_weight: UniqueWeight,
    attempts: Seq<LockAttempt>,
) -> bool {
    forall|i: int|
        0 <= i < attempts.len() ==> #[trigger] status_of(book, unique_weight, attempts, i)
            == LockStatus::Succeded
}

/// The locks of those of the first `n` attempts that succeeded.
pub open spec fn succeeded(attempts: Seq<LockAttempt>, n: nat) -> Multiset<Lock>
    decreases n,
{
    if n == 0 {
        Multiset::empty()
    } else {
        let before = succeeded(attempts, (n - 1) as nat);
        if attempts[n - 1].status == LockStatus::Succeded {
            before.insert(attempts[n - 1].lock())
        } else {
            before
        }
    }
}

/// Every attempt is for a page of the book.
pub open spec fn in_book(book: AddressBook, attempts: Seq<LockAttempt>) -> bool {
    forall|i: int| 0 <= i < attempts.len() ==> (#[trigger] attempts[i]).page.0 < book.pages@.len()
}

/// The two books differ in the usage of pages at most, besides their locks.
pub open spec fn same_but_for_usage(before: AddressBook, after: AddressBook) -> bool {
    &&& after.entries() == before.entries()
    &&& after.retryable_task_queue == before.retryable_task_queue
    &&& after.pages@.len() == before.pages@.len()
    &&& forall|p: int|
        0 <= p < before.pages@.len() ==> #[trigger] after.pages@[p] == (Page {
            current_usage: after.pages@[p].current_usage,
            ..before.pages@[p]
        })
}

/// Tries the locks of a task of weight `unique_weight`, all of them, and says how many it did not
/// get.
pub fn attempt_lock_for_execution(
    book: &mut AddressBook,
    unique_weight: UniqueWeight,
    lock_attempts: &mut Vec<LockAttempt>,
) -> (lock_failure_count: usize)
    requires
        old(book).wf(),
        in_book(*old(book), old(lock_attempts)@),
        old(book).held@.len() + old(lock_attempts)@.len() <= usize::MAX,
    ensures
        final(book).wf(),
        same_but_for_usage(*old(book), *final(book)),
        final(book).held@ == old(book).held@.add(
            granted(*old(book), unique_weight, old(lock_attempts)@, old(lock_attempts)@.len()),
        ),
        final(lock_attempts)@ == attempted(*old(book), unique_weight, old(lock_attempts)@),
        lock_failure_count + granted(
            *old(book),
            unique_weight,
            old(lock_attempts)@,
            old(lock_attempts)@.len(),
        ).len() == old(lock_attempts)@.len(),
        lock_failure_count == 0 <==> all_granted(*old(book), unique_weight, old(lock_attempts)@),
{
    let mut lock_failure_count: usize = 0;
    let ghost attempts = lock_attempts@;
    assert(book.held@ =~= old(book).held@.add(Multiset::empty()));
    let mut i: usize = 0;
    while i < lock_attempts.len()
        invariant
            i <= attempts.len(),
            lock_attempts@.len() == attempts.len(),
            attempts == old(lock_attempts)@,
            book.wf(),
            in_book(*old(book), attempts),
            old(book).held@.len() + attempts.len() <= usize::MAX,
            same_but_for_usage(*old(book), *book),
            book.held@ == old(book).held@.add(granted(*old(book), unique_weight, attempts, i as nat)),
            forall|j: int| i <= j < attempts.len() ==> #[trigger] lock_attempts@[j] == attempts[j],
            forall|j: int|
                0 <= j < i ==> #[trigger] lock_attempts@[j] == attempted(
                    *old(book),
                    unique_weight,
                    attempts,
                )[j],
            lock_failure_count + granted(*old(book), unique_weight, attempts, i as nat).len() == i,
            lock_failure_count == 0 <==> forall|j: int|
                0 <= j < i ==> #[trigger] status_of(*old(book), unique_weight, attempts, j)
                    == LockStatus::Succeded,
        decreases attempts.len() - i,
    {
        let ghost book0 = *book;
        let ghost before = granted(*old(book), unique_weight, attempts, i as nat);
        assert(lock_attempts@[i as int] == attempts[i as int]);
        book.attempt_lock_address(unique_weight, &mut lock_attempts[i]);
        proof {
            let now = granted(*old(book), unique_weight, attempts, (i + 1) as nat);
            assert(book0.grantable(book0.held@, unique_weight, attempts[i as int]) == is_granted(
                *old(book),
                unique_weight,
                attempts,
                i as int,
                before,
            ));
            assert(book.held@ =~= old(book).held@.add(now));
            assert(lock_attempts@[i as int].status == status_of(
                *old(book),
                unique_weight,
                attempts,
                i as int,
            ));
        }
        match lock_attempts[i].status {
            LockStatus::Succeded => {},
            LockStatus::Failed => {
                lock_failure_count = lock_failure_count + 1;
            },
        }
        i = i + 1;
    }
    assert(lock_attempts@ =~= attempted(*old(book), unique_weight, attempts));
    lock_failure_count
}

/// What some of the attempts got is part of what all of them got.
proof fn lemma_succeeded_monotonic(attempts: Seq<LockAttempt>, n: nat, m: nat, lock: Lock)
    requires
        n <= m,
    ensures
        succeeded(attempts, n).count(lock) <= succeeded(attempts, m).count(lock),
    decreases m - n,
{
    if n < m {
        lemma_succeeded_monotonic(attempts, n, (m - 1) as nat, lock);
    }
}

/// The attempts that succeeded hold what was granted.
proof fn lemma_attempted_succeeded(
    book: AddressBook,
    unique_weight: UniqueWeight,
    attempts: Seq<LockAttempt>,
    n: nat,
)
    requires
        n <= attempts.len(),
    ensures
        succeeded(attempted(book, unique_weight, attempts), n) == granted(
            book,
            unique_weight,
            attempts,
            n,
        ),
    decreases n,
{
    if n > 0 {
        lemma_attempted_succeeded(book, unique_weight, attempts, (n - 1) as nat);
        let made = attempted(book, unique_weight, attempts);
        assert(made[n - 1].lock() == attempts[n - 1].lock());
        assert(made[n - 1].status == status_of(book, unique_weight, attempts, n - 1));
    }
}

/// One of the first `n` attempts is for page `p`.
pub open spec fn targeted(attempts: Seq<LockAttempt>, n: int, p: int) -> bool {
    exists|i: int| 0 <= i < n && (#[trigger] attempts[i]).page.0 == p
}

/// One of the first `n` attempts is to write page `p`.
pub open spec fn write_targeted(attempts: Seq<LockAttempt>, n: int, p: int) -> bool {
    exists|i: int|
        0 <= i < n && (#[trigger] attempts[i]).page.0 == p && attempts[i].requested_usage
            == RequestedUsage::Writable
}

/// No two attempts are for the same page.
pub open spec fn distinct_pages(attempts: Seq<LockAttempt>) -> bool {
    forall|i: int, j: int|
        0 <= i < j < attempts.len() ==> (#[trigger] attempts[i]).page != (#[trigger] attempts[j]).page
}

/// The task of weight `unique_weight` waits for none of the pages that it wants.
pub open spec fn not_waiting(
    book: AddressBook,
    unique_weight: UniqueWeight,
    attempts: Seq<LockAttempt>,
) -> bool {
    forall|i: int|
        0 <= i < attempts.len() ==> !book.page(
            (#[trigger] attempts[i]).page,
        ).blocked_task_queue@.dom().contains(unique_weight)
}

/// The task of weight `unique_weight` waits for each of the pages that it wants.
pub open spec fn waiting(
    book: AddressBook,
    unique_weight: UniqueWeight,
    attempts: Seq<LockAttempt>,
) -> bool {
    forall|i: int|
        0 <= i < attempts.len() ==> book.page(
            (#[trigger] attempts[i]).page,
        ).blocked_task_queue@.dom().contains(unique_weight)
}

/// The queues of a page after the task was added to those of the first `n` attempts' pages.
pub open spec fn indexed_page(
    before: Page,
    after: Page,
    p: int,
    attempts: Seq<LockAttempt>,
    n: int,
    unique_weight: UniqueWeight,
    task: TaskInQueue,
) -> bool {
    &&& after.address == before.address
    &&& after.current_usage == before.current_usage
    &&& after.blocked_task_queue@ == if targeted(attempts, n, p) {
        before.blocked_task_queue@.insert(unique_weight, task.0)
    } else {
        before.blocked_task_queue@
    }
    &&& after.blocked_write_requesting_task_ids@ == if write_targeted(attempts, n, p) {
        before.blocked_write_requesting_task_ids@.insert(unique_weight)
    } else {
        before.blocked_write_requesting_task_ids@
    }
}

/// The task now waits for the pages of the first `n` attempts, and nothing else changed.
pub open spec fn indexed(
    before: AddressBook,
    after: AddressBook,
    attempts: Seq<LockAttempt>,
    n: int,
    unique_weight: UniqueWeight,
    task: TaskInQueue,
) -> bool {
    &&& after.held@ == before.held@
    &&& after.entries() == before.entries()
    &&& after.retryable_task_queue@ == before.retryable_task_queue@
    &&& after.pages@.len() == before.pages@.len()
    &&& forall|p: int|
        0 <= p < before.pages@.len() ==> indexed_page(
            #[trigger] before.pages@[p],
            after.pages@[p],
            p,
            attempts,
            n,
            unique_weight,
            task,
        )
}

impl Task {
    /// Lets the task wait for the pages of its attempts.
    pub fn index_with_pages(
        book: &mut AddressBook,
        unique_weight: UniqueWeight,
        task: TaskInQueue,
        lock_attempts: &Vec<LockAttempt>,
    )
        requires
            old(book).wf(),
            in_book(*old(book), lock_attempts@),
            distinct_pages(lock_attempts@),
            not_waiting(*old(book), unique_weight, lock_attempts@),
        ensures
            final(book).wf(),
            indexed(
                *old(book),
                *final(book),
                lock_attempts@,
                lock_attempts@.len() as int,
                unique_weight,
                task,
            ),
    {
        let ghost attempts = lock_attempts@;
        let mut i: usize = 0;
        while i < lock_attempts.len()
            invariant
                i <= attempts.len(),
                attempts == lock_attempts@,
                in_book(*old(book), attempts),
                distinct_pages(attempts),
                not_waiting(*old(book), unique_weight, attempts),
                indexed(*old(book), *book, attempts, i as int, unique_weight, task),
            decreases attempts.len() - i,
        {
            let p: usize = lock_attempts[i].page.0;
            let ghost book0 = *book;
            assert(attempts[i as int].page.0 == p);
            assert(!targeted(attempts, i as int, p as int));
            assert(indexed_page(
                old(book).pages@[p as int],
                book.pages@[p as int],
                p as int,
                attempts,
                i as int,
                unique_weight,
                task,
            ));
            book.pages[p].blocked_task_queue.insert_task(unique_weight, task);
            if lock_attempts[i].requested_usage == RequestedUsage::Writable {
                book.pages[p].blocked_write_requesting_task_ids.insert(unique_weight);
            }
            proof {
                assert forall|q: int| 0 <= q < old(book).pages@.len() implies indexed_page(
                    #[trigger] old(book).pages@[q],
                    book.pages@[q],
                    q,
                    attempts,
                    i + 1,
                    unique_weight,
                    task,
                ) by {
                    assert(indexed_page(
                        old(book).pages@[q],
                        book0.pages@[q],
                        q,
                        attempts,
                        i as int,
                        unique_weight,
                        task,
                    ));
                    if q == p {
                        assert(targeted(attempts, i + 1, q));
                        assert(!write_targeted(attempts, i as int, q));
                        if attempts[i as int].requested_usage == RequestedUsage::Writable {
                            assert(write_targeted(attempts, i + 1, q));
                        } else {
                            assert(!write_targeted(attempts, i + 1, q));
                        }
                    } else {
                        assert(book.pages@[q] == book0.pages@[q]);
                        assert(targeted(attempts, i + 1, q) == targeted(attempts, i as int, q)) by {
                            if targeted(attempts, i + 1, q) {
                                let k = choose|k: int|
                                    0 <= k < i + 1 && (#[trigger] attempts[k]).page.0 == q;
                                assert(k != i);
                            }
                        }
                        assert(write_targeted(attempts, i + 1, q) == write_targeted(
                            attempts,
                            i as int,
                            q,
                        )) by {
                            if write_targeted(attempts, i + 1, q) {
                                let k = choose|k: int|
                                    0 <= k < i + 1 && (#[trigger] attempts[k]).page.0 == q
                                        && attempts[k].requested_usage == RequestedUsage::Writable;
                                assert(k != i);
                            }
                        }
                    }
                }
            }
            i = i + 1;
        }
        proof {
            lemma_indexed_wf(*old(book), *book, attempts, attempts.len() as int, unique_weight, task);
        }
    }
}

/// Adding a waiting task leaves a book well-formed.
proof fn lemma_indexed_wf(
    before: AddressBook,
    after: AddressBook,
    attempts: Seq<LockAttempt>,
    n: int,
    unique_weight: UniqueWeight,
    task: TaskInQueue,
)
    requires
        before.wf(),
        indexed(before, after, attempts, n, unique_weight, task),
    ensures
        after.wf(),
{
    assert forall|q: PageRc| q.0 < after.pages@.len() implies (#[trigger] after.page(
        q,
    )).current_usage == usage::usage_of(after.held@, q) && usage::exclusive(
        after.held@,
        q,
    ) by {
        assert(before.page(q) == before.pages@[q.0 as int]);
    }
    assert forall|q: int| 0 <= q < after.pages@.len() implies after.entries().dom().contains(
        (#[trigger] after.pages@[q]).address.0,
    ) && after.entries()[after.pages@[q].address.0] == q by {
        assert(before.pages@[q].address == after.pages@[q].address);
    }
    assert forall|a: [u8; 32]| #[trigger] after.entries().dom().contains(a) implies
        after.entries()[a] < after.pages@.len()
        && after.pages@[after.entries()[a] as int].address.0 == a by {
        assert(before.pages@[before.entries()[a] as int].address.0 == a);
    }
}

/// The stage that picks tasks, locks their accounts, and gives the locks back.
pub struct ScheduleStage {}

impl ScheduleStage {
    /// Takes back all that the attempts got.
    pub fn reset_lock_for_failed_execution(book: &mut AddressBook, lock_attempts: &Vec<LockAttempt>)
        requires
            old(book).wf(),
            forall|l: Lock| #[trigger]
                succeeded(lock_attempts@, lock_attempts@.len()).count(l) <= old(book).held@.count(l),
        ensures
            final(book).wf(),
            same_but_for_usage(*old(book), *final(book)),
            final(book).held@ == old(book).held@.sub(
                succeeded(lock_attempts@, lock_attempts@.len()),
            ),
    {
        let ghost attempts = lock_attempts@;
        assert(book.held@ =~= old(book).held@.sub(succeeded(attempts, 0)));
        let mut i: usize = 0;
        while i < lock_attempts.len()
            invariant
                i <= attempts.len(),
                attempts == lock_attempts@,
                book.wf(),
                forall|l: Lock| #[trigger]
                    succeeded(attempts, attempts.len()).count(l) <= old(book).held@.count(l),
                same_but_for_usage(*old(book), *book),
                book.held@ == old(book).held@.sub(succeeded(attempts, i as nat)),
            decreases attempts.len() - i,
        {
            proof {
                lemma_succeeded_monotonic(
                    attempts,
                    (i + 1) as nat,
                    attempts.len(),
                    attempts[i as int].lock(),
                );
            }
            book.reset_lock(&lock_attempts[i]);
            assert(book.held@ =~= old(book).held@.sub(succeeded(attempts, (i + 1) as nat)));
            i = i + 1;
        }
    }

    /// The heaviest of the tasks that are worth another try.
    pub fn get_heaviest_from_contended(book: &AddressBook) -> (r: Option<UniqueWeight>)
        ensures
            match r {
                Some(k) => is_heaviest(book.retryable_task_queue@, k),
                None => book.retryable_task_queue@.dom() == Set::<UniqueWeight>::empty(),
            },
    {
        crate::collections::last_key_u128(&book.retryable_task_queue)
    }

    /// Takes the next task to lock out of the queue that `task_selection` names.
    pub fn select_next_task_to_lock(
        runnable_queue: &mut ModeSpecificTaskQueue,
        book: &mut AddressBook,
        task_selection: &TaskSelection,
    ) -> (r: Option<(TaskSource, TaskInQueue)>)
        requires
            task_selection is OnlyFromRunnable ==> old(runnable_queue).queue().count() > 0,
        ensures
            final(book).pages == old(book).pages,
            final(book).held == old(book).held,
            final(book).entries() == old(book).entries(),
            selected(
                *old(runnable_queue),
                *final(runnable_queue),
                old(book).retryable_task_queue@,
                final(book).retryable_task_queue@,
                *task_selection,
                r,
            ),
    {
        match task_selection {
            TaskSelection::OnlyFromRunnable => {
                match runnable_queue.heaviest_entry_to_execute() {
                    Some(task) => Some((TaskSource::Runnable, task)),
                    None => None,
                }
            },
            TaskSelection::OnlyFromContended(_) => {
                match Self::get_heaviest_from_contended(book) {
                    Some(k) => {
                        assert(book.retryable_task_queue@.contains_key(k));
                        match book.retryable_task_queue.remove(&k) {
                            Some(task) => Some((TaskSource::Contended, TaskInQueue(task))),
                            None => None,
                        }
                    },
                    None => None,
                }
            },
        }
    }

    /// Gives the locks of an executed task back, takes the task off the queues of its pages if it
    /// was in them, and lets the heaviest task that waits for a freed page have another try.
    pub fn unlock_after_execution(
        should_remove: bool,
        uq: UniqueWeight,
        book: &mut AddressBook,
        tasks: &Vec<Task>,
        lock_attempts: &Vec<LockAttempt>,
    )
        requires
            old(book).wf(),
            in_book(*old(book), lock_attempts@),
            waiters_known(*old(book), tasks@),
            should_remove ==> distinct_pages(lock_attempts@) && waiting(
                *old(book),
                uq,
                lock_attempts@,
            ),
            forall|l: Lock| #[trigger]
                succeeded(lock_attempts@, lock_attempts@.len()).count(l) <= old(book).held@.count(l),
        ensures
            final(book).wf(),
            waiters_known(*final(book), tasks@),
            unlocked(
                *old(book),
                *final(book),
                tasks@,
                should_remove,
                uq,
                lock_attempts@,
                lock_attempts@.len(),
            ),
    {
        let ghost attempts = lock_attempts@;
        assert(book.held@ =~= old(book).held@.sub(succeeded(attempts, 0)));
        let mut i: usize = 0;
        while i < lock_attempts.len()
            invariant
                i <= attempts.len(),
                attempts == lock_attempts@,
                book.wf(),
                old(book).wf(),
                in_book(*old(book), attempts),
                waiters_known(*old(book), tasks@),
                should_remove ==> distinct_pages(attempts) && waiting(*old(book), uq, attempts),
                forall|l: Lock| #[trigger]
                    succeeded(attempts, attempts.len()).count(l) <= old(book).held@.count(l),
                unlocked(*old(book), *book, tasks@, should_remove, uq, attempts, i as nat),
            decreases attempts.len() - i,
        {
            let p: usize = lock_attempts[i].page.0;
            let ghost book0 = *book;
            assert(attempts[i as int].page.0 == p);
            proof {
                lemma_succeeded_monotonic(
                    attempts,
                    (i + 1) as nat,
                    attempts.len(),
                    attempts[i as int].lock(),
                );
                assert(released_page(
                    old(book).pages@[p as int],
                    book0.pages@[p as int],
                    p as int,
                    attempts,
                    i as int,
                    should_remove,
                    uq,
                ));
                assert(should_remove ==> !targeted(attempts, i as int, p as int));
                assert(old(book).page(attempts[i as int].page) == old(book).pages@[p as int]);
            }
            let heaviest_uncontended = book.pages[p].blocked_task_queue.reindex(
                should_remove,
                uq,
                tasks,
            );
            if should_remove && lock_attempts[i].requested_usage == RequestedUsage::Writable {
                book.pages[p].blocked_write_requesting_task_ids.remove(&uq);
            }
            let ghost book1 = *book;
            proof {
                lemma_queues_changed(book0, book1, p as int);
            }
            let is_unused_now = book.reset_lock(&lock_attempts[i]);
            assert(book.held@ =~= old(book).held@.sub(succeeded(attempts, (i + 1) as nat)));
            let ghost book2 = *book;
            if is_unused_now {
                if let Some(uncontended_task) = heaviest_uncontended {
                    let weight: UniqueWeight = tasks[uncontended_task.0].unique_weight;
                    if !book.retryable_task_queue.contains_key(&weight) {
                        book.retryable_task_queue.insert(weight, uncontended_task.0);
                    }
                }
            }
            proof {
                lemma_queues_changed(book2, *book, p as int);
                assert forall|q: int| 0 <= q < old(book).pages@.len() implies released_page(
                    #[trigger] old(book).pages@[q],
                    book.pages@[q],
                    q,
                    attempts,
                    i + 1,
                    should_remove,
                    uq,
                ) by {
                    assert(released_page(
                        old(book).pages@[q],
                        book0.pages@[q],
                        q,
                        attempts,
                        i as int,
                        should_remove,
                        uq,
                    ));
                    lemma_targeted_step(attempts, i as int, q);
                }
            }
            i = i + 1;
        }
    }
}

/// How a task came to be selected.
#[derive(Clone, Copy, Debug, PartialEq, Eq, Structural)]
pub enum TaskSource {
    Runnable,
    Contended,
}

/// Which queue the next task is taken from.
#[derive(Clone, Copy, Debug, PartialEq, Eq, Structural)]
pub enum TaskSelection {
    OnlyFromRunnable,
    OnlyFromContended(usize),
}

impl TaskSelection {
    pub fn should_proceed(&self) -> (r: bool)
        ensures
            r == (match *self {
                TaskSelection::OnlyFromRunnable => true,
                TaskSelection::OnlyFromContended(retry_count) => retry_count > 0,
            }),
    {
        match self {
            TaskSelection::OnlyFromRunnable => true,
            TaskSelection::OnlyFromContended(retry_count) => *retry_count > 0,
        }
    }

    pub fn runnable_exclusive(&self) -> (r: bool)
        ensures
            r == (*self is OnlyFromRunnable),
    {
        match self {
            TaskSelection::OnlyFromRunnable => true,
            TaskSelection::OnlyFromContended(_) => false,
        }
    }
}

/// `k` is the greatest key of `queue`.
pub open spec fn is_heaviest(queue: Map<UniqueWeight, usize>, k: UniqueWeight) -> bool {
    queue.dom().contains(k) && forall|j: UniqueWeight| #[trigger] queue.dom().contains(j) ==> j <= k
}

/// What a selection returns and takes out: the next of the new tasks, or the heaviest of the
/// tasks worth another try.
pub open spec fn selected(
    queue0: ModeSpecificTaskQueue,
    queue1: ModeSpecificTaskQueue,
    retryable0: Map<UniqueWeight, usize>,
    retryable1: Map<UniqueWeight, usize>,
    selection: TaskSelection,
    r: Option<(TaskSource, TaskInQueue)>,
) -> bool {
    match selection {
        TaskSelection::OnlyFromRunnable => {
            &&& retryable1 == retryable0
            &&& queue1.queue().buffered_task is None
            &&& match queue0.queue().buffered_task {
                Some(task) => queue1.queue().channel@ == queue0.queue().channel@ && r == Some(
                    (TaskSource::Runnable, task),
                ),
                None => queue1.queue().channel@ == queue0.queue().channel@.skip(1) && r == (
                match queue0.queue().channel@[0].0 {
                    Flushable::Payload(task) => Some((TaskSource::Runnable, task)),
                    Flushable::Flush => None,
                }),
            }
        },
        TaskSelection::OnlyFromContended(_) => {
            &&& queue1 == queue0
            &&& match r {
                Some((source, task)) => source == TaskSource::Contended
                    && exists|k: UniqueWeight| #[trigger]
                    is_heaviest(retryable0, k) && retryable0[k] == task.0 && retryable1
                        == retryable0.remove(k),
                None => retryable0.dom() == Set::<UniqueWeight>::empty() && retryable1
                    == retryable0,
            }
        },
    }
}

/// Every waiting task is one of `tasks`.
pub open spec fn waiters_known(book: AddressBook, tasks: Seq<Task>) -> bool {
    forall|p: int, k: UniqueWeight|
        0 <= p < book.pages@.len() && #[trigger] book.pages@[p].blocked_task_queue@.dom().contains(
            k,
        ) ==> book.pages@[p].blocked_task_queue@[k] < tasks.len()
}

/// The queues of a page after the first `n` attempts were given back.
pub open spec fn released_page(
    before: Page,
    after: Page,
    p: int,
    attempts: Seq<LockAttempt>,
    n: int,
    should_remove: bool,
    uq: UniqueWeight,
) -> bool {
    &&& after.address == before.address
    &&& after.blocked_task_queue@ == if should_remove && targeted(attempts, n, p) {
        before.blocked_task_queue@.remove(uq)
    } else {
        before.blocked_task_queue@
    }
    &&& after.blocked_write_requesting_task_ids@ == if should_remove && write_targeted(
        attempts,
        n,
        p,
    ) {
        before.blocked_write_requesting_task_ids@.remove(uq)
    } else {
        before.blocked_write_requesting_task_ids@
    }
}

/// `task` goes under its weight, unless something is there.
pub open spec fn offered(
    queue: Map<UniqueWeight, usize>,
    tasks: Seq<Task>,
    task: Option<TaskInQueue>,
) -> Map<UniqueWeight, usize> {
    match task {
        Some(t) => {
            let weight = tasks[t.0 as int].unique_weight;
            if queue.dom().contains(weight) {
                queue
            } else {
                queue.insert(weight, t.0)
            }
        },
        None => queue,
    }
}

/// The tasks worth another try after the first `n` attempts were given back: each attempt that
/// leaves its page unused adds the heaviest task that waits for the page.
pub open spec fn retryable_after_unlock(
    before: AddressBook,
    tasks: Seq<Task>,
    should_remove: bool,
    uq: UniqueWeight,
    attempts: Seq<LockAttempt>,
    n: nat,
) -> Map<UniqueWeight, usize>
    decreases n,
{
    if n == 0 {
        before.retryable_task_queue@
    } else {
        let queue = retryable_after_unlock(
            before,
            tasks,
            should_remove,
            uq,
            attempts,
            (n - 1) as nat,
        );
        let attempt = attempts[n - 1];
        let waiting = before.page(attempt.page).blocked_task_queue@;
        let left = before.held@.sub(succeeded(attempts, n));
        if attempt.status == LockStatus::Succeded && usage::usage_of(left, attempt.page) == Usage::Unused {
            offered(
                queue,
                tasks,
                locks::heaviest_contended(
                    if should_remove {
                        waiting.remove(uq)
                    } else {
                        waiting
                    },
                    tasks,
                ),
            )
        } else {
            queue
        }
    }
}

/// The first `n` attempts were given back.
pub open spec fn unlocked(
    before: AddressBook,
    after: AddressBook,
    tasks: Seq<Task>,
    should_remove: bool,
    uq: UniqueWeight,
    attempts: Seq<LockAttempt>,
    n: nat,
) -> bool {
    &&& after.held@ == before.held@.sub(succeeded(attempts, n))
    &&& after.entries() == before.entries()
    &&& after.retryable_task_queue@ == retryable_after_unlock(
        before,
        tasks,
        should_remove,
        uq,
        attempts,
        n,
    )
    &&& after.pages@.len() == before.pages@.len()
    &&& forall|p: int|
        0 <= p < before.pages@.len() ==> released_page(
            #[trigger] before.pages@[p],
            after.pages@[p],
            p,
            attempts,
            n as int,
            should_remove,
            uq,
        )
}

/// A page is targeted by one attempt more exactly if that attempt is for it.
proof fn lemma_targeted_step(attempts: Seq<LockAttempt>, i: int, q: int)
    requires
        0 <= i < attempts.len(),
    ensures
        targeted(attempts, i + 1, q) == (targeted(attempts, i, q) || attempts[i].page.0 == q),
        write_targeted(attempts, i + 1, q) == (write_targeted(attempts, i, q) || (
        attempts[i].page.0 == q && attempts[i].requested_usage == RequestedUsage::Writable)),
{
    if targeted(attempts, i + 1, q) {
        let k = choose|k: int| 0 <= k < i + 1 && (#[trigger] attempts[k]).page.0 == q;
        assert(k < i || k == i);
    }
    if write_targeted(attempts, i + 1, q) {
        let k = choose|k: int|
            0 <= k < i + 1 && (#[trigger] attempts[k]).page.0 == q && attempts[k].requested_usage
                == RequestedUsage::Writable;
        assert(k < i || k == i);
    }
    if targeted(attempts, i, q) {
        let k = choose|k: int| 0 <= k < i && (#[trigger] attempts[k]).page.0 == q;
        assert(0 <= k < i + 1);
    }
    if write_targeted(attempts, i, q) {
        let k = choose|k: int|
            0 <= k < i && (#[trigger] attempts[k]).page.0 == q && attempts[k].requested_usage
                == RequestedUsage::Writable;
        assert(0 <= k < i + 1);
    }
}

/// A book in which only the queues of one page changed stays well-formed.
proof fn lemma_queues_changed(before: AddressBook, after: AddressBook, p: int)
    requires
        before.wf(),
        0 <= p < before.pages@.len(),
        after.held@ == before.held@,
        after.entries() == before.entries(),
        after.pages@.len() == before.pages@.len(),
        forall|q: int| 0 <= q < before.pages@.len() && q != p ==> #[trigger] after.pages@[q] == before.pages@[q],
        after.pages@[p].address == before.pages@[p].address,
        after.pages@[p].current_usage == before.pages@[p].current_usage,
    ensures
        after.wf(),
{
    assert forall|q: PageRc| q.0 < after.pages@.len() implies (#[trigger] after.page(
        q,
    )).current_usage == usage::usage_of(after.held@, q) && usage::exclusive(after.held@, q) by {
        assert(before.page(q) == before.pages@[q.0 as int]);
    }
    assert forall|q: int| 0 <= q < after.pages@.len() implies after.entries().dom().contains(
        (#[trigger] after.pages@[q]).address.0,
    ) && after.entries()[after.pages@[q].address.0] == q by {
        assert(before.pages@[q].address == after.pages@[q].address);
    }
    assert forall|a: [u8; 32]| #[trigger] after.entries().dom().contains(a) implies
        after.entries()[a] < after.pages@.len()
        && after.pages@[after.entries()[a] as int].address.0 == a by {
        assert(before.pages@[before.entries()[a] as int].address.0 == a);
    }
}

/// The tasks worth another try after a blocked task got its locks: each of the first `n` attempts
/// that is to read adds the heaviest task that still waits for its page.
pub open spec fn retryable_after_lock(
    book: AddressBook,
    tasks: Seq<Task>,
    attempts: Seq<LockAttempt>,
    n: nat,
) -> Map<UniqueWeight, usize>
    decreases n,
{
    if n == 0 {
        book.retryable_task_queue@
    } else {
        let queue = retryable_after_lock(book, tasks, attempts, (n - 1) as nat);
        let attempt = attempts[n - 1];
        if attempt.requested_usage == RequestedUsage::Readonly {
            offered(
                queue,
                tasks,
                locks::heaviest_contended(
                    book.page(attempt.page).blocked_task_queue@,
                    tasks,
                ),
            )
        } else {
            queue
        }
    }
}

/// The task could not get all its locks: it got none, it was counted as blocked once more, and a
/// new task waits for its pages from now on.
pub open spec fn lock_failed(
    book0: AddressBook,
    book1: AddressBook,
    tasks0: Seq<Task>,
    tasks1: Seq<Task>,
    source: TaskSource,
    task: TaskInQueue,
) -> bool {
    let t0 = tasks0[task.0 as int];
    let t1 = tasks1[task.0 as int];
    let attempts = t0.lock_attempts@;
    &&& if source == TaskSource::Runnable {
        indexed(book0, book1, attempts, attempts.len() as int, t0.unique_weight, task)
    } else {
        &&& book1.held@ == book0.held@
        &&& book1.entries() == book0.entries()
        &&& book1.retryable_task_queue@ == book0.retryable_task_queue@
        &&& book1.pages@ == book0.pages@
    }
    &&& tasks1.len() == tasks0.len()
    &&& forall|i: int| 0 <= i < tasks0.len() && i != task.0 ==> #[trigger] tasks1[i] == tasks0[i]
    &&& t1.unique_weight == t0.unique_weight
    &&& t1.tx == t0.tx
    &&& t1.lock_attempts@ == attempted(book0, t0.unique_weight, attempts)
    &&& t1.contention_count == (if t0.contention_count == usize::MAX {
        0
    } else {
        t0.contention_count + 1
    })
    &&& t1.uncontended == if source == TaskSource::Runnable {
        Contention::Contended
    } else {
        t0.uncontended
    }
}

/// The task got all its locks, which it hands over; a task that had been blocked no longer is, and
/// those that wait to read the same pages are worth another try.
pub open spec fn lock_succeeded(
    book0: AddressBook,
    book1: AddressBook,
    tasks0: Seq<Task>,
    tasks1: Seq<Task>,
    source: TaskSource,
    task: TaskInQueue,
    lock_attempts: Seq<LockAttempt>,
) -> bool {
    let t0 = tasks0[task.0 as int];
    let t1 = tasks1[task.0 as int];
    let attempts = t0.lock_attempts@;
    &&& book1.held@ == book0.held@.add(granted(book0, t0.unique_weight, attempts, attempts.len()))
    &&& book1.entries() == book0.entries()
    &&& book1.pages@.len() == book0.pages@.len()
    &&& forall|p: int|
        0 <= p < book0.pages@.len() ==> #[trigger] book1.pages@[p] == (Page {
            current_usage: book1.pages@[p].current_usage,
            ..book0.pages@[p]
        })
    &&& tasks1.len() == tasks0.len()
    &&& forall|i: int| 0 <= i < tasks0.len() && i != task.0 ==> #[trigger] tasks1[i] == tasks0[i]
    &&& t1.unique_weight == t0.unique_weight
    &&& t1.tx == t0.tx
    &&& t1.lock_attempts@ == Seq::<LockAttempt>::empty()
    &&& t1.contention_count == t0.contention_count
    &&& t1.uncontended == if source == TaskSource::Contended {
        Contention::Uncontended
    } else {
        t0.uncontended
    }
    &&& book1.retryable_task_queue@ == if source == TaskSource::Contended {
        retryable_after_lock(book0, tasks1, attempts, attempts.len())
    } else {
        book0.retryable_task_queue@
    }
    &&& lock_attempts == attempted(book0, t0.unique_weight, attempts)
}

/// What a task must be for its locks to be tried: its pages are in the book, there is room to
/// count its locks, a task said to be blocked is, and a new one does not yet wait for any of its
/// pages, nor twice for one, if it has to wait.
pub open spec fn lockable_task(
    book: AddressBook,
    tasks: Seq<Task>,
    source: TaskSource,
    task: TaskInQueue,
) -> bool {
    let t = tasks[task.0 as int];
    &&& task.0 < tasks.len()
    &&& in_book(book, t.lock_attempts@)
    &&& book.held@.len() + t.lock_attempts@.len() <= usize::MAX
    &&& waiters_known(book, tasks)
    &&& all_granted(book, t.unique_weight, t.lock_attempts@) && source == TaskSource::Contended
        ==> t.uncontended == Contention::Contended
    &&& !all_granted(book, t.unique_weight, t.lock_attempts@) && source == TaskSource::Runnable
        ==> distinct_pages(t.lock_attempts@) && not_waiting(
        book,
        t.unique_weight,
        t.lock_attempts@,
    )
}

/// Two books with the same locks and otherwise equal pages have equal pages.
proof fn lemma_same_locks_same_pages(before: AddressBook, after: AddressBook)
    requires
        before.wf(),
        after.wf(),
        after.held@ == before.held@,
        same_but_for_usage(before, after),
    ensures
        after.pages@ == before.pages@,
{
    assert forall|p: int| 0 <= p < before.pages@.len() implies after.pages@[p]
        == before.pages@[p] by {
        assert(before.page(PageRc(p as usize)) == before.pages@[p]);
        assert(after.page(PageRc(p as usize)) == after.pages@[p]);
    }
    assert(after.pages@ =~= before.pages@);
}

/// Whether attempts have been made, and which locks are held, makes no difference to the tasks that
/// are worth another try after a blocked task got its locks.
proof fn lemma_retryable_after_lock_same(
    before: AddressBook,
    after: AddressBook,
    tasks: Seq<Task>,
    attempts: Seq<LockAttempt>,
    made: Seq<LockAttempt>,
    n: nat,
)
    requires
        same_but_for_usage(before, after),
        in_book(before, attempts),
        made.len() == attempts.len(),
        n <= attempts.len(),
        forall|i: int|
            0 <= i < made.len() ==> (#[trigger] made[i]).page == attempts[i].page
                && made[i].requested_usage == attempts[i].requested_usage,
    ensures
        retryable_after_lock(before, tasks, attempts, n) == retryable_after_lock(
            after,
            tasks,
            made,
            n,
        ),
    decreases n,
{
    if n > 0 {
        lemma_retryable_after_lock_same(before, after, tasks, attempts, made, (n - 1) as nat);
        assert(made[n - 1].page == attempts[n - 1].page);
        let p = attempts[n - 1].page.0 as int;
        assert(after.pages@[p].blocked_task_queue == before.pages@[p].blocked_task_queue);
    }
}

impl ScheduleStage {
    /// Counts a task as blocked once more, and lets a new one wait for its pages.
    fn block_task(
        book: &mut AddressBook,
        tasks: &mut Vec<Task>,
        task_source: TaskSource,
        task: TaskInQueue,
        lock_attempts: &Vec<LockAttempt>,
    )
        requires
            old(book).wf(),
            task.0 < old(tasks)@.len(),
            in_book(*old(book), lock_attempts@),
            task_source == TaskSource::Runnable ==> distinct_pages(lock_attempts@) && not_waiting(
                *old(book),
                old(tasks)@[task.0 as int].unique_weight,
                lock_attempts@,
            ),
        ensures
            final(book).wf(),
            if task_source == TaskSource::Runnable {
                indexed(
                    *old(book),
                    *final(book),
                    lock_attempts@,
                    lock_attempts@.len() as int,
                    old(tasks)@[task.0 as int].unique_weight,
                    task,
                )
            } else {
                *final(book) == *old(book)
            },
            final(tasks)@ == old(tasks)@.update(
                task.0 as int,
                Task {
                    contention_count: (if old(tasks)@[task.0 as int].contention_count
                        == usize::MAX {
                        0
                    } else {
                        old(tasks)@[task.0 as int].contention_count + 1
                    }) as usize,
                    uncontended: if task_source == TaskSource::Runnable {
                        Contention::Contended
                    } else {
                        old(tasks)@[task.0 as int].uncontended
                    },
                    ..old(tasks)@[task.0 as int]
                },
            ),
    {
        let t: usize = task.0;
        let count: usize = tasks[t].contention_count;
        tasks[t].contention_count = count.wrapping_add(1);
        if task_source == TaskSource::Runnable {
            tasks[t].mark_as_contended();
            Task::index_with_pages(book, tasks[t].unique_weight, task, lock_attempts);
        }
    }

    /// Lets the heaviest task that waits for each page just locked for reading have another try,
    /// so that more tasks can read it.
    fn retry_readers(
        book: &mut AddressBook,
        tasks: &Vec<Task>,
        unique_weight: UniqueWeight,
        lock_attempts: &Vec<LockAttempt>,
    )
        requires
            old(book).wf(),
            in_book(*old(book), lock_attempts@),
            waiters_known(*old(book), tasks@),
        ensures
            final(book).wf(),
            final(book).held@ == old(book).held@,
            final(book).entries() == old(book).entries(),
            final(book).pages@ == old(book).pages@,
            final(book).retryable_task_queue@ == retryable_after_lock(
                *old(book),
                tasks@,
                lock_attempts@,
                lock_attempts@.len(),
            ),
    {
        let ghost made = lock_attempts@;
        let mut i: usize = 0;
        while i < lock_attempts.len()
            invariant
                i <= made.len(),
                made == lock_attempts@,
                in_book(*old(book), made),
                waiters_known(*old(book), tasks@),
                book.wf(),
                book.held@ == old(book).held@,
                book.entries() == old(book).entries(),
                book.pages@ == old(book).pages@,
                book.retryable_task_queue@ == retryable_after_lock(
                    *old(book),
                    tasks@,
                    made,
                    i as nat,
                ),
            decreases made.len() - i,
        {
            if lock_attempts[i].requested_usage == RequestedUsage::Readonly {
                let p: usize = lock_attempts[i].page.0;
                let ghost book0 = *book;
                assert(made[i as int].page.0 == p);
                let blocked = book.pages[p].blocked_task_queue.reindex(
                    false,
                    unique_weight,
                    tasks,
                );
                assert(book.pages@ =~= old(book).pages@);
                if let Some(heaviest_blocked_task) = blocked {
                    let weight: UniqueWeight = tasks[heaviest_blocked_task.0].unique_weight;
                    if !book.retryable_task_queue.contains_key(&weight) {
                        book.retryable_task_queue.insert(weight, heaviest_blocked_task.0);
                    }
                }
                proof {
                    lemma_queues_changed(book0, *book, p as int);
                }
            }
            i = i + 1;
        }
    }

    /// Tries to lock all that a task needs. A task that cannot have all has nothing after it.
    pub fn try_lock_for_task(
        book: &mut AddressBook,
        tasks: &mut Vec<Task>,
        task_source: TaskSource,
        next_task: TaskInQueue,
    ) -> (r: Option<(TaskInQueue, Vec<LockAttempt>)>)
        requires
            old(book).wf(),
            lockable_task(*old(book), old(tasks)@, task_source, next_task),
        ensures
            final(book).wf(),
            r is Some <==> all_granted(
                *old(book),
                old(tasks)@[next_task.0 as int].unique_weight,
                old(tasks)@[next_task.0 as int].lock_attempts@,
            ),
            match r {
                Some((task, lock_attempts)) => task == next_task && lock_succeeded(
                    *old(book),
                    *final(book),
                    old(tasks)@,
                    final(tasks)@,
                    task_source,
                    next_task,
                    lock_attempts@,
                ),
                None => lock_failed(
                    *old(book),
                    *final(book),
                    old(tasks)@,
                    final(tasks)@,
                    task_source,
                    next_task,
                ),
            },
    {
        let t: usize = next_task.0;
        let unique_weight: UniqueWeight = tasks[t].unique_weight;
        let mut lock_attempts: Vec<LockAttempt> = Vec::new();
        std::mem::swap(&mut lock_attempts, &mut tasks[t].lock_attempts);
        let ghost attempts = lock_attempts@;
        let lock_failure_count: usize = attempt_lock_for_execution(
            book,
            unique_weight,
            &mut lock_attempts,
        );
        let ghost made = lock_attempts@;
        proof {
            lemma_attempted_succeeded(*old(book), unique_weight, attempts, attempts.len());
            assert forall|i: int| 0 <= i < made.len() implies (#[trigger] made[i]).page
                == attempts[i].page && made[i].requested_usage == attempts[i].requested_usage by {}
            lemma_made(*old(book), unique_weight, attempts, made);
        }
        if lock_failure_count > 0 {
            Self::reset_lock_for_failed_execution(book, &lock_attempts);
            proof {
                assert(book.held@ =~= old(book).held@);
                lemma_same_locks_same_pages(*old(book), *book);
                lemma_made_in(*old(book), *book, unique_weight, attempts, made);
            }
            let ghost before = *book;
            Self::block_task(book, tasks, task_source, next_task, &lock_attempts);
            proof {
                if task_source == TaskSource::Runnable {
                    lemma_indexed_same_targets(
                        before,
                        *book,
                        made,
                        attempts,
                        unique_weight,
                        next_task,
                    );
                }
            }
            std::mem::swap(&mut lock_attempts, &mut tasks[t].lock_attempts);
            return None;
        }
        if task_source == TaskSource::Contended {
            tasks[t].mark_as_uncontended();
            let ghost locked = *book;
            Self::retry_readers(book, tasks, unique_weight, &lock_attempts);
            proof {
                lemma_retryable_after_lock_same(
                    *old(book),
                    locked,
                    tasks@,
                    attempts,
                    made,
                    attempts.len(),
                );
            }
        }
        Some((next_task, lock_attempts))
    }
}

/// Attempts that were made are for the pages that they were for.
proof fn lemma_made(
    book: AddressBook,
    unique_weight: UniqueWeight,
    attempts: Seq<LockAttempt>,
    made: Seq<LockAttempt>,
)
    requires
        made == attempted(book, unique_weight, attempts),
        in_book(book, attempts),
    ensures
        in_book(book, made),
{
    assert forall|i: int| 0 <= i < made.len() implies (#[trigger] made[i]).page.0
        < book.pages@.len() by {
        assert(attempts[i].page == made[i].page);
    }
}

/// Attempts that were made wait for what they waited for.
proof fn lemma_made_in(
    before: AddressBook,
    after: AddressBook,
    unique_weight: UniqueWeight,
    attempts: Seq<LockAttempt>,
    made: Seq<LockAttempt>,
)
    requires
        made == attempted(before, unique_weight, attempts),
        after.pages@ == before.pages@,
    ensures
        in_book(before, attempts) ==> in_book(after, made),
        distinct_pages(attempts) ==> distinct_pages(made),
        not_waiting(before, unique_weight, attempts) ==> not_waiting(after, unique_weight, made),
{
    assert forall|i: int| 0 <= i < made.len() implies (#[trigger] made[i]).page
        == attempts[i].page by {}
    if in_book(before, attempts) {
        lemma_made(before, unique_weight, attempts, made);
    }
    if distinct_pages(attempts) {
        assert forall|i: int, j: int| 0 <= i < j < made.len() implies (#[trigger] made[i]).page != (
        #[trigger] made[j]).page by {
            assert(attempts[i].page != attempts[j].page);
        }
    }
    if not_waiting(before, unique_weight, attempts) {
        assert forall|i: int| 0 <= i < made.len() implies !after.page(
            (#[trigger] made[i]).page,
        ).blocked_task_queue@.dom().contains(unique_weight) by {
            assert(before.page(attempts[i].page) == after.page(made[i].page));
        }
    }
}

/// Whether attempts have been made makes no difference to the queues that their task joins.
proof fn lemma_indexed_same_targets(
    before: AddressBook,
    after: AddressBook,
    made: Seq<LockAttempt>,
    attempts: Seq<LockAttempt>,
    unique_weight: UniqueWeight,
    task: TaskInQueue,
)
    requires
        made.len() == attempts.len(),
        forall|i: int|
            0 <= i < made.len() ==> (#[trigger] made[i]).page == attempts[i].page
                && made[i].requested_usage == attempts[i].requested_usage,
        indexed(before, after, made, made.len() as int, unique_weight, task),
    ensures
        indexed(before, after, attempts, attempts.len() as int, unique_weight, task),
{
    let n = made.len() as int;
    assert forall|p: int| 0 <= p < before.pages@.len() implies indexed_page(
        #[trigger] before.pages@[p],
        after.pages@[p],
        p,
        attempts,
        n,
        unique_weight,
        task,
    ) by {
        assert(indexed_page(
            before.pages@[p],
            after.pages@[p],
            p,
            made,
            n,
            unique_weight,
            task,
        ));
        if targeted(made, n, p) {
            let i = choose|i: int| 0 <= i < n && (#[trigger] made[i]).page.0 == p;
            assert(attempts[i].page.0 == p);
        }
        if targeted(attempts, n, p) {
            let i = choose|i: int| 0 <= i < n && (#[trigger] attempts[i]).page.0 == p;
            assert(made[i].page.0 == p);
        }
        if write_targeted(made, n, p) {
            let i = choose|i: int|
                0 <= i < n && (#[trigger] made[i]).page.0 == p && made[i].requested_usage
                    == RequestedUsage::Writable;
            assert(attempts[i].page.0 == p);
        }
        if write_targeted(attempts, n, p) {
            let i = choose|i: int|
                0 <= i < n && (#[trigger] attempts[i]).page.0 == p && attempts[i].requested_usage
                    == RequestedUsage::Writable;
            assert(made[i].page.0 == p);
        }
    }
}

/// The task that a selection would take.
pub open spec fn next_selected(
    queue: ModeSpecificTaskQueue,
    retryable: Map<UniqueWeight, usize>,
    selection: TaskSelection,
    source: TaskSource,
    task: TaskInQueue,
) -> bool {
    match selection {
        TaskSelection::OnlyFromRunnable => source == TaskSource::Runnable && (
        match queue.queue().buffered_task {
            Some(buffered) => task == buffered,
            None => queue.queue().channel@[0].0 == Flushable::Payload(task),
        }),
        TaskSelection::OnlyFromContended(_) => source == TaskSource::Contended
            && exists|k: UniqueWeight| #[trigger]
            is_heaviest(retryable, k) && retryable[k] == task.0,
    }
}

/// What a book grants depends on its pages and locks only.
proof fn lemma_granted_same(
    before: AddressBook,
    after: AddressBook,
    unique_weight: UniqueWeight,
    attempts: Seq<LockAttempt>,
    n: nat,
)
    requires
        after.pages@ == before.pages@,
        after.held@ == before.held@,
    ensures
        granted(before, unique_weight, attempts, n) == granted(after, unique_weight, attempts, n),
    decreases n,
{
    if n > 0 {
        lemma_granted_same(before, after, unique_weight, attempts, (n - 1) as nat);
    }
}

/// Whether the locks of a task can be tried depends on the pages and locks of the book only.
proof fn lemma_lockable_same(
    before: AddressBook,
    after: AddressBook,
    tasks: Seq<Task>,
    source: TaskSource,
    task: TaskInQueue,
)
    requires
        after.pages@ == before.pages@,
        after.held@ == before.held@,
        lockable_task(before, tasks, source, task),
    ensures
        lockable_task(after, tasks, source, task),
{
    let t = tasks[task.0 as int];
    let attempts = t.lock_attempts@;
    assert forall|i: int| 0 <= i < attempts.len() implies #[trigger] status_of(
        before,
        t.unique_weight,
        attempts,
        i,
    ) == status_of(after, t.unique_weight, attempts, i) by {
        lemma_granted_same(before, after, t.unique_weight, attempts, i as nat);
    }
    assert(all_granted(before, t.unique_weight, attempts) == all_granted(
        after,
        t.unique_weight,
        attempts,
    )) by {
        if all_granted(after, t.unique_weight, attempts) {
            assert forall|i: int| 0 <= i < attempts.len() implies #[trigger] status_of(
                before,
                t.unique_weight,
                attempts,
                i,
            ) == LockStatus::Succeded by {
                assert(status_of(after, t.unique_weight, attempts, i) == LockStatus::Succeded);
            }
        }
        if all_granted(before, t.unique_weight, attempts) {
            assert forall|i: int| 0 <= i < attempts.len() implies #[trigger] status_of(
                after,
                t.unique_weight,
                attempts,
                i,
            ) == LockStatus::Succeded by {
                assert(status_of(before, t.unique_weight, attempts, i) == LockStatus::Succeded);
            }
        }
    }
    if not_waiting(before, t.unique_weight, attempts) {
        assert forall|i: int| 0 <= i < attempts.len() implies !after.page(
            (#[trigger] attempts[i]).page,
        ).blocked_task_queue@.dom().contains(t.unique_weight) by {
            assert(before.page(attempts[i].page) == after.page(attempts[i].page));
        }
    }
}

/// A step of scheduling: `book1` is the book after the selection.
pub open spec fn scheduled(
    book1: AddressBook,
    book2: AddressBook,
    tasks0: Seq<Task>,
    tasks2: Seq<Task>,
    selection: Option<(TaskSource, TaskInQueue)>,
    r: Option<Box<ExecutionEnvironment>>,
) -> bool {
    match selection {
        None => r is None && book2 == book1 && tasks2 == tasks0,
        Some((source, task)) => match r {
            Some(ee) => {
                &&& ee.task == task
                &&& ee.execution_result is None
                &&& ee.result_with_timings.0 == Ok::<(), TransactionError>(())
                &&& ee.result_with_timings.1.execute_us == 0
                &&& lock_succeeded(
                    book1,
                    book2,
                    tasks0,
                    tasks2,
                    source,
                    task,
                    ee.finalized_lock_attempts@,
                )
                &&& all_granted(
                    book1,
                    tasks0[task.0 as int].unique_weight,
                    tasks0[task.0 as int].lock_attempts@,
                )
            },
            None => {
                &&& lock_failed(book1, book2, tasks0, tasks2, source, task)
                &&& !all_granted(
                    book1,
                    tasks0[task.0 as int].unique_weight,
                    tasks0[task.0 as int].lock_attempts@,
                )
            },
        },
    }
}

impl ScheduleStage {
    /// A task with its locks, ready to be executed.
    pub fn prepare_scheduled_execution(
        task: TaskInQueue,
        finalized_lock_attempts: Vec<LockAttempt>,
    ) -> (r: Box<ExecutionEnvironment>)
        ensures
            r.task == task,
            r.finalized_lock_attempts == finalized_lock_attempts,
            r.execution_result is None,
            r.result_with_timings.0 == Ok::<(), TransactionError>(()),
            r.result_with_timings.1.execute_us == 0,
    {
        Box::new(
            ExecutionEnvironment {
                task,
                finalized_lock_attempts,
                execution_result: None,
                result_with_timings: (Ok(()), ExecuteTimings { execute_us: 0 }),
            },
        )
    }

    /// Gives the locks of an executed task back; a task that was ever blocked leaves the queues of
    /// its pages.
    pub fn commit_processed_execution(
        ee: &ExecutionEnvironment,
        book: &mut AddressBook,
        tasks: &Vec<Task>,
    )
        requires
            old(book).wf(),
            ee.task.0 < tasks@.len(),
            in_book(*old(book), ee.finalized_lock_attempts@),
            waiters_known(*old(book), tasks@),
            tasks@[ee.task.0 as int].contention_count > 0 ==> distinct_pages(
                ee.finalized_lock_attempts@,
            ) && waiting(
                *old(book),
                tasks@[ee.task.0 as int].unique_weight,
                ee.finalized_lock_attempts@,
            ),
            forall|l: Lock| #[trigger]
                succeeded(
                    ee.finalized_lock_attempts@,
                    ee.finalized_lock_attempts@.len(),
                ).count(l) <= old(book).held@.count(l),
        ensures
            final(book).wf(),
            waiters_known(*final(book), tasks@),
            unlocked(
                *old(book),
                *final(book),
                tasks@,
                tasks@[ee.task.0 as int].contention_count > 0,
                tasks@[ee.task.0 as int].unique_weight,
                ee.finalized_lock_attempts@,
                ee.finalized_lock_attempts@.len(),
            ),
    {
        let should_remove = tasks[ee.task.0].contention_count > 0;
        let uq: UniqueWeight = tasks[ee.task.0].unique_weight;
        Self::unlock_after_execution(should_remove, uq, book, tasks, &ee.finalized_lock_attempts);
    }

    /// Selects a task and tries its locks; what comes back can be executed.
    pub fn schedule_next_execution(
        runnable_queue: &mut ModeSpecificTaskQueue,
        book: &mut AddressBook,
        tasks: &mut Vec<Task>,
        task_selection: &TaskSelection,
    ) -> (r: Option<Box<ExecutionEnvironment>>)
        requires
            old(book).wf(),
            task_selection is OnlyFromRunnable ==> old(runnable_queue).queue().count() > 0,
            forall|source: TaskSource, task: TaskInQueue| #[trigger]
                next_selected(
                    *old(runnable_queue),
                    old(book).retryable_task_queue@,
                    *task_selection,
                    source,
                    task,
                ) ==> lockable_task(*old(book), old(tasks)@, source, task),
        ensures
            final(book).wf(),
            exists|book1: AddressBook, selection: Option<(TaskSource, TaskInQueue)>|
                {
                    &&& book1.pages == old(book).pages
                    &&& book1.held == old(book).held
                    &&& book1.entries() == old(book).entries()
                    &&& selected(
                        *old(runnable_queue),
                        *final(runnable_queue),
                        old(book).retryable_task_queue@,
                        book1.retryable_task_queue@,
                        *task_selection,
                        selection,
                    )
                    &&& #[trigger] scheduled(
                        book1,
                        *final(book),
                        old(tasks)@,
                        final(tasks)@,
                        selection,
                        r,
                    )
                },
    {
        let selection = Self::select_next_task_to_lock(runnable_queue, book, task_selection);
        let ghost book1 = *book;
        proof {
            lemma_same_pages_wf(*old(book), book1);
        }
        match selection {
            None => {
                assert(scheduled(book1, *book, old(tasks)@, tasks@, selection, None));
                None
            },
            Some((source, task)) => {
                proof {
                    assert(next_selected(
                        *old(runnable_queue),
                        old(book).retryable_task_queue@,
                        *task_selection,
                        source,
                        task,
                    ));
                    lemma_lockable_same(*old(book), book1, tasks@, source, task);
                }
                match Self::try_lock_for_task(book, tasks, source, task) {
                    None => {
                        assert(scheduled(book1, *book, old(tasks)@, tasks@, selection, None));
                        None
                    },
                    Some((task, lock_attempts)) => {
                        let ee = Self::prepare_scheduled_execution(task, lock_attempts);
                        assert(scheduled(book1, *book, old(tasks)@, tasks@, selection, Some(ee)));
                        Some(ee)
                    },
                }
            },
        }
    }
}

/// Whether a book is well-formed depends on its pages, locks and addresses only.
proof fn lemma_same_pages_wf(before: AddressBook, after: AddressBook)
    requires
        before.wf(),
        after.pages@ == before.pages@,
        after.held@ == before.held@,
        after.entries() == before.entries(),
    ensures
        after.wf(),
{
    assert forall|q: PageRc| q.0 < after.pages@.len() implies (#[trigger] after.page(
        q,
    )).current_usage == usage::usage_of(after.held@, q) && usage::exclusive(
        after.held@,
        q,
    ) by {
        assert(before.page(q) == after.page(q));
    }
}

/// Two locks that are held on one page at the same time are both for reading.
pub proof fn law_writers_are_alone(book: AddressBook, first: Lock, second: Lock)
    requires
        book.wf(),
        first.0 == second.0,
        Multiset::empty().insert(first).insert(second).subset_of(book.held@),
    ensures
        first.1 == RequestedUsage::Readonly,
        second.1 == RequestedUsage::Readonly,
{
    let pair = Multiset::empty().insert(first).insert(second);
    let p = first.0;
    assert(pair.count(first) <= book.held@.count(first));
    assert(pair.count(second) <= book.held@.count(second));
    assert(book.held@.count(first) > 0);
    assert(book.page(p) == book.pages@[p.0 as int]);
    assert(usage::exclusive(book.held@, p));
}

/// A task that gets its locks and then gives them back leaves the locks as it found them.
pub proof fn law_unlock_undoes_lock(
    book: AddressBook,
    unique_weight: UniqueWeight,
    attempts: Seq<LockAttempt>,
)
    ensures
        ({
            let made = attempted(book, unique_weight, attempts);
            book.held@.add(granted(book, unique_weight, attempts, attempts.len())).sub(
                succeeded(made, made.len()),
            ) == book.held@
        }),
{
    lemma_attempted_succeeded(book, unique_weight, attempts, attempts.len());
    let made = attempted(book, unique_weight, attempts);
    assert(book.held@.add(granted(book, unique_weight, attempts, attempts.len())).sub(
        succeeded(made, made.len()),
    ) =~= book.held@);
}

/// No task overtakes a heavier one: a lock that was granted to write goes to the heaviest of those
/// that wait for the page, if any do.
pub proof fn law_heavier_tasks_go_first(
    book: AddressBook,
    unique_weight: UniqueWeight,
    attempts: Seq<LockAttempt>,
    i: int,
    waiting_weight: UniqueWeight,
)
    requires
        0 <= i < attempts.len(),
        status_of(book, unique_weight, attempts, i) == LockStatus::Succeded,
        book.page(attempts[i].page).blocked_task_queue@.dom().contains(waiting_weight),
        attempts[i].requested_usage == RequestedUsage::Writable,
    ensures
        waiting_weight <= unique_weight,
{
}

/// The keys of the tasks worth another try stay while more attempts are given back.
proof fn lemma_retryable_grows(
    before: AddressBook,
    tasks: Seq<Task>,
    should_remove: bool,
    uq: UniqueWeight,
    attempts: Seq<LockAttempt>,
    n: nat,
    m: nat,
    weight: UniqueWeight,
)
    requires
        n <= m,
        retryable_after_unlock(before, tasks, should_remove, uq, attempts, n).dom().contains(weight),
    ensures
        retryable_after_unlock(before, tasks, should_remove, uq, attempts, m).dom().contains(weight),
    decreases m - n,
{
    if n < m {
        lemma_retryable_grows(
            before,
            tasks,
            should_remove,
            uq,
            attempts,
            n,
            (m - 1) as nat,
            weight,
        );
    }
}

/// The last of the attempts for page `p` that succeeded, among the first `n`.
proof fn lemma_last_success(attempts: Seq<LockAttempt>, n: nat, p: PageRc, i: int) -> (r: int)
    requires
        0 <= i < n <= attempts.len(),
        attempts[i].page == p,
        attempts[i].status == LockStatus::Succeded,
    ensures
        i <= r < n,
        attempts[r].page == p,
        attempts[r].status == LockStatus::Succeded,
        forall|l: Lock|
            l.0 == p ==> #[trigger] succeeded(attempts, (r + 1) as nat).count(l) == succeeded(
                attempts,
                n,
            ).count(l),
    decreases n,
{
    let last = attempts[n - 1];
    if last.page == p && last.status == LockStatus::Succeded {
        n - 1
    } else {
        let r = lemma_last_success(attempts, (n - 1) as nat, p, i);
        assert forall|l: Lock| l.0 == p implies #[trigger] succeeded(
            attempts,
            (r + 1) as nat,
        ).count(l) == succeeded(attempts, n).count(l) by {
            assert(succeeded(attempts, (r + 1) as nat).count(l) == succeeded(
                attempts,
                (n - 1) as nat,
            ).count(l));
        }
        r
    }
}

/// The heaviest of the contended tasks is the one that is found.
proof fn lemma_heaviest_is_found(
    queue: Map<UniqueWeight, usize>,
    tasks: Seq<Task>,
    k: UniqueWeight,
)
    requires
        queue.dom().contains(k),
        tasks[queue[k] as int].uncontended == Contention::Contended,
        forall|j: UniqueWeight| #[trigger]
            queue.dom().contains(j) && tasks[queue[j] as int].uncontended == Contention::Contended
                ==> j <= k,
    ensures
        locks::heaviest_contended(queue, tasks) == Some(TaskInQueue(queue[k])),
{
    assert(locks::is_heaviest_contended(queue, tasks, k));
    let c = choose|c: UniqueWeight| locks::is_heaviest_contended(queue, tasks, c);
    assert(locks::is_heaviest_contended(queue, tasks, c));
    assert(queue.dom().contains(c) && c <= k);
    assert(queue.dom().contains(k) && k <= c);
}

/// No waiting task is forgotten: where a commit leaves a page that it gave back without any user,
/// the heaviest of the contended tasks that wait for the page is worth another try.
pub proof fn law_no_waiting_task_is_forgotten(
    ee: &ExecutionEnvironment,
    book: &mut AddressBook,
    tasks: &Vec<Task>,
    i: int,
    k: UniqueWeight,
)
    requires
        old(book).wf(),
        in_book(*old(book), ee.finalized_lock_attempts@),
        call_ensures(ScheduleStage::commit_processed_execution, (ee, book, tasks), ()),
        0 <= i < ee.finalized_lock_attempts@.len(),
        ee.finalized_lock_attempts@[i].status == LockStatus::Succeded,
        final(book).pages@[ee.finalized_lock_attempts@[i].page.0 as int].current_usage
            == Usage::Unused,
        ({
            let queue = final(book).pages@[ee.finalized_lock_attempts@[i].page.0 as int].blocked_task_queue@;
            &&& queue.dom().contains(k)
            &&& tasks@[queue[k] as int].uncontended == Contention::Contended
            &&& forall|j: UniqueWeight| #[trigger]
                queue.dom().contains(j) && tasks@[queue[j] as int].uncontended
                    == Contention::Contended ==> j <= k
        }),
    ensures
        ({
            let queue = final(book).pages@[ee.finalized_lock_attempts@[i].page.0 as int].blocked_task_queue@;
            final(book).retryable_task_queue@.dom().contains(
                tasks@[queue[k] as int].unique_weight,
            )
        }),
{
    let attempts = ee.finalized_lock_attempts@;
    let n = attempts.len();
    let p = attempts[i].page;
    let should_remove = tasks@[ee.task.0 as int].contention_count > 0;
    let uq = tasks@[ee.task.0 as int].unique_weight;
    let before = *old(book);
    let after = *final(book);
    let queue = after.pages@[p.0 as int].blocked_task_queue@;
    let r = lemma_last_success(attempts, n, p, i);
    assert(after.page(p) == after.pages@[p.0 as int]);
    assert(before.page(p) == before.pages@[p.0 as int]);
    assert(released_page(
        before.pages@[p.0 as int],
        after.pages@[p.0 as int],
        p.0 as int,
        attempts,
        n as int,
        should_remove,
        uq,
    ));
    assert(targeted(attempts, n as int, p.0 as int));
    let left = before.held@.sub(succeeded(attempts, (r + 1) as nat));
    let read = (p, RequestedUsage::Readonly);
    let write = (p, RequestedUsage::Writable);
    assert(left.count(read) == after.held@.count(read));
    assert(left.count(write) == after.held@.count(write));
    assert(usage::usage_of(left, p) == Usage::Unused);
    lemma_heaviest_is_found(queue, tasks@, k);
    lemma_retryable_grows(
        before,
        tasks@,
        should_remove,
        uq,
        attempts,
        (r + 1) as nat,
        n,
        tasks@[queue[k] as int].unique_weight,
    );
}

/// A commit makes no task worth another try that does not wait for one of the pages given back, and
/// drops none that was worth one.
pub proof fn law_only_waiting_tasks_are_retried(
    ee: &ExecutionEnvironment,
    book: &mut AddressBook,
    tasks: &Vec<Task>,
    weight: UniqueWeight,
)
    requires
        call_ensures(ScheduleStage::commit_processed_execution, (ee, book, tasks), ()),
        in_book(*old(book), ee.finalized_lock_attempts@),
    ensures
        old(book).retryable_task_queue@.dom().contains(weight) ==> {
            &&& final(book).retryable_task_queue@.dom().contains(weight)
            &&& final(book).retryable_task_queue@[weight] == old(book).retryable_task_queue@[weight]
        },
        final(book).retryable_task_queue@.dom().contains(weight)
            && !old(book).retryable_task_queue@.dom().contains(weight) ==> {
            let t = final(book).retryable_task_queue@[weight] as int;
            &&& tasks@[t].unique_weight == weight
            &&& tasks@[t].uncontended == Contention::Contended
            &&& exists|i: int, k: UniqueWeight|
                {
                    &&& 0 <= i < ee.finalized_lock_attempts@.len()
                    &&& #[trigger] old(book).page(
                        ee.finalized_lock_attempts@[i].page,
                    ).blocked_task_queue@.dom().contains(k)
                    &&& old(book).page(ee.finalized_lock_attempts@[i].page).blocked_task_queue@[k]
                        == t
                }
        },
{
    lemma_retried_wait(
        *old(book),
        tasks@,
        tasks@[ee.task.0 as int].contention_count > 0,
        tasks@[ee.task.0 as int].unique_weight,
        ee.finalized_lock_attempts@,
        ee.finalized_lock_attempts@.len(),
        weight,
    );
}

proof fn lemma_retried_wait(
    before: AddressBook,
    tasks: Seq<Task>,
    should_remove: bool,
    uq: UniqueWeight,
    attempts: Seq<LockAttempt>,
    n: nat,
    weight: UniqueWeight,
)
    requires
        n <= attempts.len(),
    ensures
        ({
            let queue = retryable_after_unlock(before, tasks, should_remove, uq, attempts, n);
            &&& before.retryable_task_queue@.dom().contains(weight) ==> queue.dom().contains(weight)
                && queue[weight] == before.retryable_task_queue@[weight]
            &&& queue.dom().contains(weight) && !before.retryable_task_queue@.dom().contains(weight)
                ==> {
                &&& tasks[queue[weight] as int].unique_weight == weight
                &&& tasks[queue[weight] as int].uncontended == Contention::Contended
                &&& exists|i: int, k: UniqueWeight|
                    {
                        &&& 0 <= i < attempts.len()
                        &&& #[trigger] before.page(
                            attempts[i].page,
                        ).blocked_task_queue@.dom().contains(k)
                        &&& before.page(attempts[i].page).blocked_task_queue@[k] == queue[weight]
                    }
            }
        }),
    decreases n,
{
    if n > 0 {
        lemma_retried_wait(before, tasks, should_remove, uq, attempts, (n - 1) as nat, weight);
        let all = before.page(attempts[n - 1].page).blocked_task_queue@;
        let waiting = if should_remove {
            all.remove(uq)
        } else {
            all
        };
        if exists|k: UniqueWeight| locks::is_heaviest_contended(waiting, tasks, k) {
            let k = choose|k: UniqueWeight| locks::is_heaviest_contended(waiting, tasks, k);
            assert(locks::is_heaviest_contended(waiting, tasks, k));
            assert(all.dom().contains(k));
            assert(before.page(attempts[n - 1].page).blocked_task_queue@.dom().contains(k));
        }
    }
}

/// A committed task waits no more: a task that was ever blocked leaves the queue of each page that
/// it had, and the others that wait stay. Pages that it did not have are as they were.
pub proof fn law_committed_task_waits_no_more(
    ee: &ExecutionEnvironment,
    book: &mut AddressBook,
    tasks: &Vec<Task>,
    p: int,
    weight: UniqueWeight,
)
    requires
        old(book).wf(),
        in_book(*old(book), ee.finalized_lock_attempts@),
        call_ensures(ScheduleStage::commit_processed_execution, (ee, book, tasks), ()),
        0 <= p < old(book).pages@.len(),
    ensures
        ({
            let attempts = ee.finalized_lock_attempts@;
            let before = old(book).pages@[p];
            let after = final(book).pages@[p];
            let own = tasks@[ee.task.0 as int].unique_weight;
            let blocked = tasks@[ee.task.0 as int].contention_count > 0;
            let had = exists|i: int| 0 <= i < attempts.len() && (#[trigger] attempts[i]).page.0 == p;
            let wrote = exists|i: int|
                0 <= i < attempts.len() && (#[trigger] attempts[i]).page.0 == p
                    && attempts[i].requested_usage == RequestedUsage::Writable;
            &&& after.address == before.address
            &&& after.blocked_task_queue@.dom().contains(weight) <==> (
            before.blocked_task_queue@.dom().contains(weight) && !(had && blocked && weight == own))
            &&& after.blocked_task_queue@.dom().contains(weight) ==> after.blocked_task_queue@[weight]
                == before.blocked_task_queue@[weight]
            &&& after.blocked_write_requesting_task_ids@.contains(weight) <==> (
            before.blocked_write_requesting_task_ids@.contains(weight) && !(wrote && blocked
                && weight == own))
            &&& !had ==> after.current_usage == before.current_usage
        }),
{
    let attempts = ee.finalized_lock_attempts@;
    let n = attempts.len();
    let q = PageRc(p as usize);
    let should_remove = tasks@[ee.task.0 as int].contention_count > 0;
    let uq = tasks@[ee.task.0 as int].unique_weight;
    assert(released_page(
        old(book).pages@[p],
        final(book).pages@[p],
        p,
        attempts,
        n as int,
        should_remove,
        uq,
    ));
    assert(old(book).page(q) == old(book).pages@[p]);
    assert(final(book).page(q) == final(book).pages@[p]);
    if !targeted(attempts, n as int, p) {
        lemma_not_targeted(attempts, n, q);
    }
}

proof fn lemma_not_targeted(attempts: Seq<LockAttempt>, n: nat, p: PageRc)
    requires
        n <= attempts.len(),
        !targeted(attempts, n as int, p.0 as int),
    ensures
        forall|l: Lock| l.0 == p ==> #[trigger] succeeded(attempts, n).count(l) == 0,
    decreases n,
{
    if n > 0 {
        assert(attempts[n - 1].page.0 != p.0);
        if targeted(attempts, n - 1, p.0 as int) {
            let i = choose|i: int| 0 <= i < n - 1 && (#[trigger] attempts[i]).page.0 == p.0;
            assert(attempts[i].page.0 == p.0);
        }
        lemma_not_targeted(attempts, (n - 1) as nat, p);
        assert forall|l: Lock| l.0 == p implies #[trigger] succeeded(attempts, n).count(l) == 0 by {
            assert(succeeded(attempts, (n - 1) as nat).count(l) == 0);
        }
    }
}

/// A new task that cannot have all its locks waits: it is in the queue of each page that it wants,
/// and among those that wait to write where it wants to write. It is blocked, all pages are in use
/// as they were, and nobody else's place changes.
pub proof fn law_a_task_without_its_locks_waits(
    book: &mut AddressBook,
    tasks: &mut Vec<Task>,
    next_task: TaskInQueue,
    i: int,
    p: int,
    weight: UniqueWeight,
)
    requires
        old(book).wf(),
        next_task.0 < old(tasks)@.len(),
        in_book(*old(book), old(tasks)@[next_task.0 as int].lock_attempts@),
        call_ensures(
            ScheduleStage::try_lock_for_task,
            (book, tasks, TaskSource::Runnable, next_task),
            None,
        ),
        0 <= i < old(tasks)@[next_task.0 as int].lock_attempts@.len(),
        0 <= p < old(book).pages@.len(),
    ensures
        ({
            let t0 = old(tasks)@[next_task.0 as int];
            let t1 = final(tasks)@[next_task.0 as int];
            let wanted = t0.lock_attempts@[i];
            let page = final(book).pages@[wanted.page.0 as int];
            &&& page.blocked_task_queue@.dom().contains(t0.unique_weight)
            &&& page.blocked_task_queue@[t0.unique_weight] == next_task.0
            &&& wanted.requested_usage == RequestedUsage::Writable
                ==> page.blocked_write_requesting_task_ids@.contains(t0.unique_weight)
            &&& t1.uncontended == Contention::Contended
            &&& t0.contention_count < usize::MAX ==> t1.contention_count == t0.contention_count + 1
            &&& t1.unique_weight == t0.unique_weight
            &&& t1.tx == t0.tx
        }),
        final(book).pages@[p].current_usage == old(book).pages@[p].current_usage,
        final(book).retryable_task_queue@ == old(book).retryable_task_queue@,
        weight != old(tasks)@[next_task.0 as int].unique_weight ==> {
            &&& final(book).pages@[p].blocked_task_queue@.dom().contains(weight) <==> old(
                book,
            ).pages@[p].blocked_task_queue@.dom().contains(weight)
            &&& final(book).pages@[p].blocked_write_requesting_task_ids@.contains(weight) <==> old(
                book,
            ).pages@[p].blocked_write_requesting_task_ids@.contains(weight)
        },
{
    let t0 = old(tasks)@[next_task.0 as int];
    let attempts = t0.lock_attempts@;
    let q = attempts[i].page.0 as int;
    assert(indexed_page(
        old(book).pages@[q],
        final(book).pages@[q],
        q,
        attempts,
        attempts.len() as int,
        t0.unique_weight,
        next_task,
    ));
    assert(indexed_page(
        old(book).pages@[p],
        final(book).pages@[p],
        p,
        attempts,
        attempts.len() as int,
        t0.unique_weight,
        next_task,
    ));
    assert(targeted(attempts, attempts.len() as int, q));
}

/// A task that gets its locks gets all of them, for the pages and usages that it wants, and overtakes
/// no heavier task that waits. No other task changes.
pub proof fn law_a_scheduled_task_has_all_its_locks(
    book: &mut AddressBook,
    tasks: &mut Vec<Task>,
    source: TaskSource,
    next_task: TaskInQueue,
    r: (TaskInQueue, Vec<LockAttempt>),
    i: int,
    weight: UniqueWeight,
)
    requires
        old(book).wf(),
        next_task.0 < old(tasks)@.len(),
        in_book(*old(book), old(tasks)@[next_task.0 as int].lock_attempts@),
        call_ensures(ScheduleStage::try_lock_for_task, (book, tasks, source, next_task), Some(r)),
        0 <= i < old(tasks)@[next_task.0 as int].lock_attempts@.len(),
    ensures
        ({
            let t0 = old(tasks)@[next_task.0 as int];
            let t1 = final(tasks)@[next_task.0 as int];
            let wanted = t0.lock_attempts@[i];
            let p = wanted.page.0 as int;
            let writes = wanted.requested_usage == RequestedUsage::Writable;
            let page = old(book).pages@[p];
            &&& r.0 == next_task
            &&& r.1@.len() == t0.lock_attempts@.len()
            &&& r.1@[i].status == LockStatus::Succeded
            &&& r.1@[i].page == wanted.page
            &&& r.1@[i].requested_usage == wanted.requested_usage
            &&& writes ==> page.current_usage == Usage::Unused
            &&& page.current_usage != Usage::Writable
            &&& final(book).pages@[p].current_usage == Usage::Writable <==> writes
            &&& final(book).pages@[p].current_usage is Readonly <==> !writes
            &&& final(book).pages@[p].blocked_task_queue == page.blocked_task_queue
            &&& writes && page.blocked_task_queue@.dom().contains(weight) ==> weight
                <= t0.unique_weight
            &&& crate::scheduler_pool::address_book::writers_wait(page)
                && page.blocked_write_requesting_task_ids@.contains(weight) ==> weight
                <= t0.unique_weight
            &&& t1.unique_weight == t0.unique_weight
            &&& source == TaskSource::Contended ==> t1.uncontended == Contention::Uncontended
        }),
{
    let t0 = old(tasks)@[next_task.0 as int];
    let attempts = t0.lock_attempts@;
    let n = attempts.len();
    let lock = attempts[i].lock();
    let p = attempts[i].page;
    let w = t0.unique_weight;
    let before = granted(*old(book), w, attempts, i as nat);
    assert(status_of(*old(book), w, attempts, i) == LockStatus::Succeded);
    lemma_granted_grows(*old(book), w, attempts, (i + 1) as nat, n, lock);
    assert(old(book).page(p) == old(book).pages@[p.0 as int]);
    assert(final(book).page(p) == final(book).pages@[p.0 as int]);
    assert(final(book).held@.count(lock) > 0);
    assert(usage::exclusive(final(book).held@, p));
    let write = (p, RequestedUsage::Writable);
    let read = (p, RequestedUsage::Readonly);
    assert(old(book).held@.add(before).count(write) >= old(book).held@.count(write));
    assert(old(book).held@.add(before).count(read) >= old(book).held@.count(read));
    assert(final(book).pages@[p.0 as int].current_usage == usage::usage_of(final(book).held@, p));
}

proof fn lemma_granted_grows(
    book: AddressBook,
    unique_weight: UniqueWeight,
    attempts: Seq<LockAttempt>,
    n: nat,
    m: nat,
    lock: Lock,
)
    requires
        n <= m,
    ensures
        granted(book, unique_weight, attempts, n).count(lock) <= granted(
            book,
            unique_weight,
            attempts,
            m,
        ).count(lock),
    decreases m - n,
{
    if n < m {
        lemma_granted_grows(book, unique_weight, attempts, n, (m - 1) as nat, lock);
    }
}

/// A task that wants pages which nobody uses or waits for, none of them twice, gets its locks.
pub proof fn law_free_pages_are_locked(
    book: &mut AddressBook,
    tasks: &mut Vec<Task>,
    source: TaskSource,
    next_task: TaskInQueue,
    r: Option<(TaskInQueue, Vec<LockAttempt>)>,
)
    requires
        old(book).wf(),
        next_task.0 < old(tasks)@.len(),
        in_book(*old(book), old(tasks)@[next_task.0 as int].lock_attempts@),
        distinct_pages(old(tasks)@[next_task.0 as int].lock_attempts@),
        forall|i: int|
            0 <= i < old(tasks)@[next_task.0 as int].lock_attempts@.len() ==> {
                let page = old(book).pages@[(#[trigger] old(
                    tasks,
                )@[next_task.0 as int].lock_attempts@[i]).page.0 as int];
                &&& page.current_usage == Usage::Unused
                &&& page.blocked_task_queue@.dom() == Set::<UniqueWeight>::empty()
            },
        call_ensures(ScheduleStage::try_lock_for_task, (book, tasks, source, next_task), r),
    ensures
        r is Some,
{
    let t0 = old(tasks)@[next_task.0 as int];
    let attempts = t0.lock_attempts@;
    let w = t0.unique_weight;
    assert forall|i: int| 0 <= i < attempts.len() implies #[trigger] status_of(
        *old(book),
        w,
        attempts,
        i,
    ) == LockStatus::Succeded by {
        let p = attempts[i].page;
        assert(old(book).page(p) == old(book).pages@[p.0 as int]);
        lemma_granted_elsewhere(*old(book), w, attempts, i as nat, p);
        let held = old(book).held@.add(granted(*old(book), w, attempts, i as nat));
        assert(held.count((p, RequestedUsage::Writable)) == 0);
        assert(held.count((p, RequestedUsage::Readonly)) == 0);
    }
}

proof fn lemma_granted_elsewhere(
    book: AddressBook,
    unique_weight: UniqueWeight,
    attempts: Seq<LockAttempt>,
    n: nat,
    p: PageRc,
)
    requires
        n <= attempts.len(),
        forall|i: int| 0 <= i < n ==> (#[trigger] attempts[i]).page != p,
    ensures
        forall|l: Lock|
            l.0 == p ==> #[trigger] granted(book, unique_weight, attempts, n).count(l) == 0,
    decreases n,
{
    if n > 0 {
        lemma_granted_elsewhere(book, unique_weight, attempts, (n - 1) as nat, p);
        assert forall|l: Lock| l.0 == p implies #[trigger] granted(
            book,
            unique_weight,
            attempts,
            n,
        ).count(l) == 0 by {
            assert(granted(book, unique_weight, attempts, (n - 1) as nat).count(l) == 0);
        }
    }
}

/// As many attempts fail as is said, and an attempt that is made changes in nothing but its outcome.
pub proof fn law_failed_attempts_are_counted(
    book: &mut AddressBook,
    unique_weight: UniqueWeight,
    lock_attempts: &mut Vec<LockAttempt>,
    failed: usize,
    i: int,
)
    requires
        call_ensures(attempt_lock_for_execution, (book, unique_weight, lock_attempts), failed),
        0 <= i < old(lock_attempts)@.len(),
    ensures
        failed == final(lock_attempts)@.filter(
            |a: LockAttempt| a.status == LockStatus::Failed,
        ).len(),
        final(lock_attempts)@.len() == old(lock_attempts)@.len(),
        final(lock_attempts)@[i].page == old(lock_attempts)@[i].page,
        final(lock_attempts)@[i].requested_usage == old(lock_attempts)@[i].requested_usage,
{
    let made = final(lock_attempts)@;
    let n = made.len();
    lemma_attempted_succeeded(*old(book), unique_weight, old(lock_attempts)@, n);
    lemma_succeeded_and_failed(made, n);
    assert(made.take(n as int) =~= made);
}

proof fn lemma_succeeded_and_failed(attempts: Seq<LockAttempt>, n: nat)
    requires
        n <= attempts.len(),
    ensures
        succeeded(attempts, n).len() + attempts.take(n as int).filter(
            |a: LockAttempt| a.status == LockStatus::Failed,
        ).len() == n,
    decreases n,
{
    let failed = |a: LockAttempt| a.status == LockStatus::Failed;
    reveal(Seq::filter);
    if n > 0 {
        lemma_succeeded_and_failed(attempts, (n - 1) as nat);
        assert(attempts.take(n as int).drop_last() =~= attempts.take(n - 1));
        assert(attempts.take(n as int).last() == attempts[n - 1]);
    }
}

/// Of the tasks worth another try the heaviest is tried, and where there is none, nothing happens.
pub proof fn law_the_heaviest_is_retried(
    runnable_queue: &mut ModeSpecificTaskQueue,
    book: &mut AddressBook,
    count: usize,
    r: Option<(TaskSource, TaskInQueue)>,
    weight: UniqueWeight,
)
    requires
        call_ensures(
            ScheduleStage::select_next_task_to_lock,
            (runnable_queue, book, &TaskSelection::OnlyFromContended(count)),
            r,
        ),
        old(book).retryable_task_queue@.dom().contains(weight),
        forall|j: UniqueWeight| #[trigger]
            old(book).retryable_task_queue@.dom().contains(j) ==> j <= weight,
    ensures
        r == Some((TaskSource::Contended, TaskInQueue(old(book).retryable_task_queue@[weight]))),
        final(book).retryable_task_queue@ == old(book).retryable_task_queue@.remove(weight),
        *final(runnable_queue) == *old(runnable_queue),
        final(book).pages == old(book).pages,
{
    let queue = old(book).retryable_task_queue@;
    match r {
        Some((source, task)) => {
            let k = choose|k: UniqueWeight| #[trigger]
                is_heaviest(queue, k) && queue[k] == task.0
                    && final(book).retryable_task_queue@ == queue.remove(k);
            assert(queue.dom().contains(k) && k <= weight);
            assert(weight <= k);
        },
        None => {
            assert(queue.dom().contains(weight));
        },
    }
}

/// New tasks are tried in the order in which they came in.
pub proof fn law_new_tasks_come_in_order(
    runnable_queue: &mut ModeSpecificTaskQueue,
    book: &mut AddressBook,
    r: Option<(TaskSource, TaskInQueue)>,
    task: TaskInQueue,
)
    requires
        call_ensures(
            ScheduleStage::select_next_task_to_lock,
            (runnable_queue, book, &TaskSelection::OnlyFromRunnable),
            r,
        ),
        old(runnable_queue).queue().buffered_task is None,
        old(runnable_queue).queue().channel@.len() > 0,
        old(runnable_queue).queue().channel@[0].0 == Flushable::Payload(task),
    ensures
        r == Some((TaskSource::Runnable, task)),
        final(runnable_queue).queue().channel@ == old(runnable_queue).queue().channel@.skip(1),
        final(book).retryable_task_queue@ == old(book).retryable_task_queue@,
{
}

/// A task that failed to get all its locks, and gave back those that it got, leaves every page in use
/// as it was.
pub proof fn law_reset_leaves_pages_as_they_were(
    book: &mut AddressBook,
    unique_weight: UniqueWeight,
    lock_attempts: &mut Vec<LockAttempt>,
    failed: usize,
    later: &mut AddressBook,
)
    requires
        old(book).wf(),
        call_ensures(attempt_lock_for_execution, (book, unique_weight, lock_attempts), failed),
        *old(later) == *final(book),
        call_ensures(
            ScheduleStage::reset_lock_for_failed_execution,
            (later, &*final(lock_attempts)),
            (),
        ),
    ensures
        final(later).pages@ == old(book).pages@,
        final(later).retryable_task_queue == old(book).retryable_task_queue,
{
    let before = *old(book);
    let after = *final(later);
    law_unlock_undoes_lock(before, unique_weight, old(lock_attempts)@);
    assert forall|p: int| 0 <= p < before.pages@.len() implies after.pages@[p]
        == before.pages@[p] by {
        assert(before.page(PageRc(p as usize)) == before.pages@[p]);
        assert(after.page(PageRc(p as usize)) == after.pages@[p]);
        assert(final(book).pages@[p].address == before.pages@[p].address);
    }
    assert(after.pages@ =~= before.pages@);
}

/// A blocked task that gets its locks lets others read along: where it reads a page, the heaviest of
/// the contended tasks that wait for the page is worth another try.
pub proof fn law_readers_are_let_in(
    book: &mut AddressBook,
    tasks: &mut Vec<Task>,
    next_task: TaskInQueue,
    r: (TaskInQueue, Vec<LockAttempt>),
    i: int,
    k: UniqueWeight,
)
    requires
        next_task.0 < old(tasks)@.len(),
        call_ensures(
            ScheduleStage::try_lock_for_task,
            (book, tasks, TaskSource::Contended, next_task),
            Some(r),
        ),
        0 <= i < old(tasks)@[next_task.0 as int].lock_attempts@.len(),
        old(tasks)@[next_task.0 as int].lock_attempts@[i].requested_usage
            == RequestedUsage::Readonly,
        ({
            let queue = old(book).pages@[old(
                tasks,
            )@[next_task.0 as int].lock_attempts@[i].page.0 as int].blocked_task_queue@;
            &&& queue.dom().contains(k)
            &&& final(tasks)@[queue[k] as int].uncontended == Contention::Contended
            &&& forall|j: UniqueWeight| #[trigger]
                queue.dom().contains(j) && final(tasks)@[queue[j] as int].uncontended
                    == Contention::Contended ==> j <= k
        }),
    ensures
        ({
            let queue = old(book).pages@[old(
                tasks,
            )@[next_task.0 as int].lock_attempts@[i].page.0 as int].blocked_task_queue@;
            final(book).retryable_task_queue@.dom().contains(
                final(tasks)@[queue[k] as int].unique_weight,
            )
        }),
{
    let attempts = old(tasks)@[next_task.0 as int].lock_attempts@;
    let queue = old(book).pages@[attempts[i].page.0 as int].blocked_task_queue@;
    assert(old(book).page(attempts[i].page) == old(book).pages@[attempts[i].page.0 as int]);
    lemma_heaviest_is_found(queue, final(tasks)@, k);
    lemma_retryable_after_lock_grows(
        *old(book),
        final(tasks)@,
        attempts,
        (i + 1) as nat,
        attempts.len(),
        final(tasks)@[queue[k] as int].unique_weight,
    );
}

proof fn lemma_retryable_after_lock_grows(
    book: AddressBook,
    tasks: Seq<Task>,
    attempts: Seq<LockAttempt>,
    n: nat,
    m: nat,
    weight: UniqueWeight,
)
    requires
        n <= m,
        retryable_after_lock(book, tasks, attempts, n).dom().contains(weight),
    ensures
        retryable_after_lock(book, tasks, attempts, m).dom().contains(weight),
    decreases m - n,
{
    if n < m {
        lemma_retryable_after_lock_grows(book, tasks, attempts, n, (m - 1) as nat, weight);
    }
}

/// A task that is blocked again stays as it is: every page is in use, and waited for, as before.
pub proof fn law_a_blocked_task_changes_nothing(
    book: &mut AddressBook,
    tasks: &mut Vec<Task>,
    next_task: TaskInQueue,
)
    requires
        next_task.0 < old(tasks)@.len(),
        call_ensures(
            ScheduleStage::try_lock_for_task,
            (book, tasks, TaskSource::Contended, next_task),
            None,
        ),
    ensures
        final(book).pages@ == old(book).pages@,
        final(book).retryable_task_queue@ == old(book).retryable_task_queue@,
        final(tasks)@[next_task.0 as int].uncontended == old(
            tasks,
        )@[next_task.0 as int].uncontended,
        old(tasks)@[next_task.0 as int].contention_count < usize::MAX ==> final(tasks)@[next_task.0 as int].contention_count == old(tasks)@[next_task.0 as int].contention_count
            + 1,
{
}

/// Trying the locks of a task changes no other task.
pub proof fn law_other_tasks_stay(
    book: &mut AddressBook,
    tasks: &mut Vec<Task>,
    source: TaskSource,
    next_task: TaskInQueue,
    r: Option<(TaskInQueue, Vec<LockAttempt>)>,
    j: int,
)
    requires
        call_ensures(ScheduleStage::try_lock_for_task, (book, tasks, source, next_task), r),
        0 <= j < old(tasks)@.len(),
        j != next_task.0,
    ensures
        final(tasks)@.len() == old(tasks)@.len(),
        final(tasks)@[j] == old(tasks)@[j],
{
}

/// What waits to write a page keeps waiting for it, among the others, when one more task comes to wait.
pub proof fn law_writers_keep_waiting(
    book: &mut AddressBook,
    unique_weight: UniqueWeight,
    task: TaskInQueue,
    lock_attempts: &Vec<LockAttempt>,
    p: int,
)
    requires
        call_ensures(Task::index_with_pages, (book, unique_weight, task, lock_attempts), ()),
        0 <= p < old(book).pages@.len(),
        crate::scheduler_pool::address_book::writers_wait(old(book).pages@[p]),
    ensures
        crate::scheduler_pool::address_book::writers_wait(final(book).pages@[p]),
{
    let n = lock_attempts@.len() as int;
    assert(indexed_page(
        old(book).pages@[p],
        final(book).pages@[p],
        p,
        lock_attempts@,
        n,
        unique_weight,
        task,
    ));
    if write_targeted(lock_attempts@, n, p) {
        let i = choose|i: int|
            0 <= i < n && (#[trigger] lock_attempts@[i]).page.0 == p
                && lock_attempts@[i].requested_usage == RequestedUsage::Writable;
        assert(lock_attempts@[i].page.0 == p);
        assert(targeted(lock_attempts@, n, p));
    }
}

/// What is handed out for execution is the task that was selected, with all its locks and with nothing
/// known of its outcome: of those worth another try that is the heaviest.
pub proof fn law_what_is_handed_out(
    runnable_queue: &mut ModeSpecificTaskQueue,
    book: &mut AddressBook,
    tasks: &mut Vec<Task>,
    count: usize,
    ee: Box<ExecutionEnvironment>,
    weight: UniqueWeight,
    i: int,
)
    requires
        call_ensures(
            ScheduleStage::schedule_next_execution,
            (runnable_queue, book, tasks, &TaskSelection::OnlyFromContended(count)),
            Some(ee),
        ),
        old(book).retryable_task_queue@.dom().contains(weight),
        forall|j: UniqueWeight| #[trigger]
            old(book).retryable_task_queue@.dom().contains(j) ==> j <= weight,
        0 <= i < ee.finalized_lock_attempts@.len(),
    ensures
        ee.task.0 == old(book).retryable_task_queue@[weight],
        ee.finalized_lock_attempts@.len() == old(tasks)@[ee.task.0 as int].lock_attempts@.len(),
        ee.finalized_lock_attempts@[i].status == LockStatus::Succeded,
        ee.finalized_lock_attempts@[i].page == old(
            tasks,
        )@[ee.task.0 as int].lock_attempts@[i].page,
        ee.result_with_timings.0 is Ok,
        ee.result_with_timings.1.execute_us == 0,
        *final(runnable_queue) == *old(runnable_queue),
{
    let queue = old(book).retryable_task_queue@;
    let (book1, selection) = choose|
        book1: AddressBook,
        selection: Option<(TaskSource, TaskInQueue)>,
    |
        {
            &&& book1.pages == old(book).pages
            &&& book1.held == old(book).held
            &&& book1.entries() == old(book).entries()
            &&& selected(
                *old(runnable_queue),
                *final(runnable_queue),
                queue,
                book1.retryable_task_queue@,
                TaskSelection::OnlyFromContended(count),
                selection,
            )
            &&& #[trigger] scheduled(
                book1,
                *final(book),
                old(tasks)@,
                final(tasks)@,
                selection,
                Some(ee),
            )
        };
    assert(queue.dom().contains(weight));
    let (source, task) = selection->0;
    let k = choose|k: UniqueWeight| #[trigger]
        is_heaviest(queue, k) && queue[k] == task.0 && book1.retryable_task_queue@ == queue.remove(
            k,
        );
    assert(queue.dom().contains(k) && k <= weight);
    assert(weight <= k);
    let t0 = old(tasks)@[task.0 as int];
    assert(status_of(book1, t0.unique_weight, t0.lock_attempts@, i) == LockStatus::Succeded);
}

} // verus!
