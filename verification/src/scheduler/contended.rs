//! The tasks that wait for pages.

use crate::collections::skip_map_prev;
use crate::scheduler::address_book::{AddressBook, Page};
use crate::scheduler::locking;
use crate::scheduler::task;
use crate::scheduler::task::{
    Contention, LockAttempt, Task, TaskIds, TaskInQueue, UniqueWeight, CU,
};
use crate::scheduler::usage::{PageRc, RequestedUsage};
use crate::types::TransactionError;
use vstd::prelude::*;

verus! {

/// The task under weight `k` waits.
pub open spec fn contended_at(
    queue: Map<UniqueWeight, usize>,
    tasks: Seq<Task>,
    k: UniqueWeight,
) -> bool {
    queue.dom().contains(k) && tasks[queue[k] as int].uncontended == Contention::Contended
}

/// No task of weight `k` or heavier waits: a walk from the heaviest task down comes to `k`.
pub open spec fn walked(
    queue: Map<UniqueWeight, usize>,
    tasks: Seq<Task>,
    k: UniqueWeight,
) -> bool {
    queue.dom().contains(k) && forall|j: UniqueWeight| #[trigger]
        queue.dom().contains(j) && k <= j ==> !contended_at(queue, tasks, j)
}

/// `k` is dropped from the queue: it is the weight of the task to remove, or the walk from the
/// heaviest task down to the first that waits comes to it and finds it finished.
pub open spec fn dropped(
    queue: Map<UniqueWeight, usize>,
    tasks: Seq<Task>,
    should_remove: bool,
    uq: UniqueWeight,
    k: UniqueWeight,
) -> bool {
    ||| should_remove && k == uq
    ||| walked(queue, tasks, k) && (k == uq || tasks[queue[k] as int].uncontended
        == Contention::Finished)
}

/// The queue without what is dropped.
pub open spec fn swept(
    queue: Map<UniqueWeight, usize>,
    tasks: Seq<Task>,
    should_remove: bool,
    uq: UniqueWeight,
) -> Map<UniqueWeight, usize> {
    queue.remove_keys(Set::new(|k: UniqueWeight| dropped(queue, tasks, should_remove, uq, k)))
}

/// `k` is the weight of the heaviest task that waits.
pub open spec fn is_heaviest_contended(
    queue: Map<UniqueWeight, usize>,
    tasks: Seq<Task>,
    k: UniqueWeight,
) -> bool {
    contended_at(queue, tasks, k) && forall|j: UniqueWeight| #[trigger]
        queue.dom().contains(j) && contended_at(queue, tasks, j) ==> j <= k
}

/// The heaviest task that waits, if any does.
pub open spec fn heaviest_contended(
    queue: Map<UniqueWeight, usize>,
    tasks: Seq<Task>,
) -> Option<TaskInQueue> {
    if exists|k: UniqueWeight| is_heaviest_contended(queue, tasks, k) {
        Some(TaskInQueue(queue[choose|k: UniqueWeight| is_heaviest_contended(queue, tasks, k)]))
    } else {
        None
    }
}

/// All tasks of the queue are known.
pub open spec fn queue_known(queue: Map<UniqueWeight, usize>, tasks: Seq<Task>) -> bool {
    forall|k: UniqueWeight| #[trigger] queue.dom().contains(k) ==> queue[k] < tasks.len()
}

impl TaskIds {
    /// Walks from the heaviest task down to the first that waits, drops the finished ones and the
    /// task to remove, and returns the task that waits.
    pub fn sweep(&mut self, should_remove: bool, uq: UniqueWeight, tasks: &Vec<Task>) -> (r: Option<
        TaskInQueue,
    >)
        requires
            queue_known(old(self)@, tasks@),
            walked(old(self)@, tasks@, uq) ==> should_remove,
            should_remove && old(self)@.dom() != Set::<UniqueWeight>::empty()
                ==> old(self)@.dom().contains(uq),
        ensures
            final(self)@ == swept(old(self)@, tasks@, should_remove, uq),
            r == heaviest_contended(old(self)@, tasks@),
    {
        let ghost queue = self@;
        let mut cursor = self.heaviest_task_cursor();
        let had_any = cursor.is_some();
        let mut removed = false;
        let mut found: Option<TaskInQueue> = None;
        let mut done = false;
        while !done
            invariant
                queue == old(self)@,
                queue_known(queue, tasks@),
                walked(queue, tasks@, uq) ==> should_remove,
                had_any == (queue.dom() != Set::<UniqueWeight>::empty()),
                !done ==> match cursor {
                    Some((k, t)) => {
                        &&& queue.dom().contains(k)
                        &&& queue[k] == t.0
                        &&& found is None
                        &&& forall|j: UniqueWeight| #[trigger]
                            queue.dom().contains(j) && k < j ==> !contended_at(queue, tasks@, j)
                        &&& forall|j: UniqueWeight| #[trigger]
                            self@.dom().contains(j) <==> queue.dom().contains(j) && !(k < j && (j
                                == uq || tasks@[queue[j] as int].uncontended
                                == Contention::Finished))
                        &&& removed == (queue.dom().contains(uq) && k < uq)
                    },
                    None => {
                        &&& found is None
                        &&& forall|j: UniqueWeight| #[trigger]
                            queue.dom().contains(j) ==> !contended_at(queue, tasks@, j)
                        &&& forall|j: UniqueWeight| #[trigger]
                            self@.dom().contains(j) <==> queue.dom().contains(j) && !(j == uq
                                || tasks@[queue[j] as int].uncontended == Contention::Finished)
                        &&& removed == queue.dom().contains(uq)
                    },
                },
                forall|j: UniqueWeight| #[trigger]
                    self@.dom().contains(j) ==> self@[j] == queue[j],
                done ==> {
                    &&& found == heaviest_contended(queue, tasks@)
                    &&& forall|j: UniqueWeight| #[trigger]
                        self@.dom().contains(j) <==> queue.dom().contains(j) && !(walked(
                            queue,
                            tasks@,
                            j,
                        ) && (j == uq || tasks@[queue[j] as int].uncontended
                            == Contention::Finished))
                    &&& removed == walked(queue, tasks@, uq)
                },
            decreases
                    if done {
                        0int
                    } else {
                        match cursor {
                            Some((k, _)) => k + 2,
                            None => 1int,
                        }
                    },
        {
            match cursor {
                None => {
                    done = true;
                    proof {
                        assert forall|j: UniqueWeight| #[trigger]
                            queue.dom().contains(j) implies walked(queue, tasks@, j) by {}
                    }
                },
                Some((k, t)) => {
                    if tasks[t.0].currently_contended() {
                        found = Some(t);
                        done = true;
                        proof {
                            assert(is_heaviest_contended(queue, tasks@, k));
                            assert forall|j: UniqueWeight| #[trigger]
                                queue.dom().contains(j) implies walked(queue, tasks@, j) == (k
                                < j) by {
                                if j <= k {
                                    assert(contended_at(queue, tasks@, k));
                                }
                            }
                        }
                    } else {
                        assert(self@.dom().contains(k));
                        let prev = skip_map_prev(&self.task_ids, k);
                        let ghost list = self@;
                        if k == uq {
                            self.remove_task(k);
                            removed = true;
                            assert(walked(queue, tasks@, uq));
                        } else if tasks[t.0].already_finished() {
                            self.remove_task(k);
                        }
                        proof {
                            match prev {
                                Some((p, pt)) => {
                                    assert(list.dom().contains(p));
                                    assert forall|j: UniqueWeight| #[trigger]
                                        queue.dom().contains(j) && p < j implies j >= k by {
                                        if j < k {
                                            assert(list.dom().contains(j));
                                        }
                                    }
                                },
                                None => {
                                    assert forall|j: UniqueWeight| #[trigger]
                                        queue.dom().contains(j) implies j >= k by {
                                        if j < k {
                                            assert(list.dom().contains(j));
                                        }
                                    }
                                },
                            }
                        }
                        cursor = match prev {
                            Some((p, pt)) => Some((p, TaskInQueue(pt))),
                            None => None,
                        };
                    }
                },
            }
        }
        if had_any && should_remove && !removed {
            self.remove_task(uq);
        }
        proof {
            if !had_any {
                assert forall|j: UniqueWeight| !queue.dom().contains(j) by {
                    assert(queue.dom() == Set::<UniqueWeight>::empty());
                }
            }
            assert(self@ =~= swept(queue, tasks@, should_remove, uq));
        }
        found
    }
}

/// One of the first `n` attempts is for page `p`.
pub open spec fn targeted(attempts: Seq<LockAttempt>, n: int, p: int) -> bool {
    exists|i: int| 0 <= i < n && (#[trigger] attempts[i]).target.0 == p
}

/// One of the first `n` attempts is to write page `p`.
pub open spec fn write_targeted(attempts: Seq<LockAttempt>, n: int, p: int) -> bool {
    exists|i: int|
        0 <= i < n && (#[trigger] attempts[i]).target.0 == p && attempts[i].requested_usage
            == RequestedUsage::Writable
}

/// No two attempts are for the same page.
pub open spec fn distinct_pages(attempts: Seq<LockAttempt>) -> bool {
    forall|i: int, j: int|
        0 <= i < j < attempts.len() ==> (#[trigger] attempts[i]).target != (
        #[trigger] attempts[j]).target
}

/// A page is targeted by one attempt more exactly if that attempt is for it.
pub proof fn lemma_targeted_step(attempts: Seq<LockAttempt>, i: int, q: int)
    requires
        0 <= i < attempts.len(),
    ensures
        targeted(attempts, i + 1, q) == (targeted(attempts, i, q) || attempts[i].target.0 == q),
        write_targeted(attempts, i + 1, q) == (write_targeted(attempts, i, q) || (
        attempts[i].target.0 == q && attempts[i].requested_usage == RequestedUsage::Writable)),
{
    if targeted(attempts, i + 1, q) {
        let k = choose|k: int| 0 <= k < i + 1 && (#[trigger] attempts[k]).target.0 == q;
        assert(k < i || k == i);
    }
    if write_targeted(attempts, i + 1, q) {
        let k = choose|k: int|
            0 <= k < i + 1 && (#[trigger] attempts[k]).target.0 == q && attempts[k].requested_usage
                == RequestedUsage::Writable;
        assert(k < i || k == i);
    }
    if targeted(attempts, i, q) {
        let k = choose|k: int| 0 <= k < i && (#[trigger] attempts[k]).target.0 == q;
        assert(0 <= k < i + 1);
    }
    if write_targeted(attempts, i, q) {
        let k = choose|k: int|
            0 <= k < i && (#[trigger] attempts[k]).target.0 == q && attempts[k].requested_usage
                == RequestedUsage::Writable;
        assert(0 <= k < i + 1);
    }
}

/// Attempts for the same pages and usages target the same pages.
pub proof fn lemma_targeted_same(one: Seq<LockAttempt>, other: Seq<LockAttempt>, n: int, p: int)
    requires
        n <= one.len(),
        n <= other.len(),
        forall|i: int| 0 <= i < n ==> (#[trigger] one[i]).lock() == other[i].lock(),
    ensures
        targeted(one, n, p) == targeted(other, n, p),
        write_targeted(one, n, p) == write_targeted(other, n, p),
{
    if targeted(one, n, p) {
        let i = choose|i: int| 0 <= i < n && (#[trigger] one[i]).target.0 == p;
        assert(one[i].lock() == other[i].lock());
        assert(other[i].target.0 == p);
    }
    if targeted(other, n, p) {
        let i = choose|i: int| 0 <= i < n && (#[trigger] other[i]).target.0 == p;
        assert(one[i].lock() == other[i].lock());
        assert(one[i].target.0 == p);
    }
    if write_targeted(one, n, p) {
        let i = choose|i: int|
            0 <= i < n && (#[trigger] one[i]).target.0 == p && one[i].requested_usage
                == RequestedUsage::Writable;
        assert(one[i].lock() == other[i].lock());
        assert(other[i].target.0 == p);
    }
    if write_targeted(other, n, p) {
        let i = choose|i: int|
            0 <= i < n && (#[trigger] other[i]).target.0 == p && other[i].requested_usage
                == RequestedUsage::Writable;
        assert(one[i].lock() == other[i].lock());
        assert(one[i].target.0 == p);
    }
}

/// The books differ in the queues of pages and in the counts of writers that wait at most.
pub open spec fn same_but_for_queues(before: AddressBook, after: AddressBook) -> bool {
    &&& after.held@ == before.held@
    &&& after.pending@ == before.pending@
    &&& after.entries() == before.entries()
    &&& after.trackers == before.trackers
    &&& after.uncontended_task_ids@ == before.uncontended_task_ids@
    &&& after.fulfilled_provisional_task_ids == before.fulfilled_provisional_task_ids
    &&& after.pages@.len() == before.pages@.len()
    &&& forall|p: int|
        0 <= p < before.pages@.len() ==> #[trigger] after.pages@[p] == (Page {
            contended_write_task_count: after.pages@[p].contended_write_task_count,
            contended_unique_weights: after.pages@[p].contended_unique_weights,
            ..before.pages@[p]
        })
}

/// Whether a book is well-formed does not depend on which tasks wait.
pub proof fn lemma_queues_changed(before: AddressBook, after: AddressBook)
    requires
        before.wf(),
        same_but_for_queues(before, after),
    ensures
        after.wf(),
        before.steady() ==> after.steady(),
{
    assert forall|q: PageRc| q.0 < after.pages@.len() implies #[trigger] after.page_wf(q) by {
        assert(before.page_wf(q));
        assert(after.pages@[q.0 as int].current_usage == before.pages@[q.0 as int].current_usage);
    }
    assert forall|q: int| 0 <= q < after.pages@.len() implies after.entries().dom().contains(
        (#[trigger] after.pages@[q]).address.0,
    ) && after.entries()[after.pages@[q].address.0] == q by {
        assert(before.pages@[q].address == after.pages@[q].address);
    }
    assert forall|a: [u8; 32]| #[trigger] after.entries().dom().contains(a) implies
        after.entries()[a] < after.pages@.len()
        && after.pages@[after.entries()[a] as int].address.0 == a by {
        let q = before.entries()[a] as int;
        assert(before.pages@[q].address.0 == a);
        assert(after.pages@[q].address == before.pages@[q].address);
    }
    if before.steady() {
        assert forall|q: PageRc|
            q.0 < after.pages@.len() && (#[trigger] after.page(q)).current_usage
                == crate::scheduler::usage::Usage::Unused implies after.page(q).next_usage
            == crate::scheduler::usage::Usage::Unused by {
            assert(before.page(q) == before.pages@[q.0 as int]);
            assert(after.pages@[q.0 as int].current_usage
                == before.pages@[q.0 as int].current_usage);
        }
    }
}

/// The queue of a page, and its count of writers that wait, after the task joined those of the
/// first `n` attempts' pages.
pub open spec fn indexed_page(
    before: Page,
    after: Page,
    p: int,
    attempts: Seq<LockAttempt>,
    n: int,
    unique_weight: UniqueWeight,
    task: TaskInQueue,
) -> bool {
    &&& after.contended_unique_weights@ == if targeted(attempts, n, p) {
        before.contended_unique_weights@.insert(unique_weight, task.0)
    } else {
        before.contended_unique_weights@
    }
    &&& after.contended_write_task_count == if write_targeted(attempts, n, p) {
        before.contended_write_task_count + 1
    } else {
        before.contended_write_task_count as int
    }
}

/// The task now waits for the pages of the first `n` attempts, and nothing else changed.
pub open spec fn indexed(
    before: AddressBook,
    after: AddressBook,
    attempts: Seq<LockAttempt>,
    n: int,
    unique_weight: UniqueWeight,
    task: TaskInQueue,
) -> bool {
    &&& same_but_for_queues(before, after)
    &&& forall|p: int|
        0 <= p < before.pages@.len() ==> indexed_page(
            #[trigger] before.pages@[p],
            after.pages@[p],
            p,
            attempts,
            n,
            unique_weight,
            task,
        )
}

/// The task can wait for its pages: it is not among those that do yet, wants no page twice, and
/// there is room to count one writer more.
pub open spec fn can_wait(
    book: AddressBook,
    unique_weight: UniqueWeight,
    attempts: Seq<LockAttempt>,
) -> bool {
    &&& distinct_pages(attempts)
    &&& forall|i: int|
        0 <= i < attempts.len() ==> !book.pages@[(
        #[trigger] attempts[i]).target.0 as int].contended_unique_weights@.dom().contains(
            unique_weight,
        ) && (attempts[i].requested_usage == RequestedUsage::Writable
            ==> book.pages@[attempts[i].target.0 as int].contended_write_task_count < usize::MAX)
}

impl Task {
    /// Lets the task wait for the pages of its attempts.
    pub fn index_with_address_book(
        book: &mut AddressBook,
        unique_weight: UniqueWeight,
        task: TaskInQueue,
        lock_attempts: &Vec<LockAttempt>,
    )
        requires
            old(book).wf(),
            locking::in_book(*old(book), lock_attempts@),
            can_wait(*old(book), unique_weight, lock_attempts@),
        ensures
            final(book).wf(),
            old(book).steady() ==> final(book).steady(),
            indexed(
                *old(book),
                *final(book),
                lock_attempts@,
                lock_attempts@.len() as int,
                unique_weight,
                task,
            ),
    {
        let ghost attempts = lock_attempts@;
        let mut i: usize = 0;
        while i < lock_attempts.len()
            invariant
                i <= attempts.len(),
                attempts == lock_attempts@,
                locking::in_book(*old(book), attempts),
                can_wait(*old(book), unique_weight, attempts),
                indexed(*old(book), *book, attempts, i as int, unique_weight, task),
            decreases attempts.len() - i,
        {
            let p: usize = lock_attempts[i].target.0;
            let ghost book0 = *book;
            proof {
                assert(attempts[i as int].target.0 == p);
                assert(!targeted(attempts, i as int, p as int));
                assert(!write_targeted(attempts, i as int, p as int));
                assert(indexed_page(
                    old(book).pages@[p as int],
                    book.pages@[p as int],
                    p as int,
                    attempts,
                    i as int,
                    unique_weight,
                    task,
                ));
            }
            book.pages[p].contended_unique_weights.insert_task(unique_weight, task);
            if lock_attempts[i].requested_usage == RequestedUsage::Writable {
                let count: usize = book.pages[p].contended_write_task_count;
                book.pages[p].contended_write_task_count = count + 1;
            }
            proof {
                assert forall|q: int| 0 <= q < old(book).pages@.len() implies indexed_page(
                    #[trigger] old(book).pages@[q],
                    book.pages@[q],
                    q,
                    attempts,
                    i + 1,
                    unique_weight,
                    task,
                ) by {
                    assert(indexed_page(
                        old(book).pages@[q],
                        book0.pages@[q],
                        q,
                        attempts,
                        i as int,
                        unique_weight,
                        task,
                    ));
                    lemma_targeted_step(attempts, i as int, q);
                }
                assert forall|q: int| 0 <= q < old(book).pages@.len() implies (
                #[trigger] book.pages@[q]) == (Page {
                    contended_write_task_count: book.pages@[q].contended_write_task_count,
                    contended_unique_weights: book.pages@[q].contended_unique_weights,
                    ..old(book).pages@[q]
                }) by {
                    assert(book0.pages@[q] == (Page {
                        contended_write_task_count: book0.pages@[q].contended_write_task_count,
                        contended_unique_weights: book0.pages@[q].contended_unique_weights,
                        ..old(book).pages@[q]
                    }));
                }
            }
            i = i + 1;
        }
        proof {
            lemma_queues_changed(*old(book), *book);
        }
    }
}

/// A task under execution with the locks it holds, what its execution costs, and how it came out.
#[derive(Debug)]
pub struct ExecutionEnvironment {
    pub cu: CU,
    pub unique_weight: UniqueWeight,
    pub task: TaskInQueue,
    pub finalized_lock_attempts: Vec<LockAttempt>,
    pub is_reindexed: bool,
    pub execution_result: Option<Result<(), TransactionError>>,
}

/// The queue of a page, and its count of writers that wait, after the pages of the first `n`
/// attempts were swept.
pub open spec fn reindexed_page(
    before: Page,
    after: Page,
    p: int,
    attempts: Seq<LockAttempt>,
    n: int,
    tasks: Seq<Task>,
    should_remove: bool,
    uq: UniqueWeight,
) -> bool {
    &&& after.contended_unique_weights@ == if targeted(attempts, n, p) {
        swept(before.contended_unique_weights@, tasks, should_remove, uq)
    } else {
        before.contended_unique_weights@
    }
    &&& after.contended_write_task_count == if should_remove && write_targeted(attempts, n, p) {
        before.contended_write_task_count - 1
    } else {
        before.contended_write_task_count as int
    }
}

/// The pages of the first `n` attempts were swept, and nothing else changed.
pub open spec fn reindexed(
    before: AddressBook,
    after: AddressBook,
    attempts: Seq<LockAttempt>,
    n: int,
    tasks: Seq<Task>,
    should_remove: bool,
    uq: UniqueWeight,
) -> bool {
    &&& same_but_for_queues(before, after)
    &&& forall|p: int|
        0 <= p < before.pages@.len() ==> reindexed_page(
            #[trigger] before.pages@[p],
            after.pages@[p],
            p,
            attempts,
            n,
            tasks,
            should_remove,
            uq,
        )
}

/// An attempt that knows which task is to try next.
pub open spec fn informed(book: AddressBook, tasks: Seq<Task>, attempt: LockAttempt) -> LockAttempt {
    LockAttempt {
        heaviest_uncontended: match heaviest_contended(
            book.page(attempt.target).contended_unique_weights@,
            tasks,
        ) {
            Some(task) => Some(task),
            None => attempt.heaviest_uncontended,
        },
        ..attempt
    }
}

/// The page of an attempt can be swept: its tasks are known, the task to remove waits for it, and
/// is counted if it waits to write.
pub open spec fn can_sweep(
    page: Page,
    tasks: Seq<Task>,
    should_remove: bool,
    uq: UniqueWeight,
    usage: RequestedUsage,
) -> bool {
    let queue = page.contended_unique_weights@;
    &&& queue_known(queue, tasks)
    &&& walked(queue, tasks, uq) ==> should_remove
    &&& should_remove && queue.dom() != Set::<UniqueWeight>::empty() ==> queue.dom().contains(uq)
    &&& should_remove && usage == RequestedUsage::Writable ==> page.contended_write_task_count > 0
}

/// Sweeping twice without a task to remove is sweeping once.
proof fn lemma_sweep_twice(queue: Map<UniqueWeight, usize>, tasks: Seq<Task>, uq: UniqueWeight)
    requires
        !walked(queue, tasks, uq),
    ensures
        !walked(swept(queue, tasks, false, uq), tasks, uq),
        swept(swept(queue, tasks, false, uq), tasks, false, uq) == swept(queue, tasks, false, uq),
        heaviest_contended(swept(queue, tasks, false, uq), tasks) == heaviest_contended(
            queue,
            tasks,
        ),
{
    let once = swept(queue, tasks, false, uq);
    assert forall|k: UniqueWeight| #[trigger] once.dom().contains(k) implies walked(once, tasks, k)
        == walked(queue, tasks, k) by {
        if walked(once, tasks, k) {
            assert forall|j: UniqueWeight| #[trigger]
                queue.dom().contains(j) && k <= j implies !contended_at(queue, tasks, j) by {
                if contended_at(queue, tasks, j) {
                    assert(!walked(queue, tasks, j));
                    assert(once.dom().contains(j));
                    assert(contended_at(once, tasks, j));
                }
            }
        }
        if walked(queue, tasks, k) {
            assert forall|j: UniqueWeight| #[trigger]
                once.dom().contains(j) && k <= j implies !contended_at(once, tasks, j) by {
                assert(queue.dom().contains(j));
            }
        }
    }
    assert(swept(once, tasks, false, uq) =~= once);
    assert forall|k: UniqueWeight| is_heaviest_contended(once, tasks, k) == is_heaviest_contended(
        queue,
        tasks,
        k,
    ) by {
        if is_heaviest_contended(queue, tasks, k) {
            assert(!walked(queue, tasks, k));
            assert(once.dom().contains(k));
            assert forall|j: UniqueWeight| #[trigger]
                once.dom().contains(j) && contended_at(once, tasks, j) implies j <= k by {
                assert(queue.dom().contains(j) && contended_at(queue, tasks, j));
            }
        }
        if is_heaviest_contended(once, tasks, k) {
            assert forall|j: UniqueWeight| #[trigger]
                queue.dom().contains(j) && contended_at(queue, tasks, j) implies j <= k by {
                assert(!walked(queue, tasks, j));
                assert(once.dom().contains(j) && contended_at(once, tasks, j));
            }
        }
    }
    if exists|k: UniqueWeight| is_heaviest_contended(queue, tasks, k) {
        let k = choose|k: UniqueWeight| is_heaviest_contended(queue, tasks, k);
        assert(is_heaviest_contended(once, tasks, k));
        let j = choose|j: UniqueWeight| is_heaviest_contended(once, tasks, j);
        assert(is_heaviest_contended(queue, tasks, j));
        assert(queue.dom().contains(j) && queue.dom().contains(k));
        assert(j == k);
    } else {
        assert forall|k: UniqueWeight| !is_heaviest_contended(once, tasks, k) by {
            assert(!is_heaviest_contended(queue, tasks, k));
        }
    }
}

impl ExecutionEnvironment {
    /// Takes the executed task off the queues of its pages, if it was in them, and notes for each
    /// lock which task is to try next.
    pub fn reindex_with_address_book(&mut self, book: &mut AddressBook, tasks: &Vec<Task>)
        requires
            !old(self).is_reindexed,
            old(self).task.0 < tasks@.len(),
            old(book).wf(),
            locking::in_book(*old(book), old(self).finalized_lock_attempts@),
            ({
                let should_remove = tasks@[old(self).task.0 as int].contention_count > 0;
                let attempts = old(self).finalized_lock_attempts@;
                &&& should_remove ==> distinct_pages(attempts)
                &&& forall|i: int|
                    0 <= i < attempts.len() ==> can_sweep(
                        old(book).page((#[trigger] attempts[i]).target),
                        tasks@,
                        should_remove,
                        old(self).unique_weight,
                        attempts[i].requested_usage,
                    )
            }),
        ensures
            final(book).wf(),
            old(book).steady() ==> final(book).steady(),
            reindexed(
                *old(book),
                *final(book),
                old(self).finalized_lock_attempts@,
                old(self).finalized_lock_attempts@.len() as int,
                tasks@,
                tasks@[old(self).task.0 as int].contention_count > 0,
                old(self).unique_weight,
            ),
            final(self).is_reindexed,
            final(self).cu == old(self).cu,
            final(self).unique_weight == old(self).unique_weight,
            final(self).task == old(self).task,
            final(self).execution_result == old(self).execution_result,
            final(self).finalized_lock_attempts@ == Seq::new(
                old(self).finalized_lock_attempts@.len(),
                |i: int| informed(*old(book), tasks@, old(self).finalized_lock_attempts@[i]),
            ),
    {
        self.is_reindexed = true;
        let uq: UniqueWeight = self.unique_weight;
        let should_remove = tasks[self.task.0].contention_count > 0;
        let ghost attempts = self.finalized_lock_attempts@;
        let mut i: usize = 0;
        while i < self.finalized_lock_attempts.len()
            invariant
                i <= attempts.len(),
                attempts == old(self).finalized_lock_attempts@,
                self.finalized_lock_attempts@.len() == attempts.len(),
                uq == old(self).unique_weight,
                self.is_reindexed,
                self.cu == old(self).cu,
                self.unique_weight == old(self).unique_weight,
                self.task == old(self).task,
                self.execution_result == old(self).execution_result,
                forall|j: int|
                    i <= j < attempts.len() ==> #[trigger] self.finalized_lock_attempts@[j]
                        == attempts[j],
                forall|j: int|
                    0 <= j < i ==> #[trigger] self.finalized_lock_attempts@[j] == informed(
                        *old(book),
                        tasks@,
                        attempts[j],
                    ),
                locking::in_book(*old(book), attempts),
                should_remove ==> distinct_pages(attempts),
                forall|j: int|
                    0 <= j < attempts.len() ==> can_sweep(
                        old(book).page((#[trigger] attempts[j]).target),
                        tasks@,
                        should_remove,
                        uq,
                        attempts[j].requested_usage,
                    ),
                reindexed(*old(book), *book, attempts, i as int, tasks@, should_remove, uq),
            decreases attempts.len() - i,
        {
            let ghost book0 = *book;
            let p: usize = self.finalized_lock_attempts[i].target.0;
            let ghost page = old(book).pages@[p as int];
            let ghost queue = page.contended_unique_weights@;
            proof {
                assert(self.finalized_lock_attempts@[i as int] == attempts[i as int]);
                assert(attempts[i as int].target.0 == p);
                assert(old(book).page(attempts[i as int].target) == page);
                assert(can_sweep(
                    page,
                    tasks@,
                    should_remove,
                    uq,
                    attempts[i as int].requested_usage,
                ));
                assert(reindexed_page(
                    page,
                    book.pages@[p as int],
                    p as int,
                    attempts,
                    i as int,
                    tasks@,
                    should_remove,
                    uq,
                ));
                if should_remove {
                    assert(!targeted(attempts, i as int, p as int));
                    assert(!write_targeted(attempts, i as int, p as int));
                } else {
                    lemma_sweep_twice(queue, tasks@, uq);
                }
            }
            if let Some(task) = book.pages[p].contended_unique_weights.sweep(
                should_remove,
                uq,
                tasks,
            ) {
                self.finalized_lock_attempts[i].heaviest_uncontended = Some(task);
            }
            if should_remove && self.finalized_lock_attempts[i].requested_usage
                == RequestedUsage::Writable {
                let count: usize = book.pages[p].contended_write_task_count;
                book.pages[p].contended_write_task_count = count - 1;
            }
            proof {
                assert forall|q: int| 0 <= q < old(book).pages@.len() implies reindexed_page(
                    #[trigger] old(book).pages@[q],
                    book.pages@[q],
                    q,
                    attempts,
                    i + 1,
                    tasks@,
                    should_remove,
                    uq,
                ) by {
                    assert(reindexed_page(
                        old(book).pages@[q],
                        book0.pages@[q],
                        q,
                        attempts,
                        i as int,
                        tasks@,
                        should_remove,
                        uq,
                    ));
                    lemma_targeted_step(attempts, i as int, q);
                }
                assert forall|q: int| 0 <= q < old(book).pages@.len() implies (
                #[trigger] book.pages@[q]) == (Page {
                    contended_write_task_count: book.pages@[q].contended_write_task_count,
                    contended_unique_weights: book.pages@[q].contended_unique_weights,
                    ..old(book).pages@[q]
                }) by {
                    assert(book0.pages@[q] == (Page {
                        contended_write_task_count: book0.pages@[q].contended_write_task_count,
                        contended_unique_weights: book0.pages@[q].contended_unique_weights,
                        ..old(book).pages@[q]
                    }));
                }
            }
            i = i + 1;
        }
        proof {
            lemma_queues_changed(*old(book), *book);
            assert(self.finalized_lock_attempts@ =~= Seq::new(
                attempts.len(),
                |i: int| informed(*old(book), tasks@, attempts[i]),
            ));
        }
    }

    pub fn is_reindexed(&self) -> (r: bool)
        ensures
            r == self.is_reindexed,
    {
        self.is_reindexed
    }

    /// The execution failed.
    pub fn is_aborted(&self) -> (r: bool)
        ensures
            r == (match self.execution_result {
                Some(result) => result is Err,
                None => false,
            }),
    {
        if let Some(r) = &self.execution_result {
            r.is_err()
        } else {
            false
        }
    }
}

/// The heaviest of the tasks that wait is found, whatever stands before it in the queue, and stays in
/// the queue; the task to remove leaves it, and only tasks that are finished leave with it.
pub proof fn law_sweeping_finds_the_heaviest(
    queue: &mut TaskIds,
    should_remove: bool,
    uq: UniqueWeight,
    tasks: &Vec<Task>,
    r: Option<TaskInQueue>,
    k: UniqueWeight,
    other: UniqueWeight,
)
    requires
        call_ensures(TaskIds::sweep, (queue, should_remove, uq, tasks), r),
        old(queue)@.dom().contains(k),
        tasks@[old(queue)@[k] as int].uncontended == Contention::Contended,
        forall|j: UniqueWeight| #[trigger]
            old(queue)@.dom().contains(j) && tasks@[old(queue)@[j] as int].uncontended
                == Contention::Contended ==> j <= k,
    ensures
        r == Some(TaskInQueue(old(queue)@[k])),
        should_remove ==> !final(queue)@.dom().contains(uq),
        old(queue)@.dom().contains(other) && other != uq && tasks@[old(
            queue,
        )@[other] as int].uncontended != Contention::Finished ==> {
            &&& final(queue)@.dom().contains(other)
            &&& final(queue)@[other] == old(queue)@[other]
        },
        final(queue)@.dom().contains(other) ==> old(queue)@.dom().contains(other),
{
    lemma_found(old(queue)@, tasks@, k);
}

pub proof fn lemma_found(queue: Map<UniqueWeight, usize>, tasks: Seq<Task>, k: UniqueWeight)
    requires
        queue.dom().contains(k),
        tasks[queue[k] as int].uncontended == Contention::Contended,
        forall|j: UniqueWeight| #[trigger]
            queue.dom().contains(j) && tasks[queue[j] as int].uncontended == Contention::Contended
                ==> j <= k,
    ensures
        heaviest_contended(queue, tasks) == Some(TaskInQueue(queue[k])),
{
    assert(is_heaviest_contended(queue, tasks, k));
    let c = choose|c: UniqueWeight| is_heaviest_contended(queue, tasks, c);
    assert(is_heaviest_contended(queue, tasks, c));
    assert(queue.dom().contains(c) && c <= k);
    assert(queue.dom().contains(k) && k <= c);
}

/// A task that comes to wait is in the queue of each page that it wants, and is counted among those that
/// wait to write where it wants to write; no other page or task is touched.
pub proof fn law_a_waiting_task_is_in_its_queues(
    book: &mut AddressBook,
    unique_weight: UniqueWeight,
    task: TaskInQueue,
    lock_attempts: &Vec<LockAttempt>,
    p: int,
    other: UniqueWeight,
)
    requires
        call_ensures(
            Task::index_with_address_book,
            (book, unique_weight, task, lock_attempts),
            (),
        ),
        0 <= p < old(book).pages@.len(),
    ensures
        ({
            let before = old(book).pages@[p];
            let after = final(book).pages@[p];
            let wants = exists|i: int|
                0 <= i < lock_attempts@.len() && (#[trigger] lock_attempts@[i]).target.0 == p;
            let writes = exists|i: int|
                0 <= i < lock_attempts@.len() && (#[trigger] lock_attempts@[i]).target.0 == p
                    && lock_attempts@[i].requested_usage == RequestedUsage::Writable;
            &&& wants ==> after.contended_unique_weights@.dom().contains(unique_weight)
                && after.contended_unique_weights@[unique_weight] == task.0
            &&& !wants ==> after.contended_unique_weights@ == before.contended_unique_weights@
            &&& writes ==> after.contended_write_task_count == before.contended_write_task_count + 1
            &&& !writes ==> after.contended_write_task_count == before.contended_write_task_count
            &&& other != unique_weight ==> (after.contended_unique_weights@.dom().contains(other)
                <==> before.contended_unique_weights@.dom().contains(other))
            &&& after.current_usage == before.current_usage
            &&& after.next_usage == before.next_usage
            &&& after.cu == before.cu
        }),
        final(book).uncontended_task_ids@ == old(book).uncontended_task_ids@,
{
    assert(indexed_page(
        old(book).pages@[p],
        final(book).pages@[p],
        p,
        lock_attempts@,
        lock_attempts@.len() as int,
        unique_weight,
        task,
    ));
    assert(final(book).pages@[p].cu == old(book).pages@[p].cu);
}

/// An executed task that was ever blocked leaves the queue of each page that it had and is counted no
/// more among those that wait to write; each of its locks then knows the heaviest of the tasks that
/// wait for the page.
pub proof fn law_an_executed_task_leaves_its_queues(
    ee: &mut ExecutionEnvironment,
    book: &mut AddressBook,
    tasks: &Vec<Task>,
    i: int,
    k: UniqueWeight,
)
    requires
        call_ensures(ExecutionEnvironment::reindex_with_address_book, (ee, book, tasks), ()),
        locking::in_book(*old(book), old(ee).finalized_lock_attempts@),
        0 <= i < old(ee).finalized_lock_attempts@.len(),
    ensures
        ({
            let attempt = old(ee).finalized_lock_attempts@[i];
            let p = attempt.target.0 as int;
            let before = old(book).pages@[p];
            let after = final(book).pages@[p];
            let queue = before.contended_unique_weights@;
            let blocked = tasks@[old(ee).task.0 as int].contention_count > 0;
            &&& blocked ==> !after.contended_unique_weights@.dom().contains(old(ee).unique_weight)
            &&& blocked && attempt.requested_usage == RequestedUsage::Writable
                ==> after.contended_write_task_count == before.contended_write_task_count - 1
            &&& !blocked ==> after.contended_write_task_count == before.contended_write_task_count
            &&& after.current_usage == before.current_usage
            &&& queue.dom().contains(k) && tasks@[queue[k] as int].uncontended
                == Contention::Contended && (forall|j: UniqueWeight| #[trigger]
                queue.dom().contains(j) && tasks@[queue[j] as int].uncontended
                    == Contention::Contended ==> j <= k) ==> {
                &&& final(ee).finalized_lock_attempts@[i].heaviest_uncontended == Some(
                    TaskInQueue(queue[k]),
                )
                &&& k != old(ee).unique_weight ==> after.contended_unique_weights@.dom().contains(k)
            }
            &&& final(ee).finalized_lock_attempts@[i].lock() == attempt.lock()
            &&& final(ee).finalized_lock_attempts@[i].status == attempt.status
        }),
        final(ee).is_reindexed,
        final(ee).cu == old(ee).cu,
        final(ee).task == old(ee).task,
{
    let attempts = old(ee).finalized_lock_attempts@;
    let n = attempts.len() as int;
    let p = attempts[i].target.0 as int;
    let queue = old(book).pages@[p].contended_unique_weights@;
    assert(old(book).page(attempts[i].target) == old(book).pages@[p]);
    assert(reindexed_page(
        old(book).pages@[p],
        final(book).pages@[p],
        p,
        attempts,
        n,
        tasks@,
        tasks@[old(ee).task.0 as int].contention_count > 0,
        old(ee).unique_weight,
    ));
    assert(targeted(attempts, n, p));
    assert(final(book).pages@[p].current_usage == old(book).pages@[p].current_usage);
    if queue.dom().contains(k) && tasks@[queue[k] as int].uncontended == Contention::Contended && (
    forall|j: UniqueWeight| #[trigger]
        queue.dom().contains(j) && tasks@[queue[j] as int].uncontended == Contention::Contended
            ==> j <= k) {
        lemma_found(queue, tasks@, k);
    }
}

} // verus!
