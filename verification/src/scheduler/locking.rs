//! Locking all that a task needs, or nothing of it.

use crate::scheduler::address_book;
use crate::scheduler::address_book::{AddressBook, Page};
use crate::scheduler::task::{LockAttempt, LockStatus, Task, TaskInQueue, UniqueWeight, CU};
use crate::scheduler::usage;
use crate::scheduler::usage::{Lock, PageRc, RequestedUsage, Usage};
use vstd::multiset::Multiset;
use vstd::prelude::*;

verus! {

/// The locks of those of the first `n` attempts that came out as `status`.
pub open spec fn locks_with(attempts: Seq<LockAttempt>, status: LockStatus, n: nat) -> Multiset<Lock>
    decreases n,
{
    if n == 0 {
        Multiset::empty()
    } else {
        let before = locks_with(attempts, status, (n - 1) as nat);
        if attempts[n - 1].status == status {
            before.insert(attempts[n - 1].lock())
        } else {
            before
        }
    }
}

/// The first `n` attempts of a task of weight `unique_weight` after they were made in order: each
/// is decided against the locks held and pending before and those that the attempts ahead of it
/// got.
pub open spec fn tried(
    book: AddressBook,
    immediate: bool,
    unique_weight: UniqueWeight,
    attempts: Seq<LockAttempt>,
    n: nat,
) -> Seq<LockAttempt>
    decreases n,
{
    if n == 0 {
        Seq::empty()
    } else {
        let before = tried(book, immediate, unique_weight, attempts, (n - 1) as nat);
        let attempt = attempts[n - 1];
        before.push(
            LockAttempt {
                status: address_book::decided(
                    book.page(attempt.target),
                    book.held@.add(locks_with(before, LockStatus::Succeded, (n - 1) as nat)),
                    book.pending@.add(locks_with(before, LockStatus::Provisional, (n - 1) as nat)),
                    immediate,
                    unique_weight,
                    attempt.lock(),
                ),
                ..attempt
            },
        )
    }
}

/// All attempts of a task after they were made in order.
pub open spec fn attempted(
    book: AddressBook,
    immediate: bool,
    unique_weight: UniqueWeight,
    attempts: Seq<LockAttempt>,
) -> Seq<LockAttempt> {
    tried(book, immediate, unique_weight, attempts, attempts.len())
}

/// How many of the first `n` attempts came out as `status`.
pub open spec fn count_with(attempts: Seq<LockAttempt>, status: LockStatus, n: nat) -> nat
    decreases n,
{
    if n == 0 {
        0
    } else {
        count_with(attempts, status, (n - 1) as nat) + if attempts[n - 1].status == status {
            1nat
        } else {
            0nat
        }
    }
}

/// What the costliest page of the first `n` attempts has cost, and one at least.
pub open spec fn busiest_cu(book: AddressBook, attempts: Seq<LockAttempt>, n: nat) -> CU
    decreases n,
{
    if n == 0 {
        1
    } else {
        let before = busiest_cu(book, attempts, (n - 1) as nat);
        let cu = book.page(attempts[n - 1].target).cu;
        if cu > before {
            cu
        } else {
            before
        }
    }
}

/// Every attempt is for a page of the book.
pub open spec fn in_book(book: AddressBook, attempts: Seq<LockAttempt>) -> bool {
    forall|i: int|
        0 <= i < attempts.len() ==> (#[trigger] attempts[i]).target.0 < book.pages@.len()
}

/// There is room to count `n` readers more of every page.
pub open spec fn room_for(book: AddressBook, n: nat) -> bool {
    forall|p: PageRc|
        p.0 < book.pages@.len() ==> #[trigger] usage::readers(book.held@, p) + n <= usize::MAX
}

/// The two books differ in the usages of pages at most, besides their locks.
pub open spec fn same_but_for_all_usages(before: AddressBook, after: AddressBook) -> bool {
    &&& after.entries() == before.entries()
    &&& after.trackers == before.trackers
    &&& after.uncontended_task_ids == before.uncontended_task_ids
    &&& after.fulfilled_provisional_task_ids == before.fulfilled_provisional_task_ids
    &&& after.pages@.len() == before.pages@.len()
    &&& forall|p: int|
        0 <= p < before.pages@.len() ==> #[trigger] after.pages@[p] == (Page {
            current_usage: after.pages@[p].current_usage,
            next_usage: after.pages@[p].next_usage,
            ..before.pages@[p]
        })
}

proof fn lemma_tried_prefix(
    book: AddressBook,
    immediate: bool,
    unique_weight: UniqueWeight,
    attempts: Seq<LockAttempt>,
    n: nat,
    i: int,
)
    requires
        0 <= i < n <= attempts.len(),
    ensures
        tried(book, immediate, unique_weight, attempts, n).len() == n,
        tried(book, immediate, unique_weight, attempts, n)[i].target == attempts[i].target,
        tried(book, immediate, unique_weight, attempts, n)[i].requested_usage
            == attempts[i].requested_usage,
        tried(book, immediate, unique_weight, attempts, n)[i].heaviest_uncontended
            == attempts[i].heaviest_uncontended,
    decreases n,
{
    if n == 1 {
        assert(tried(book, immediate, unique_weight, attempts, 0).len() == 0);
    } else {
        if i < n - 1 {
            lemma_tried_prefix(book, immediate, unique_weight, attempts, (n - 1) as nat, i);
        } else {
            lemma_tried_prefix(book, immediate, unique_weight, attempts, (n - 1) as nat, 0);
        }
    }
}

/// Attempts that were made are for the same pages and usages as before.
pub proof fn lemma_attempted(
    book: AddressBook,
    immediate: bool,
    unique_weight: UniqueWeight,
    attempts: Seq<LockAttempt>,
)
    ensures
        attempted(book, immediate, unique_weight, attempts).len() == attempts.len(),
        forall|i: int|
            0 <= i < attempts.len() ==> (#[trigger] attempted(
                book,
                immediate,
                unique_weight,
                attempts,
            )[i]).target == attempts[i].target && attempted(
                book,
                immediate,
                unique_weight,
                attempts,
            )[i].requested_usage == attempts[i].requested_usage && attempted(
                book,
                immediate,
                unique_weight,
                attempts,
            )[i].heaviest_uncontended == attempts[i].heaviest_uncontended,
{
    let made = attempted(book, immediate, unique_weight, attempts);
    if attempts.len() > 0 {
        lemma_tried_prefix(book, immediate, unique_weight, attempts, attempts.len(), 0);
    }
    assert forall|i: int| 0 <= i < attempts.len() implies (#[trigger] made[i]).target
        == attempts[i].target && made[i].requested_usage == attempts[i].requested_usage
        && made[i].heaviest_uncontended == attempts[i].heaviest_uncontended by {
        lemma_tried_prefix(book, immediate, unique_weight, attempts, attempts.len(), i);
    }
}

/// Locks and counts of the first attempts do not depend on those behind them.
pub proof fn lemma_locks_with_prefix(
    one: Seq<LockAttempt>,
    other: Seq<LockAttempt>,
    status: LockStatus,
    n: nat,
)
    requires
        n <= one.len(),
        n <= other.len(),
        forall|i: int| 0 <= i < n ==> #[trigger] one[i] == other[i],
    ensures
        locks_with(one, status, n) == locks_with(other, status, n),
        count_with(one, status, n) == count_with(other, status, n),
    decreases n,
{
    if n > 0 {
        assert(one[n - 1] == other[n - 1]);
        lemma_locks_with_prefix(one, other, status, (n - 1) as nat);
    }
}

/// Locks of some attempts are among those of all.
pub proof fn lemma_locks_with_monotonic(
    attempts: Seq<LockAttempt>,
    status: LockStatus,
    n: nat,
    m: nat,
    lock: Lock,
)
    requires
        n <= m,
    ensures
        locks_with(attempts, status, n).count(lock) <= locks_with(attempts, status, m).count(lock),
    decreases m - n,
{
    if n < m {
        lemma_locks_with_monotonic(attempts, status, n, (m - 1) as nat, lock);
    }
}

/// Attempts hold at most one lock each.
pub proof fn lemma_locks_with_len(attempts: Seq<LockAttempt>, status: LockStatus, n: nat)
    ensures
        locks_with(attempts, status, n).len() == count_with(attempts, status, n),
        count_with(attempts, status, n) <= n,
    decreases n,
{
    if n > 0 {
        lemma_locks_with_len(attempts, status, (n - 1) as nat);
    }
}

/// Tries the locks of a task of weight `unique_weight`, all of them. Returns how many it did not
/// get, how many it got provisionally, and what the costliest page has cost.
pub fn attempt_lock_for_execution(
    from_runnable: bool,
    prefer_immediate: bool,
    book: &mut AddressBook,
    unique_weight: UniqueWeight,
    lock_attempts: &mut Vec<LockAttempt>,
) -> (r: (usize, usize, CU))
    requires
        old(book).wf(),
        old(book).steady(),
        in_book(*old(book), old(lock_attempts)@),
        room_for(*old(book), old(lock_attempts)@.len()),
    ensures
        final(book).wf(),
        final(book).steady(),
        same_but_for_all_usages(*old(book), *final(book)),
        ({
            let attempts = old(lock_attempts)@;
            let made = attempted(
                *old(book),
                from_runnable || prefer_immediate,
                unique_weight,
                attempts,
            );
            &&& final(lock_attempts)@ == made
            &&& final(book).held@ == old(book).held@.add(
                locks_with(made, LockStatus::Succeded, attempts.len()),
            )
            &&& final(book).pending@ == old(book).pending@.add(
                locks_with(made, LockStatus::Provisional, attempts.len()),
            )
            &&& r.0 == count_with(made, LockStatus::Failed, attempts.len())
            &&& r.1 == count_with(made, LockStatus::Provisional, attempts.len())
            &&& r.2 == busiest_cu(*old(book), attempts, attempts.len())
        }),
{
    let mut unlockable_count: usize = 0;
    let mut provisional_count: usize = 0;
    let mut busiest_page_cu: CU = 1;
    let ghost attempts = lock_attempts@;
    let ghost immediate = from_runnable || prefer_immediate;
    assert(book.held@ =~= old(book).held@.add(Multiset::empty()));
    assert(book.pending@ =~= old(book).pending@.add(Multiset::empty()));
    let mut i: usize = 0;
    while i < lock_attempts.len()
        invariant
            i <= attempts.len(),
            lock_attempts@.len() == attempts.len(),
            attempts == old(lock_attempts)@,
            immediate == (from_runnable || prefer_immediate),
            book.wf(),
            book.steady(),
            in_book(*old(book), attempts),
            room_for(*old(book), attempts.len()),
            same_but_for_all_usages(*old(book), *book),
            tried(*old(book), immediate, unique_weight, attempts, i as nat).len() == i,
            forall|j: int| i <= j < attempts.len() ==> #[trigger] lock_attempts@[j] == attempts[j],
            forall|j: int|
                0 <= j < i ==> #[trigger] lock_attempts@[j] == tried(
                    *old(book),
                    immediate,
                    unique_weight,
                    attempts,
                    i as nat,
                )[j],
            book.held@ == old(book).held@.add(
                locks_with(
                    tried(*old(book), immediate, unique_weight, attempts, i as nat),
                    LockStatus::Succeded,
                    i as nat,
                ),
            ),
            book.pending@ == old(book).pending@.add(
                locks_with(
                    tried(*old(book), immediate, unique_weight, attempts, i as nat),
                    LockStatus::Provisional,
                    i as nat,
                ),
            ),
            unlockable_count == count_with(
                tried(*old(book), immediate, unique_weight, attempts, i as nat),
                LockStatus::Failed,
                i as nat,
            ),
            unlockable_count <= i,
            provisional_count <= i,
            provisional_count == count_with(
                tried(*old(book), immediate, unique_weight, attempts, i as nat),
                LockStatus::Provisional,
                i as nat,
            ),
            busiest_page_cu == busiest_cu(*old(book), attempts, i as nat),
        decreases attempts.len() - i,
    {
        let ghost book0 = *book;
        let ghost before = tried(*old(book), immediate, unique_weight, attempts, i as nat);
        let ghost now = tried(*old(book), immediate, unique_weight, attempts, (i + 1) as nat);
        proof {
            assert(lock_attempts@[i as int] == attempts[i as int]);
            lemma_locks_with_len(before, LockStatus::Succeded, i as nat);
            assert(usage::readers(old(book).held@, attempts[i as int].target) + attempts.len()
                <= usize::MAX);
            assert(locks_with(before, LockStatus::Succeded, i as nat).count(
                (attempts[i as int].target, RequestedUsage::Readonly),
            ) <= i);
            let target = attempts[i as int].target;
            assert(book.page(target) == book.pages@[target.0 as int]);
            assert(old(book).pages@[target.0 as int].cu == book.pages@[target.0 as int].cu);
        }
        let cu: CU = book.attempt_lock_address(
            from_runnable,
            prefer_immediate,
            unique_weight,
            &mut lock_attempts[i],
        );
        if cu > busiest_page_cu {
            busiest_page_cu = cu;
        }
        match lock_attempts[i].status {
            LockStatus::Succeded => {},
            LockStatus::Failed => {
                unlockable_count = unlockable_count + 1;
            },
            LockStatus::Provisional => {
                provisional_count = provisional_count + 1;
            },
        }
        proof {
            assert(book0.page(attempts[i as int].target).strictly_lockable(
                unique_weight,
                attempts[i as int].requested_usage,
            ) == old(book).page(attempts[i as int].target).strictly_lockable(
                unique_weight,
                attempts[i as int].requested_usage,
            ));
            assert(now[i as int] == lock_attempts@[i as int]);
            assert forall|j: int| 0 <= j < i implies #[trigger] now[j] == before[j] by {}
            assert(locks_with(now, LockStatus::Succeded, i as nat) == locks_with(
                before,
                LockStatus::Succeded,
                i as nat,
            )) by {
                lemma_locks_with_prefix(now, before, LockStatus::Succeded, i as nat);
            }
            assert(locks_with(now, LockStatus::Provisional, i as nat) == locks_with(
                before,
                LockStatus::Provisional,
                i as nat,
            )) by {
                lemma_locks_with_prefix(now, before, LockStatus::Provisional, i as nat);
            }
            lemma_locks_with_prefix(now, before, LockStatus::Failed, i as nat);
            lemma_locks_with_prefix(now, before, LockStatus::Provisional, i as nat);
            assert(book.held@ =~= old(book).held@.add(
                locks_with(now, LockStatus::Succeded, (i + 1) as nat),
            ));
            assert(book.pending@ =~= old(book).pending@.add(
                locks_with(now, LockStatus::Provisional, (i + 1) as nat),
            ));
            assert(book0.page_wf(attempts[i as int].target));
            assert(book.page_wf(attempts[i as int].target));
            assert(book0.page(attempts[i as int].target).current_usage == Usage::Unused
                ==> book0.page(attempts[i as int].target).next_usage == Usage::Unused);
            lemma_still_steady(book0, *book, attempts[i as int].target);
        }
        i = i + 1;
    }
    assert(lock_attempts@ =~= attempted(*old(book), immediate, unique_weight, attempts));
    (unlockable_count, provisional_count, busiest_page_cu)
}

/// An attempt leaves no page unused with a lock pending.
proof fn lemma_still_steady(before: AddressBook, after: AddressBook, p: PageRc)
    requires
        before.steady(),
        after.wf(),
        address_book::same_but_for_usages(before, after, p),
        p.0 < before.pages@.len(),
        after.page(p).current_usage == Usage::Unused ==> after.page(p).next_usage == Usage::Unused,
    ensures
        after.steady(),
{
    assert forall|q: PageRc|
        q.0 < after.pages@.len() && (#[trigger] after.page(q)).current_usage
            == Usage::Unused implies after.page(q).next_usage == Usage::Unused by {
        if q != p {
            assert(after.pages@[q.0 as int] == before.pages@[q.0 as int]);
            assert(before.page(q) == after.page(q));
        }
    }
}

/// Takes back all that the attempts got.
pub fn reset_lock_for_failed_execution(book: &mut AddressBook, lock_attempts: &Vec<LockAttempt>)
    requires
        old(book).wf(),
        in_book(*old(book), lock_attempts@),
        forall|l: Lock| #[trigger]
            locks_with(lock_attempts@, LockStatus::Succeded, lock_attempts@.len()).count(l) <= old(book).held@.count(l),
        forall|l: Lock| #[trigger]
            locks_with(lock_attempts@, LockStatus::Provisional, lock_attempts@.len()).count(l)
                <= old(book).pending@.count(l),
    ensures
        final(book).wf(),
        same_but_for_all_usages(*old(book), *final(book)),
        final(book).held@ == old(book).held@.sub(
            locks_with(lock_attempts@, LockStatus::Succeded, lock_attempts@.len()),
        ),
        final(book).pending@ == old(book).pending@.sub(
            locks_with(lock_attempts@, LockStatus::Provisional, lock_attempts@.len()),
        ),
{
    let ghost attempts = lock_attempts@;
    assert(book.held@ =~= old(book).held@.sub(locks_with(attempts, LockStatus::Succeded, 0)));
    assert(book.pending@ =~= old(book).pending@.sub(
        locks_with(attempts, LockStatus::Provisional, 0),
    ));
    let mut i: usize = 0;
    while i < lock_attempts.len()
        invariant
            i <= attempts.len(),
            attempts == lock_attempts@,
            book.wf(),
            in_book(*old(book), attempts),
            forall|l: Lock| #[trigger]
                locks_with(attempts, LockStatus::Succeded, attempts.len()).count(l) <= old(book).held@.count(l),
            forall|l: Lock| #[trigger]
                locks_with(attempts, LockStatus::Provisional, attempts.len()).count(l) <= old(book).pending@.count(l),
            same_but_for_all_usages(*old(book), *book),
            book.held@ == old(book).held@.sub(locks_with(attempts, LockStatus::Succeded, i as nat)),
            book.pending@ == old(book).pending@.sub(
                locks_with(attempts, LockStatus::Provisional, i as nat),
            ),
        decreases attempts.len() - i,
    {
        proof {
            let lock = attempts[i as int].lock();
            lemma_locks_with_monotonic(
                attempts,
                LockStatus::Succeded,
                (i + 1) as nat,
                attempts.len(),
                lock,
            );
            lemma_locks_with_monotonic(
                attempts,
                LockStatus::Provisional,
                (i + 1) as nat,
                attempts.len(),
                lock,
            );
            assert(attempts[i as int].target.0 < book.pages@.len());
        }
        let ghost book0 = *book;
        book.reset_lock(&lock_attempts[i], false);
        assert(book.held@ =~= old(book).held@.sub(
            locks_with(attempts, LockStatus::Succeded, (i + 1) as nat),
        ));
        assert(book.pending@ =~= old(book).pending@.sub(
            locks_with(attempts, LockStatus::Provisional, (i + 1) as nat),
        ));
        i = i + 1;
    }
}

/// Two books with the same locks and otherwise equal pages have equal pages.
pub proof fn lemma_same_locks_same_pages(before: AddressBook, after: AddressBook)
    requires
        before.wf(),
        after.wf(),
        after.held@ == before.held@,
        after.pending@ == before.pending@,
        same_but_for_all_usages(before, after),
    ensures
        after.pages@ == before.pages@,
{
    assert forall|p: int| 0 <= p < before.pages@.len() implies after.pages@[p]
        == before.pages@[p] by {
        assert(before.page_wf(PageRc(p as usize)));
        assert(after.page_wf(PageRc(p as usize)));
    }
    assert(after.pages@ =~= before.pages@);
}

/// Trying the locks of a task and taking back what it got leaves the locks as they were.
pub proof fn law_reset_undoes_attempts(
    book: AddressBook,
    immediate: bool,
    unique_weight: UniqueWeight,
    attempts: Seq<LockAttempt>,
)
    ensures
        ({
            let made = attempted(book, immediate, unique_weight, attempts);
            let n = attempts.len();
            let granted = locks_with(made, LockStatus::Succeded, n);
            let provisional = locks_with(made, LockStatus::Provisional, n);
            &&& book.held@.add(granted).sub(granted) == book.held@
            &&& book.pending@.add(provisional).sub(provisional) == book.pending@
        }),
{
    let made = attempted(book, immediate, unique_weight, attempts);
    let n = attempts.len();
    let granted = locks_with(made, LockStatus::Succeded, n);
    let provisional = locks_with(made, LockStatus::Provisional, n);
    assert(book.held@.add(granted).sub(granted) =~= book.held@);
    assert(book.pending@.add(provisional).sub(provisional) =~= book.pending@);
}

/// The attempts ahead of one do not change when it is made.
proof fn lemma_tried_take(
    book: AddressBook,
    immediate: bool,
    unique_weight: UniqueWeight,
    attempts: Seq<LockAttempt>,
    n: nat,
    i: nat,
)
    requires
        i <= n <= attempts.len(),
    ensures
        tried(book, immediate, unique_weight, attempts, n).len() == n,
        tried(book, immediate, unique_weight, attempts, i) == tried(
            book,
            immediate,
            unique_weight,
            attempts,
            n,
        ).take(i as int),
    decreases n,
{
    if n == i {
        if n > 0 {
            lemma_tried_prefix(book, immediate, unique_weight, attempts, n, 0);
        }
        assert(tried(book, immediate, unique_weight, attempts, n).take(i as int) =~= tried(
            book,
            immediate,
            unique_weight,
            attempts,
            n,
        ));
    } else {
        lemma_tried_take(book, immediate, unique_weight, attempts, (n - 1) as nat, i);
        assert(tried(book, immediate, unique_weight, attempts, n).take(i as int) =~= tried(
            book,
            immediate,
            unique_weight,
            attempts,
            (n - 1) as nat,
        ).take(i as int));
    }
}

/// The first attempts hold no lock on a page that none of them is for.
pub proof fn lemma_locks_elsewhere(
    attempts: Seq<LockAttempt>,
    status: LockStatus,
    n: nat,
    lock: Lock,
)
    requires
        n <= attempts.len(),
        forall|j: int| 0 <= j < n ==> (#[trigger] attempts[j]).target != lock.0,
    ensures
        locks_with(attempts, status, n).count(lock) == 0,
    decreases n,
{
    if n > 0 {
        assert(attempts[n - 1].target != lock.0);
        lemma_locks_elsewhere(attempts, status, (n - 1) as nat, lock);
    }
}

/// Where no page is wanted twice, an attempt comes out as if it were the only one: it gets its lock
/// only if the page is lockable and the lock compatible with those held before, and in any case if
/// the page is lockable and nobody uses it.
pub proof fn lemma_granted_alone(
    book: AddressBook,
    immediate: bool,
    unique_weight: UniqueWeight,
    attempts: Seq<LockAttempt>,
    i: int,
)
    requires
        0 <= i < attempts.len(),
        forall|j: int, k: int|
            0 <= j < k < attempts.len() ==> (#[trigger] attempts[j]).target != (
            #[trigger] attempts[k]).target,
    ensures
        ({
            let page = book.page(attempts[i].target);
            let lockable = page.strictly_lockable(unique_weight, attempts[i].requested_usage);
            let unused = usage::usage_of(book.held@, attempts[i].target) == Usage::Unused;
            let status = attempted(book, immediate, unique_weight, attempts)[i].status;
            &&& status == LockStatus::Succeded ==> lockable && (unused || usage::compatible(
                book.held@,
                attempts[i].lock(),
            ))
            &&& lockable && unused ==> status == LockStatus::Succeded
        }),
{
    let n = attempts.len();
    lemma_tried_take(book, immediate, unique_weight, attempts, n, (i + 1) as nat);
    lemma_tried_take(book, immediate, unique_weight, attempts, n, i as nat);
    let before = tried(book, immediate, unique_weight, attempts, i as nat);
    let now = tried(book, immediate, unique_weight, attempts, (i + 1) as nat);
    let made = attempted(book, immediate, unique_weight, attempts);
    assert(made[i] == made.take(i + 1)[i]);
    assert(now[i] == made[i]);
    let p = attempts[i].target;
    assert forall|j: int| 0 <= j < i implies (#[trigger] before[j]).target != p by {
        lemma_tried_prefix(book, immediate, unique_weight, attempts, i as nat, j);
        assert(attempts[j].target != attempts[i].target);
    }
    let granted = locks_with(before, LockStatus::Succeded, i as nat);
    lemma_locks_elsewhere(before, LockStatus::Succeded, i as nat, (p, RequestedUsage::Readonly));
    lemma_locks_elsewhere(before, LockStatus::Succeded, i as nat, (p, RequestedUsage::Writable));
    assert(book.held@.add(granted).count((p, RequestedUsage::Readonly)) == book.held@.count(
        (p, RequestedUsage::Readonly),
    ));
    assert(book.held@.add(granted).count((p, RequestedUsage::Writable)) == book.held@.count(
        (p, RequestedUsage::Writable),
    ));
}

/// Where no page is wanted twice, attempts that all got their locks hold each once, and nothing
/// else.
pub proof fn lemma_locks_once(attempts: Seq<LockAttempt>, n: nat, lock: Lock)
    requires
        n <= attempts.len(),
        forall|j: int, k: int|
            0 <= j < k < attempts.len() ==> (#[trigger] attempts[j]).target != (
            #[trigger] attempts[k]).target,
        forall|j: int|
            0 <= j < n ==> (#[trigger] attempts[j]).status == LockStatus::Succeded,
    ensures
        locks_with(attempts, LockStatus::Succeded, n).count(lock) == (if exists|j: int|
            0 <= j < n && (#[trigger] attempts[j]).lock() == lock {
            1nat
        } else {
            0nat
        }),
    decreases n,
{
    if n > 0 {
        lemma_locks_once(attempts, (n - 1) as nat, lock);
        if attempts[n - 1].lock() == lock {
            assert forall|j: int| 0 <= j < n - 1 implies (#[trigger] attempts[j]).target
                != lock.0 by {
                assert(attempts[j].target != attempts[n - 1].target);
            }
            lemma_locks_elsewhere(attempts, LockStatus::Succeded, (n - 1) as nat, lock);
        } else {
            if exists|j: int| 0 <= j < n && (#[trigger] attempts[j]).lock() == lock {
                let j = choose|j: int| 0 <= j < n && (#[trigger] attempts[j]).lock() == lock;
                assert(j < n - 1);
            }
            if exists|j: int| 0 <= j < n - 1 && (#[trigger] attempts[j]).lock() == lock {
                let j = choose|j: int| 0 <= j < n - 1 && (#[trigger] attempts[j]).lock() == lock;
                assert(0 <= j < n && attempts[j].lock() == lock);
            }
        }
    }
}

/// As many attempts are not had, and had provisionally, as is said; the cost that is said is the
/// highest of the pages, and at least one. An attempt changes in nothing but its outcome.
pub proof fn law_attempts_are_counted(
    from_runnable: bool,
    prefer_immediate: bool,
    book: &mut AddressBook,
    unique_weight: UniqueWeight,
    lock_attempts: &mut Vec<LockAttempt>,
    r: (usize, usize, CU),
    i: int,
)
    requires
        call_ensures(
            attempt_lock_for_execution,
            (from_runnable, prefer_immediate, book, unique_weight, lock_attempts),
            r,
        ),
        0 <= i < old(lock_attempts)@.len(),
    ensures
        r.0 == final(lock_attempts)@.filter(|a: LockAttempt| a.status == LockStatus::Failed).len(),
        r.1 == final(lock_attempts)@.filter(
            |a: LockAttempt| a.status == LockStatus::Provisional,
        ).len(),
        from_runnable || prefer_immediate ==> r.1 == 0,
        final(lock_attempts)@.len() == old(lock_attempts)@.len(),
        final(lock_attempts)@[i].target == old(lock_attempts)@[i].target,
        final(lock_attempts)@[i].requested_usage == old(lock_attempts)@[i].requested_usage,
        r.2 >= 1,
        old(book).pages@[old(lock_attempts)@[i].target.0 as int].cu <= r.2,
        r.2 > 1 ==> exists|j: int|
            0 <= j < old(lock_attempts)@.len() && old(book).pages@[(#[trigger] old(
                lock_attempts,
            )@[j]).target.0 as int].cu == r.2,
{
    let attempts = old(lock_attempts)@;
    let made = final(lock_attempts)@;
    let immediate = from_runnable || prefer_immediate;
    let n = attempts.len();
    lemma_attempted(*old(book), immediate, unique_weight, attempts);
    lemma_count_is_filter(made, LockStatus::Failed, n);
    lemma_count_is_filter(made, LockStatus::Provisional, n);
    assert(made.take(n as int) =~= made);
    lemma_busiest(*old(book), attempts, n, i);
    if immediate {
        crate::scheduler::stage::lemma_immediate_not_provisional(
            *old(book),
            unique_weight,
            attempts,
            n,
        );
    }
    assert(made[i].target == attempts[i].target);
}

pub proof fn lemma_count_is_filter(attempts: Seq<LockAttempt>, status: LockStatus, n: nat)
    requires
        n <= attempts.len(),
    ensures
        count_with(attempts, status, n) == attempts.take(n as int).filter(
            |a: LockAttempt| a.status == status,
        ).len(),
    decreases n,
{
    reveal(Seq::filter);
    if n > 0 {
        lemma_count_is_filter(attempts, status, (n - 1) as nat);
        assert(attempts.take(n as int).drop_last() =~= attempts.take(n - 1));
        assert(attempts.take(n as int).last() == attempts[n - 1]);
    }
}

proof fn lemma_busiest(book: AddressBook, attempts: Seq<LockAttempt>, n: nat, i: int)
    requires
        n <= attempts.len(),
    ensures
        busiest_cu(book, attempts, n) >= 1,
        0 <= i < n ==> book.pages@[attempts[i].target.0 as int].cu <= busiest_cu(book, attempts, n),
        busiest_cu(book, attempts, n) > 1 ==> exists|j: int|
            0 <= j < attempts.len() && book.pages@[(#[trigger] attempts[j]).target.0 as int].cu
                == busiest_cu(book, attempts, n),
    decreases n,
{
    if n > 0 {
        lemma_busiest(book, attempts, (n - 1) as nat, i);
        assert(book.page(attempts[n - 1].target).cu == book.pages@[attempts[n - 1].target.0 as int].cu);
        let last = attempts[n - 1];
    }
}

/// A task that gives back all that it got leaves every page in use as it was.
pub proof fn law_reset_leaves_pages_as_they_were(
    from_runnable: bool,
    prefer_immediate: bool,
    book: &mut AddressBook,
    unique_weight: UniqueWeight,
    lock_attempts: &mut Vec<LockAttempt>,
    r: (usize, usize, CU),
    later: &mut AddressBook,
)
    requires
        old(book).wf(),
        call_ensures(
            attempt_lock_for_execution,
            (from_runnable, prefer_immediate, book, unique_weight, lock_attempts),
            r,
        ),
        *old(later) == *final(book),
        call_ensures(reset_lock_for_failed_execution, (later, &*final(lock_attempts)), ()),
    ensures
        final(later).pages@ == old(book).pages@,
        final(later).uncontended_task_ids == old(book).uncontended_task_ids,
{
    let before = *old(book);
    let after = *final(later);
    let immediate = from_runnable || prefer_immediate;
    let attempts = old(lock_attempts)@;
    law_reset_undoes_attempts(before, immediate, unique_weight, attempts);
    lemma_attempted(before, immediate, unique_weight, attempts);
    assert forall|p: int| 0 <= p < before.pages@.len() implies #[trigger] after.pages@[p] == (Page {
        current_usage: after.pages@[p].current_usage,
        next_usage: after.pages@[p].next_usage,
        ..before.pages@[p]
    }) by {
        let middle = final(book).pages@[p];
        assert(middle == (Page {
            current_usage: middle.current_usage,
            next_usage: middle.next_usage,
            ..before.pages@[p]
        }));
    }
    lemma_same_locks_same_pages(before, after);
}

} // verus!
