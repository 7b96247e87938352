//! Giving the locks of an executed task back.

use crate::scheduler::address_book;
use crate::scheduler::address_book::{AddressBook, Page, ProvisioningTracker};
use crate::scheduler::locking;
use crate::scheduler::task::{
    Contention, LockAttempt, LockStatus, Task, TaskInQueue, UniqueWeight, CU,
};
use crate::scheduler::usage;
use crate::scheduler::usage::{Lock, PageRc, RequestedUsage, Usage};
use vstd::multiset::Multiset;
use vstd::prelude::*;

verus! {

/// What giving locks back works on: the locks, the costs of the pages, the trackers and who waits
/// for which page, the tasks worth another try, those whose provisional locks have all come true,
/// and how many trackers are not fulfilled.
#[verifier::ext_equal]
pub struct Released {
    pub held: Multiset<Lock>,
    pub pending: Multiset<Lock>,
    pub cus: Seq<int>,
    pub waiting: Seq<Seq<usize>>,
    pub trackers: Seq<ProvisioningTracker>,
    pub uncontended: Map<UniqueWeight, usize>,
    pub fulfilled: Map<UniqueWeight, usize>,
    pub tracker_count: int,
}

/// What a book and a count of trackers amount to.
pub open spec fn state_of(book: AddressBook, tracker_count: int) -> Released {
    Released {
        held: book.held@,
        pending: book.pending@,
        cus: Seq::new(book.pages@.len(), |p: int| book.pages@[p].cu as int),
        waiting: Seq::new(book.pages@.len(), |p: int| book.pages@[p].provisional_task_ids@),
        trackers: book.trackers@,
        uncontended: book.uncontended_task_ids@,
        fulfilled: book.fulfilled_provisional_task_ids@,
        tracker_count,
    }
}

/// The first `n` of the trackers `ids` come one page nearer to their execution.
pub open spec fn progressed(s: Released, tasks: Seq<Task>, ids: Seq<usize>, n: nat) -> Released
    decreases n,
{
    if n == 0 {
        s
    } else {
        let before = progressed(s, tasks, ids, (n - 1) as nat);
        let tracker = before.trackers[ids[n - 1] as int].progressed();
        let trackers = before.trackers.update(ids[n - 1] as int, tracker);
        if tracker.remaining_count == 0 {
            Released {
                trackers,
                fulfilled: before.fulfilled.insert(
                    tasks[tracker.task.0 as int].unique_weight,
                    tracker.task.0,
                ),
                tracker_count: before.tracker_count - 1,
                ..before
            }
        } else {
            Released { trackers, ..before }
        }
    }
}

/// The attempt holds its lock.
pub open spec fn holds(attempt: LockAttempt) -> bool {
    attempt.status != LockStatus::Failed
}

/// Giving back the lock of `attempt` frees its page, with no lock pending on it.
pub open spec fn frees(s: Released, attempt: LockAttempt) -> bool {
    &&& holds(attempt)
    &&& usage::usage_of(s.held.remove(attempt.lock()), attempt.target) == Usage::Unused
    &&& usage::usage_of(s.pending, attempt.target) == Usage::Unused
}

/// The lock of `attempt` is given back, at a cost of `cu` to the page; the task that is to try next
/// is worth another try if it still waits.
pub open spec fn unlocked(s: Released, tasks: Seq<Task>, attempt: LockAttempt, cu: CU) -> Released {
    let p = attempt.target.0 as int;
    Released {
        held: if holds(attempt) {
            s.held.remove(attempt.lock())
        } else {
            s.held
        },
        cus: s.cus.update(p, s.cus[p] + cu),
        uncontended: match attempt.heaviest_uncontended {
            Some(task) => if frees(s, attempt) && tasks[task.0 as int].uncontended
                == Contention::Contended {
                s.uncontended.insert(tasks[task.0 as int].unique_weight, task.0)
            } else {
                s.uncontended
            },
            None => s.uncontended,
        },
        ..s
    }
}

/// A lock is pending on a page that nobody uses.
pub open spec fn must_switch(s: Released, page: PageRc) -> bool {
    usage::usage_of(s.held, page) == Usage::Unused && usage::usage_of(s.pending, page)
        != Usage::Unused
}

/// The locks on one page.
pub open spec fn on_page(locks: Multiset<Lock>, page: PageRc) -> Multiset<Lock> {
    locks.filter(|l: Lock| l.0 == page)
}

/// The lock pending on a page becomes the held one, and its trackers make progress.
pub open spec fn switched(s: Released, tasks: Seq<Task>, page: PageRc) -> Released {
    let p = page.0 as int;
    let moved = on_page(s.pending, page);
    progressed(
        Released {
            held: s.held.add(moved),
            pending: s.pending.sub(moved),
            waiting: s.waiting.update(p, Seq::empty()),
            ..s
        },
        tasks,
        s.waiting[p],
        s.waiting[p].len(),
    )
}

/// What giving back one attempt does.
#[verifier::opaque]
pub open spec fn released_one(s: Released, tasks: Seq<Task>, attempt: LockAttempt, cu: CU) -> Released {
    let t = unlocked(s, tasks, attempt, cu);
    if must_switch(t, attempt.target) {
        switched(t, tasks, attempt.target)
    } else {
        t
    }
}

/// What giving back the first `n` attempts does.
pub open spec fn released(
    s: Released,
    tasks: Seq<Task>,
    attempts: Seq<LockAttempt>,
    cu: CU,
    n: nat,
) -> Released
    decreases n,
{
    if n == 0 {
        s
    } else {
        released_one(released(s, tasks, attempts, cu, (n - 1) as nat), tasks, attempts[n - 1], cu)
    }
}

/// The attempts as giving them back leaves them: one that frees its page hands on the task that is
/// to try next.
pub open spec fn released_attempts(
    s: Released,
    tasks: Seq<Task>,
    attempts: Seq<LockAttempt>,
    cu: CU,
) -> Seq<LockAttempt> {
    Seq::new(
        attempts.len(),
        |i: int|
            LockAttempt {
                heaviest_uncontended: if frees(
                    released(s, tasks, attempts, cu, i as nat),
                    attempts[i],
                ) {
                    None
                } else {
                    attempts[i].heaviest_uncontended
                },
                ..attempts[i]
            },
    )
}

/// The trackers are of known tasks, and who waits is a known tracker.
pub open spec fn trackers_known(book: AddressBook, tasks: Seq<Task>) -> bool {
    &&& forall|i: int|
        0 <= i < book.trackers@.len() ==> (#[trigger] book.trackers@[i]).task.0 < tasks.len()
    &&& forall|p: int, i: int|
        0 <= p < book.pages@.len() && 0 <= i < book.pages@[p].provisional_task_ids@.len()
            ==> #[trigger] book.pages@[p].provisional_task_ids@[i] < book.trackers@.len()
}

/// Nothing but the usages, costs and waiting trackers of pages, the trackers, the locks and the two
/// queues of tasks changed.
pub open spec fn same_addresses_and_queues(before: AddressBook, after: AddressBook) -> bool {
    &&& after.entries() == before.entries()
    &&& after.pages@.len() == before.pages@.len()
    &&& forall|p: int|
        0 <= p < before.pages@.len() ==> {
            &&& (#[trigger] after.pages@[p]).address == before.pages@[p].address
            &&& after.pages@[p].contended_write_task_count
                == before.pages@[p].contended_write_task_count
            &&& after.pages@[p].contended_unique_weights
                == before.pages@[p].contended_unique_weights
        }
}

/// Progress costs nothing.
proof fn lemma_progressed_cus(s: Released, tasks: Seq<Task>, ids: Seq<usize>, n: nat)
    ensures
        progressed(s, tasks, ids, n).cus == s.cus,
        progressed(s, tasks, ids, n).tracker_count <= s.tracker_count,
    decreases n,
{
    if n > 0 {
        lemma_progressed_cus(s, tasks, ids, (n - 1) as nat);
    }
}

/// The count of trackers does not grow with the progress made.
proof fn lemma_progressed_monotonic(s: Released, tasks: Seq<Task>, ids: Seq<usize>, n: nat, m: nat)
    requires
        n <= m,
    ensures
        progressed(s, tasks, ids, m).tracker_count <= progressed(s, tasks, ids, n).tracker_count,
    decreases m - n,
{
    if n < m {
        lemma_progressed_monotonic(s, tasks, ids, n, (m - 1) as nat);
    }
}

/// Lets the trackers `ids` make progress.
fn progress_trackers(
    book: &mut AddressBook,
    tasks: &Vec<Task>,
    ids: &Vec<usize>,
    provisioning_tracker_count: &mut usize,
)
    requires
        forall|i: int|
            0 <= i < old(book).trackers@.len() ==> (#[trigger] old(book).trackers@[i]).task.0
                < tasks@.len(),
        forall|i: int| 0 <= i < ids@.len() ==> #[trigger] ids@[i] < old(book).trackers@.len(),
        progressed(
            state_of(*old(book), *old(provisioning_tracker_count) as int),
            tasks@,
            ids@,
            ids@.len(),
        ).tracker_count >= 0,
    ensures
        final(book).pages == old(book).pages,
        final(book).held == old(book).held,
        final(book).pending == old(book).pending,
        final(book).entries() == old(book).entries(),
        final(book).uncontended_task_ids == old(book).uncontended_task_ids,
        final(book).trackers@.len() == old(book).trackers@.len(),
        state_of(*final(book), *final(provisioning_tracker_count) as int) == progressed(
            state_of(*old(book), *old(provisioning_tracker_count) as int),
            tasks@,
            ids@,
            ids@.len(),
        ),
        forall|i: int|
            0 <= i < final(book).trackers@.len() ==> (#[trigger] final(book).trackers@[i]).task.0
                < tasks@.len(),
{
    let ghost s = state_of(*book, *provisioning_tracker_count as int);
    let mut i: usize = 0;
    while i < ids.len()
        invariant
            i <= ids@.len(),
            s == state_of(*old(book), *old(provisioning_tracker_count) as int),
            book.pages == old(book).pages,
            book.held == old(book).held,
            book.pending == old(book).pending,
            book.entries() == old(book).entries(),
            book.uncontended_task_ids == old(book).uncontended_task_ids,
            book.trackers@.len() == old(book).trackers@.len(),
            forall|i: int|
                0 <= i < book.trackers@.len() ==> (#[trigger] book.trackers@[i]).task.0
                    < tasks@.len(),
            forall|i: int| 0 <= i < ids@.len() ==> #[trigger] ids@[i] < book.trackers@.len(),
            state_of(*book, *provisioning_tracker_count as int) == progressed(
                s,
                tasks@,
                ids@,
                i as nat,
            ),
            progressed(s, tasks@, ids@, ids@.len()).tracker_count >= 0,
        decreases ids@.len() - i,
    {
        let t: usize = ids[i];
        assert(ids@[i as int] == t);
        proof {
            lemma_progressed_monotonic(s, tasks@, ids@, (i + 1) as nat, ids@.len());
            assert(book.trackers@ == progressed(s, tasks@, ids@, i as nat).trackers);
        }
        let ghost before = *book;
        book.trackers[t].progress();
        if book.trackers[t].is_fulfilled() {
            let task = book.trackers[t].task;
            book.fulfilled_provisional_task_ids.insert(tasks[task.0].unique_weight, task.0);
            *provisioning_tracker_count = *provisioning_tracker_count - 1;
        }
        assert(state_of(*book, *provisioning_tracker_count as int) =~= progressed(
            s,
            tasks@,
            ids@,
            (i + 1) as nat,
        ));
        i = i + 1;
    }
}

/// The lock pending on a page is the only one, and the page has the usage that it amounts to once
/// it is held.
proof fn lemma_pending_moves(held: Multiset<Lock>, pending: Multiset<Lock>, page: PageRc)
    requires
        usage::usage_of(held, page) == Usage::Unused,
        address_book::one_pending(pending, page),
    ensures
        ({
            let moved = on_page(pending, page);
            let held1 = held.add(moved);
            let pending1 = pending.sub(moved);
            &&& usage::usage_of(held1, page) == usage::usage_of(pending, page)
            &&& usage::usage_of(pending1, page) == Usage::Unused
            &&& usage::exclusive(held1, page)
            &&& address_book::one_pending(pending1, page)
            &&& forall|l: Lock| l.0 != page ==> #[trigger] held1.count(l) == held.count(l)
            &&& forall|l: Lock| l.0 != page ==> #[trigger] pending1.count(l) == pending.count(l)
            &&& forall|l: Lock| #[trigger] held1.count(l) > 0 ==> held.count(l) > 0
                || pending.count(l) > 0
            &&& forall|l: Lock| #[trigger] pending1.count(l) <= pending.count(l)
        }),
{
    let moved = on_page(pending, page);
    let r = (page, RequestedUsage::Readonly);
    let w = (page, RequestedUsage::Writable);
    assert(moved.count(r) == pending.count(r));
    assert(moved.count(w) == pending.count(w));
    assert(held.count(r) == 0 && held.count(w) == 0);
}

/// Gives one attempt back. Says whether that freed the page for the task that is to try next.
fn release_one(
    book: &mut AddressBook,
    tasks: &Vec<Task>,
    attempt: &LockAttempt,
    provisioning_tracker_count: &mut usize,
    cu: CU,
) -> (freed: bool)
    requires
        old(book).wf(),
        attempt.target.0 < old(book).pages@.len(),
        trackers_known(*old(book), tasks@),
        holds(*attempt) ==> old(book).held@.count(attempt.lock()) > 0,
        attempt.heaviest_uncontended matches Some(task) ==> task.0 < tasks@.len(),
        old(book).page(attempt.target).cu + cu <= u64::MAX,
        released_one(
            state_of(*old(book), *old(provisioning_tracker_count) as int),
            tasks@,
            *attempt,
            cu,
        ).tracker_count >= 0,
    ensures
        final(book).wf(),
        trackers_known(*final(book), tasks@),
        same_addresses_and_queues(*old(book), *final(book)),
        state_of(*final(book), *final(provisioning_tracker_count) as int) == released_one(
            state_of(*old(book), *old(provisioning_tracker_count) as int),
            tasks@,
            *attempt,
            cu,
        ),
        freed == frees(state_of(*old(book), *old(provisioning_tracker_count) as int), *attempt),
        forall|q: PageRc|
            q != attempt.target && q.0 < old(book).pages@.len() ==> #[trigger] final(book).page(q)
                == old(book).page(q),
        final(book).page(attempt.target).current_usage == Usage::Unused ==> final(book).page(
            attempt.target,
        ).next_usage == Usage::Unused || !holds(*attempt),
        old(book).steady() ==> final(book).steady(),
{
    proof {
        reveal(released_one);
    }
    let ghost s0 = state_of(*book, *provisioning_tracker_count as int);
    let ghost page = attempt.target;
    let p: usize = attempt.target.0;
    let newly_uncontended = book.reset_lock(attempt, true);
    let ghost book1 = *book;
    proof {
        assert(book1.page_wf(page));
    }
    let page_cu: CU = book.pages[p].cu;
    book.pages[p].cu = page_cu + cu;
    let mut freed = false;
    if newly_uncontended && book.pages[p].next_usage == Usage::Unused {
        freed = true;
        if let Some(task) = attempt.heaviest_uncontended {
            if tasks[task.0].currently_contended() {
                book.uncontended_task_ids.insert(tasks[task.0].unique_weight, task.0);
            }
        }
    }
    let ghost book2 = *book;
    let ghost s2 = unlocked(s0, tasks@, *attempt, cu);
    proof {
        assert(state_of(*book, *provisioning_tracker_count as int) =~~= s2);
        assert forall|q: int| 0 <= q < book2.pages@.len() implies (
        #[trigger] book2.pages@[q]).provisional_task_ids
            == old(book).pages@[q].provisional_task_ids by {
            if q != p {
                assert(book1.pages@[q] == old(book).pages@[q]);
            } else {
                assert(book1.page(page) == book1.pages@[q]);
                assert(old(book).page(page) == old(book).pages@[q]);
            }
        }
        lemma_costs_changed(book1, book2, page);
        assert(book2.page_wf(page));
        assert(must_switch(s2, page) == (book2.page(page).current_usage == Usage::Unused
            && book2.page(page).next_usage != Usage::Unused));
    }
    if book.pages[p].current_usage == Usage::Unused && book.pages[p].next_usage != Usage::Unused {
        book.pages[p].switch_to_next_usage();
        let mut ids: Vec<usize> = Vec::new();
        std::mem::swap(&mut ids, &mut book.pages[p].provisional_task_ids);
        proof {
            assert(book2.page_wf(page));
            lemma_pending_moves(book2.held@, book2.pending@, page);
        }
        book.held = Ghost(book2.held@.add(on_page(book2.pending@, page)));
        book.pending = Ghost(book2.pending@.sub(on_page(book2.pending@, page)));
        let ghost book3 = *book;
        proof {
            assert(book3.page_wf(page));
            lemma_switched_wf(book2, book3, page);
            assert(state_of(book3, *provisioning_tracker_count as int) =~~= (Released {
                held: s2.held.add(on_page(s2.pending, page)),
                pending: s2.pending.sub(on_page(s2.pending, page)),
                waiting: s2.waiting.update(p as int, Seq::empty()),
                ..s2
            }));
            assert(ids@ == s2.waiting[p as int]);
            assert forall|i: int| 0 <= i < ids@.len() implies #[trigger] ids@[i]
                < book.trackers@.len() by {
                assert(ids@[i] == old(book).pages@[p as int].provisional_task_ids@[i]);
            }
        }
        progress_trackers(book, tasks, &ids, provisioning_tracker_count);
        proof {
            lemma_same_pages_wf(book3, *book);
            assert(book.pages@[p as int].provisional_task_ids@.len() == 0);
        }
    }
    proof {
        assert forall|q: PageRc|
            q != page && q.0 < old(book).pages@.len() implies #[trigger] book.page(q) == old(book).page(q) by {
            assert(book1.pages@[q.0 as int] == old(book).pages@[q.0 as int]);
        }
        assert forall|q: int, i: int|
            0 <= q < book.pages@.len() && 0 <= i
                < book.pages@[q].provisional_task_ids@.len() implies #[trigger] book.pages@[q].provisional_task_ids@[i]
            < book.trackers@.len() by {
            if q != p {
                assert(book.page(PageRc(q as usize)) == old(book).page(PageRc(q as usize)));
            }
            assert(book.pages@[q].provisional_task_ids == old(book).pages@[q].provisional_task_ids);
            assert(old(book).pages@[q].provisional_task_ids@[i] < old(book).trackers@.len());
        }
        assert(book.page_wf(page));
        if old(book).steady() {
            assert(old(book).page(page).current_usage == Usage::Unused ==> old(book).page(
                page,
            ).next_usage == Usage::Unused);
            assert forall|q: PageRc|
                q.0 < book.pages@.len() && (#[trigger] book.page(q)).current_usage
                    == Usage::Unused implies book.page(q).next_usage == Usage::Unused by {
                if q != page {
                    assert(book.page(q) == old(book).page(q));
                }
            }
        }
        assert forall|q: int| 0 <= q < old(book).pages@.len() implies {
            &&& (#[trigger] book.pages@[q]).address == old(book).pages@[q].address
            &&& book.pages@[q].contended_write_task_count
                == old(book).pages@[q].contended_write_task_count
            &&& book.pages@[q].contended_unique_weights
                == old(book).pages@[q].contended_unique_weights
        } by {
            if q != p {
                assert(book.page(PageRc(q as usize)) == old(book).page(PageRc(q as usize)));
            } else {
                assert(book1.page(page) == book1.pages@[q]);
                assert(old(book).page(page) == old(book).pages@[q]);
            }
        }
    }
    freed
}

/// Costs and queues of tasks do not matter for whether a book is well-formed.
proof fn lemma_costs_changed(before: AddressBook, after: AddressBook, p: PageRc)
    requires
        before.wf(),
        p.0 < before.pages@.len(),
        after.held == before.held,
        after.pending == before.pending,
        after.entries() == before.entries(),
        after.pages@ == before.pages@.update(
            p.0 as int,
            Page { cu: after.page(p).cu, ..before.page(p) },
        ),
    ensures
        after.wf(),
{
    assert forall|q: PageRc| q.0 < after.pages@.len() implies #[trigger] after.page_wf(q) by {
        assert(before.page_wf(q));
    }
    assert forall|q: int| 0 <= q < after.pages@.len() implies after.entries().dom().contains(
        (#[trigger] after.pages@[q]).address.0,
    ) && after.entries()[after.pages@[q].address.0] == q by {
        assert(before.pages@[q].address == after.pages@[q].address);
    }
    assert forall|a: [u8; 32]| #[trigger] after.entries().dom().contains(a) implies
        after.entries()[a] < after.pages@.len()
        && after.pages@[after.entries()[a] as int].address.0 == a by {
        let q = before.entries()[a] as int;
        assert(before.pages@[q].address.0 == a);
    }
}

/// A book whose pending lock on one page became the held one is well-formed if that page is.
proof fn lemma_switched_wf(before: AddressBook, after: AddressBook, p: PageRc)
    requires
        before.wf(),
        p.0 < before.pages@.len(),
        after.entries() == before.entries(),
        after.pages@.len() == before.pages@.len(),
        forall|q: int| 0 <= q < before.pages@.len() && q != p.0 ==> #[trigger] after.pages@[q] == before.pages@[q],
        after.page(p).address == before.page(p).address,
        after.page_wf(p),
        forall|l: Lock| l.0 != p ==> #[trigger] after.held@.count(l) == before.held@.count(l),
        forall|l: Lock| l.0 != p ==> #[trigger] after.pending@.count(l) == before.pending@.count(l),
    ensures
        after.wf(),
{
    assert forall|q: PageRc| q.0 < after.pages@.len() implies #[trigger] after.page_wf(q) by {
        if q != p {
            assert(before.page_wf(q));
            assert(after.pages@[q.0 as int] == before.pages@[q.0 as int]);
        }
    }
    assert forall|q: int| 0 <= q < after.pages@.len() implies after.entries().dom().contains(
        (#[trigger] after.pages@[q]).address.0,
    ) && after.entries()[after.pages@[q].address.0] == q by {
        assert(before.pages@[q].address == after.pages@[q].address);
    }
    assert forall|a: [u8; 32]| #[trigger] after.entries().dom().contains(a) implies
        after.entries()[a] < after.pages@.len()
        && after.pages@[after.entries()[a] as int].address.0 == a by {
        let q = before.entries()[a] as int;
        assert(before.pages@[q].address.0 == a);
        assert(after.pages@[q].address == before.pages@[q].address);
    }
}

/// Whether a book is well-formed depends on its pages, locks and addresses only.
pub proof fn lemma_same_pages_wf(before: AddressBook, after: AddressBook)
    requires
        before.wf(),
        after.pages@ == before.pages@,
        after.held@ == before.held@,
        after.pending@ == before.pending@,
        after.entries() == before.entries(),
    ensures
        after.wf(),
        before.steady() ==> after.steady(),
{
    assert forall|q: PageRc| q.0 < after.pages@.len() implies #[trigger] after.page_wf(q) by {
        assert(before.page_wf(q));
    }
    if before.steady() {
        assert forall|q: PageRc|
            q.0 < after.pages@.len() && (#[trigger] after.page(q)).current_usage
                == Usage::Unused implies after.page(q).next_usage == Usage::Unused by {
            assert(before.page(q) == after.page(q));
        }
    }
}

/// With every attempt given back the costs grow and the count of trackers does not.
proof fn lemma_released_monotonic(
    s: Released,
    tasks: Seq<Task>,
    attempts: Seq<LockAttempt>,
    cu: CU,
    n: nat,
    m: nat,
)
    requires
        n <= m <= attempts.len(),
        forall|i: int| 0 <= i < attempts.len() ==> (#[trigger] attempts[i]).target.0 < s.cus.len(),
    ensures
        released(s, tasks, attempts, cu, n).cus.len() == s.cus.len(),
        released(s, tasks, attempts, cu, m).cus.len() == s.cus.len(),
        forall|p: int|
            0 <= p < s.cus.len() ==> (#[trigger] released(s, tasks, attempts, cu, n).cus[p])
                <= released(s, tasks, attempts, cu, m).cus[p],
        released(s, tasks, attempts, cu, m).tracker_count <= released(
            s,
            tasks,
            attempts,
            cu,
            n,
        ).tracker_count,
    decreases m,
{
    reveal(released_one);
    if n < m {
        lemma_released_monotonic(s, tasks, attempts, cu, n, (m - 1) as nat);
        let before = released(s, tasks, attempts, cu, (m - 1) as nat);
        let attempt = attempts[m - 1];
        let t = unlocked(before, tasks, attempt, cu);
        assert(attempt.target.0 < s.cus.len());
        if must_switch(t, attempt.target) {
            let p = attempt.target.0 as int;
            let moved = on_page(t.pending, attempt.target);
            lemma_progressed_cus(
                Released {
                    held: t.held.add(moved),
                    pending: t.pending.sub(moved),
                    waiting: t.waiting.update(p, Seq::empty()),
                    ..t
                },
                tasks,
                t.waiting[p],
                t.waiting[p].len(),
            );
        }
    } else if n > 0 {
        lemma_released_monotonic(s, tasks, attempts, cu, (n - 1) as nat, (n - 1) as nat);
        let before = released(s, tasks, attempts, cu, (n - 1) as nat);
        let attempt = attempts[n - 1];
        let t = unlocked(before, tasks, attempt, cu);
        assert(attempt.target.0 < s.cus.len());
        if must_switch(t, attempt.target) {
            let p = attempt.target.0 as int;
            let moved = on_page(t.pending, attempt.target);
            lemma_progressed_cus(
                Released {
                    held: t.held.add(moved),
                    pending: t.pending.sub(moved),
                    waiting: t.waiting.update(p, Seq::empty()),
                    ..t
                },
                tasks,
                t.waiting[p],
                t.waiting[p].len(),
            );
        }
    }
}

/// What must hold for attempts to be given back: those that hold locks hold them when their turn
/// comes, the costs can be counted, and no tracker is fulfilled that was not counted.
pub open spec fn can_release(
    book: AddressBook,
    tasks: Seq<Task>,
    attempts: Seq<LockAttempt>,
    tracker_count: int,
    cu: CU,
) -> bool {
    let s = state_of(book, tracker_count);
    &&& trackers_known(book, tasks)
    &&& locking::in_book(book, attempts)
    &&& forall|i: int|
        0 <= i < attempts.len() ==> {
            &&& holds(#[trigger] attempts[i]) ==> released(
                s,
                tasks,
                attempts,
                cu,
                i as nat,
            ).held.count(attempts[i].lock()) > 0
            &&& attempts[i].heaviest_uncontended matches Some(task) ==> task.0 < tasks.len()
        }
    &&& forall|p: int|
        0 <= p < book.pages@.len() ==> #[trigger] released(
            s,
            tasks,
            attempts,
            cu,
            attempts.len(),
        ).cus[p] <= u64::MAX
    &&& released(s, tasks, attempts, cu, attempts.len()).tracker_count >= 0
}

/// Gives the locks of an executed task back, one after the other. Where that frees a page, the task
/// that is to try next gets another try; where a lock is pending, it becomes the held one.
pub fn unlock_after_execution(
    book: &mut AddressBook,
    tasks: &Vec<Task>,
    lock_attempts: &mut Vec<LockAttempt>,
    provisioning_tracker_count: &mut usize,
    cu: CU,
)
    requires
        old(book).wf(),
        can_release(
            *old(book),
            tasks@,
            old(lock_attempts)@,
            *old(provisioning_tracker_count) as int,
            cu,
        ),
    ensures
        final(book).wf(),
        old(book).steady() ==> final(book).steady(),
        trackers_known(*final(book), tasks@),
        same_addresses_and_queues(*old(book), *final(book)),
        state_of(*final(book), *final(provisioning_tracker_count) as int) == released(
            state_of(*old(book), *old(provisioning_tracker_count) as int),
            tasks@,
            old(lock_attempts)@,
            cu,
            old(lock_attempts)@.len(),
        ),
        final(lock_attempts)@ == released_attempts(
            state_of(*old(book), *old(provisioning_tracker_count) as int),
            tasks@,
            old(lock_attempts)@,
            cu,
        ),
{
    let ghost attempts = lock_attempts@;
    let ghost s = state_of(*book, *provisioning_tracker_count as int);
    let ghost after = released_attempts(s, tasks@, attempts, cu);
    let mut i: usize = 0;
    while i < lock_attempts.len()
        invariant
            i <= attempts.len(),
            lock_attempts@.len() == attempts.len(),
            after.len() == attempts.len(),
            s == state_of(*old(book), *old(provisioning_tracker_count) as int),
            can_release(
                *old(book),
                tasks@,
                attempts,
                *old(provisioning_tracker_count) as int,
                cu,
            ),
            book.wf(),
            old(book).steady() ==> book.steady(),
            trackers_known(*book, tasks@),
            same_addresses_and_queues(*old(book), *book),
            state_of(*book, *provisioning_tracker_count as int) == released(
                s,
                tasks@,
                attempts,
                cu,
                i as nat,
            ),
            forall|j: int| i <= j < attempts.len() ==> #[trigger] lock_attempts@[j] == attempts[j],
            forall|j: int| 0 <= j < i ==> #[trigger] lock_attempts@[j] == after[j],
            forall|j: int|
                0 <= j < attempts.len() ==> (#[trigger] after[j]) == (LockAttempt {
                    heaviest_uncontended: if frees(
                        released(s, tasks@, attempts, cu, j as nat),
                        attempts[j],
                    ) {
                        None
                    } else {
                        attempts[j].heaviest_uncontended
                    },
                    ..attempts[j]
                }),
        decreases attempts.len() - i,
    {
        let ghost book0 = *book;
        let ghost now = released(s, tasks@, attempts, cu, (i + 1) as nat);
        proof {
            assert(lock_attempts@[i as int] == attempts[i as int]);
            assert(attempts[i as int].target.0 < old(book).pages@.len());
            assert forall|j: int| 0 <= j < attempts.len() implies (#[trigger] attempts[j]).target.0
                < s.cus.len() by {}
            lemma_released_monotonic(s, tasks@, attempts, cu, (i + 1) as nat, attempts.len());
            let p = attempts[i as int].target.0 as int;
            assert(now.cus[p] <= u64::MAX) by {
                assert(released(s, tasks@, attempts, cu, attempts.len()).cus[p] <= u64::MAX);
            }
            lemma_cost_of_one(
                released(s, tasks@, attempts, cu, i as nat),
                tasks@,
                attempts[i as int],
                cu,
            );
            assert(state_of(book0, *provisioning_tracker_count as int).cus[p]
                == book0.pages@[p].cu);
        }
        let attempt = lock_attempts[i];
        if release_one(book, tasks, &attempt, provisioning_tracker_count, cu) {
            lock_attempts[i].heaviest_uncontended = None;
        }
        proof {
            assert forall|q: int| 0 <= q < old(book).pages@.len() implies {
                &&& (#[trigger] book.pages@[q]).address == old(book).pages@[q].address
                &&& book.pages@[q].contended_write_task_count
                    == old(book).pages@[q].contended_write_task_count
                &&& book.pages@[q].contended_unique_weights
                    == old(book).pages@[q].contended_unique_weights
            } by {
                assert(book0.pages@[q].address == old(book).pages@[q].address);
            }
        }
        i = i + 1;
    }
    assert(lock_attempts@ =~= after);
}

/// What giving back one attempt costs its page.
pub proof fn lemma_cost_of_one(s: Released, tasks: Seq<Task>, attempt: LockAttempt, cu: CU)
    requires
        attempt.target.0 < s.cus.len(),
    ensures
        released_one(s, tasks, attempt, cu).cus == s.cus.update(
            attempt.target.0 as int,
            s.cus[attempt.target.0 as int] + cu,
        ),
{
    reveal(released_one);
    let t = unlocked(s, tasks, attempt, cu);
    if must_switch(t, attempt.target) {
        let p = attempt.target.0 as int;
        let moved = on_page(t.pending, attempt.target);
        lemma_progressed_cus(
            Released {
                held: t.held.add(moved),
                pending: t.pending.sub(moved),
                waiting: t.waiting.update(p, Seq::empty()),
                ..t
            },
            tasks,
            t.waiting[p],
            t.waiting[p].len(),
        );
    }
}

/// The attempt's note of the task that is to try next leads to weight `w` and task `v`.
pub open spec fn leads_to(
    tasks: Seq<Task>,
    attempt: LockAttempt,
    w: UniqueWeight,
    v: usize,
) -> bool {
    &&& attempt.heaviest_uncontended == Some(TaskInQueue(v))
    &&& tasks[v as int].uncontended == Contention::Contended
    &&& tasks[v as int].unique_weight == w
}

/// Where no lock is pending, giving locks back takes them from the held ones, costs their pages,
/// and adds nothing to the tasks worth another try but what the attempts lead to.
pub proof fn lemma_released_without_pending(
    s: Released,
    tasks: Seq<Task>,
    attempts: Seq<LockAttempt>,
    cu: CU,
    n: nat,
)
    requires
        n <= attempts.len(),
        s.pending == Multiset::<Lock>::empty(),
        forall|i: int|
            0 <= i < attempts.len() ==> (#[trigger] attempts[i]).status == LockStatus::Succeded
                && attempts[i].target.0 < s.cus.len(),
    ensures
        released(s, tasks, attempts, cu, n).held == s.held.sub(
            locking::locks_with(attempts, LockStatus::Succeded, n),
        ),
        released(s, tasks, attempts, cu, n).pending == s.pending,
        released(s, tasks, attempts, cu, n).waiting == s.waiting,
        released(s, tasks, attempts, cu, n).trackers == s.trackers,
        released(s, tasks, attempts, cu, n).fulfilled == s.fulfilled,
        released(s, tasks, attempts, cu, n).tracker_count == s.tracker_count,
        released(s, tasks, attempts, cu, n).cus.len() == s.cus.len(),
        forall|w: UniqueWeight| #[trigger]
            released(s, tasks, attempts, cu, n).uncontended.dom().contains(w) ==> {
                ||| s.uncontended.dom().contains(w) && s.uncontended[w] == released(
                    s,
                    tasks,
                    attempts,
                    cu,
                    n,
                ).uncontended[w]
                ||| exists|i: int|
                    0 <= i < n && leads_to(
                        tasks,
                        #[trigger] attempts[i],
                        w,
                        released(s, tasks, attempts, cu, n).uncontended[w],
                    )
            },
        forall|w: UniqueWeight| #[trigger]
            s.uncontended.dom().contains(w) ==> released(
                s,
                tasks,
                attempts,
                cu,
                n,
            ).uncontended.dom().contains(w),
    decreases n,
{
    reveal(released_one);
    if n == 0 {
        assert(s.held =~= s.held.sub(Multiset::empty()));
    } else {
        lemma_released_without_pending(s, tasks, attempts, cu, (n - 1) as nat);
        let before = released(s, tasks, attempts, cu, (n - 1) as nat);
        let now = released(s, tasks, attempts, cu, n);
        let attempt = attempts[n - 1];
        let t = unlocked(before, tasks, attempt, cu);
        assert(usage::usage_of(t.pending, attempt.target) == Usage::Unused);
        assert(now == t);
        assert(now.held =~= s.held.sub(locking::locks_with(attempts, LockStatus::Succeded, n)));
        assert forall|w: UniqueWeight| #[trigger] now.uncontended.dom().contains(w) implies {
            ||| s.uncontended.dom().contains(w) && s.uncontended[w] == now.uncontended[w]
            ||| exists|i: int|
                0 <= i < n && leads_to(tasks, #[trigger] attempts[i], w, now.uncontended[w])
        } by {
            if before.uncontended.dom().contains(w) && before.uncontended[w]
                == now.uncontended[w] {
            } else {
                assert(leads_to(tasks, attempts[n - 1], w, now.uncontended[w]));
            }
        }
    }
}

/// Where no lock is pending, the task that an attempt leads to is worth another try once giving back
/// the attempt's lock has freed the page.
pub proof fn lemma_freed_leads_on(
    s: Released,
    tasks: Seq<Task>,
    attempts: Seq<LockAttempt>,
    cu: CU,
    n: nat,
    i: int,
    w: UniqueWeight,
    v: usize,
)
    requires
        0 <= i < n <= attempts.len(),
        s.pending == Multiset::<Lock>::empty(),
        forall|j: int|
            0 <= j < attempts.len() ==> (#[trigger] attempts[j]).status == LockStatus::Succeded
                && attempts[j].target.0 < s.cus.len(),
        frees(released(s, tasks, attempts, cu, i as nat), attempts[i]),
        leads_to(tasks, attempts[i], w, v),
    ensures
        released(s, tasks, attempts, cu, n).uncontended.dom().contains(w),
    decreases n,
{
    reveal(released_one);
    let before = released(s, tasks, attempts, cu, (n - 1) as nat);
    lemma_released_without_pending(s, tasks, attempts, cu, (n - 1) as nat);
    let t = unlocked(before, tasks, attempts[n - 1], cu);
    assert(usage::usage_of(t.pending, attempts[n - 1].target) == Usage::Unused);
    if i < n - 1 {
        lemma_freed_leads_on(s, tasks, attempts, cu, (n - 1) as nat, i, w, v);
    }
}

/// Progress of trackers leaves locks, costs, waiting lists and the tasks worth another try alone.
proof fn lemma_progressed_keeps(s: Released, tasks: Seq<Task>, ids: Seq<usize>, n: nat)
    ensures
        progressed(s, tasks, ids, n).held == s.held,
        progressed(s, tasks, ids, n).pending == s.pending,
        progressed(s, tasks, ids, n).cus == s.cus,
        progressed(s, tasks, ids, n).waiting == s.waiting,
        progressed(s, tasks, ids, n).uncontended == s.uncontended,
    decreases n,
{
    if n > 0 {
        lemma_progressed_keeps(s, tasks, ids, (n - 1) as nat);
    }
}

/// The cost of an execution is charged to each page that it had, once for each lock, and to no other.
pub proof fn law_an_execution_is_charged_to_its_pages(
    book: &mut AddressBook,
    tasks: &Vec<Task>,
    lock_attempts: &mut Vec<LockAttempt>,
    provisioning_tracker_count: &mut usize,
    cu: CU,
    p: int,
)
    requires
        call_ensures(
            unlock_after_execution,
            (book, tasks, lock_attempts, provisioning_tracker_count, cu),
            (),
        ),
        forall|i: int|
            0 <= i < old(lock_attempts)@.len() ==> (#[trigger] old(lock_attempts)@[i]).target.0
                < old(book).pages@.len(),
        0 <= p < old(book).pages@.len(),
    ensures
        final(book).pages@.len() == old(book).pages@.len(),
        final(book).pages@[p].cu == old(book).pages@[p].cu + cu * old(lock_attempts)@.filter(
            |a: LockAttempt| a.target.0 == p,
        ).len(),
{
    let attempts = old(lock_attempts)@;
    let n = attempts.len();
    let s = state_of(*old(book), *old(provisioning_tracker_count) as int);
    let t = state_of(*final(book), *final(provisioning_tracker_count) as int);
    lemma_charged(s, tasks@, attempts, cu, n, p);
    assert(attempts.take(n as int) =~= attempts);
    assert(t.cus[p] == final(book).pages@[p].cu);
    assert(s.cus[p] == old(book).pages@[p].cu);
}

pub proof fn lemma_charged(
    s: Released,
    tasks: Seq<Task>,
    attempts: Seq<LockAttempt>,
    cu: CU,
    n: nat,
    p: int,
)
    requires
        n <= attempts.len(),
        0 <= p < s.cus.len(),
        forall|i: int|
            0 <= i < attempts.len() ==> (#[trigger] attempts[i]).target.0 < s.cus.len(),
    ensures
        released(s, tasks, attempts, cu, n).cus.len() == s.cus.len(),
        released(s, tasks, attempts, cu, n).cus[p] == s.cus[p] + cu * attempts.take(
            n as int,
        ).filter(|a: LockAttempt| a.target.0 == p).len(),
    decreases n,
{
    reveal(Seq::filter);
    reveal(released_one);
    let here = |a: LockAttempt| a.target.0 == p;
    if n > 0 {
        lemma_charged(s, tasks, attempts, cu, (n - 1) as nat, p);
        assert(attempts.take(n as int).drop_last() =~= attempts.take(n - 1));
        assert(attempts.take(n as int).last() == attempts[n - 1]);
        let before = released(s, tasks, attempts, cu, (n - 1) as nat);
        let t = unlocked(before, tasks, attempts[n - 1], cu);
        let q = attempts[n - 1].target;
        let moved = on_page(t.pending, q);
        lemma_progressed_keeps(
            Released {
                held: t.held.add(moved),
                pending: t.pending.sub(moved),
                waiting: t.waiting.update(q.0 as int, Seq::empty()),
                ..t
            },
            tasks,
            t.waiting[q.0 as int],
            t.waiting[q.0 as int].len(),
        );
        let k = attempts.take(n - 1).filter(here).len() as int;
        assert(cu * (k + 1) == cu * k + cu) by (nonlinear_arith);
    } else {
        assert(attempts.take(0).filter(here).len() == 0);
        assert(cu * 0 == 0);
    }
}

/// Giving back locks of other pages leaves the locks of a page alone.
proof fn lemma_released_elsewhere(
    s: Released,
    tasks: Seq<Task>,
    attempts: Seq<LockAttempt>,
    cu: CU,
    n: nat,
    m: nat,
    l: Lock,
)
    requires
        n <= m <= attempts.len(),
        forall|i: int| n <= i < m ==> (#[trigger] attempts[i]).target != l.0,
    ensures
        released(s, tasks, attempts, cu, m).held.count(l) == released(
            s,
            tasks,
            attempts,
            cu,
            n,
        ).held.count(l),
        released(s, tasks, attempts, cu, m).pending.count(l) == released(
            s,
            tasks,
            attempts,
            cu,
            n,
        ).pending.count(l),
    decreases m - n,
{
    reveal(released_one);
    if n < m {
        lemma_released_elsewhere(s, tasks, attempts, cu, n, (m - 1) as nat, l);
        let before = released(s, tasks, attempts, cu, (m - 1) as nat);
        let t = unlocked(before, tasks, attempts[m - 1], cu);
        let q = attempts[m - 1].target;
        let moved = on_page(t.pending, q);
        assert(moved.count(l) == 0);
        lemma_progressed_keeps(
            Released {
                held: t.held.add(moved),
                pending: t.pending.sub(moved),
                waiting: t.waiting.update(q.0 as int, Seq::empty()),
                ..t
            },
            tasks,
            t.waiting[q.0 as int],
            t.waiting[q.0 as int].len(),
        );
    }
}

/// A task that is worth another try stays so while more locks are given back.
proof fn lemma_released_keeps_uncontended(
    s: Released,
    tasks: Seq<Task>,
    attempts: Seq<LockAttempt>,
    cu: CU,
    n: nat,
    m: nat,
    weight: UniqueWeight,
)
    requires
        n <= m,
        released(s, tasks, attempts, cu, n).uncontended.dom().contains(weight),
    ensures
        released(s, tasks, attempts, cu, m).uncontended.dom().contains(weight),
    decreases m - n,
{
    reveal(released_one);
    if n < m {
        lemma_released_keeps_uncontended(s, tasks, attempts, cu, n, (m - 1) as nat, weight);
        let before = released(s, tasks, attempts, cu, (m - 1) as nat);
        let t = unlocked(before, tasks, attempts[m - 1], cu);
        let q = attempts[m - 1].target;
        let moved = on_page(t.pending, q);
        lemma_progressed_keeps(
            Released {
                held: t.held.add(moved),
                pending: t.pending.sub(moved),
                waiting: t.waiting.update(q.0 as int, Seq::empty()),
                ..t
            },
            tasks,
            t.waiting[q.0 as int],
            t.waiting[q.0 as int].len(),
        );
    }
}

/// The next task is not forgotten: where giving back a lock leaves a page without users, and nothing
/// is pending on it, the task that the lock knows to be next, if it still waits, is worth another
/// try.
pub proof fn law_the_next_task_is_not_forgotten(
    book: &mut AddressBook,
    tasks: &Vec<Task>,
    lock_attempts: &mut Vec<LockAttempt>,
    provisioning_tracker_count: &mut usize,
    cu: CU,
    i: int,
    next: TaskInQueue,
)
    requires
        old(book).wf(),
        call_ensures(
            unlock_after_execution,
            (book, tasks, lock_attempts, provisioning_tracker_count, cu),
            (),
        ),
        0 <= i < old(lock_attempts)@.len(),
        forall|j: int|
            0 <= j < old(lock_attempts)@.len() && j != i ==> (#[trigger] old(
                lock_attempts,
            )@[j]).target != old(lock_attempts)@[i].target,
        old(lock_attempts)@[i].target.0 < old(book).pages@.len(),
        old(lock_attempts)@[i].status != LockStatus::Failed,
        old(book).held@.count(old(lock_attempts)@[i].lock()) > 0,
        old(lock_attempts)@[i].heaviest_uncontended == Some(next),
        tasks@[next.0 as int].uncontended == Contention::Contended,
        old(book).pages@[old(lock_attempts)@[i].target.0 as int].next_usage == Usage::Unused,
        final(book).pages@[old(lock_attempts)@[i].target.0 as int].current_usage == Usage::Unused,
    ensures
        final(book).uncontended_task_ids@.dom().contains(tasks@[next.0 as int].unique_weight),
{
    lemma_next_task_is_remembered(
        *old(book),
        *final(book),
        *old(provisioning_tracker_count) as int,
        *final(provisioning_tracker_count) as int,
        tasks@,
        old(lock_attempts)@,
        cu,
        i,
        next,
    );
}

pub proof fn lemma_next_task_is_remembered(
    before_book: AddressBook,
    after_book: AddressBook,
    count0: int,
    count1: int,
    tasks: Seq<Task>,
    attempts: Seq<LockAttempt>,
    cu: CU,
    i: int,
    next: TaskInQueue,
)
    requires
        before_book.wf(),
        after_book.wf(),
        after_book.pages@.len() == before_book.pages@.len(),
        state_of(after_book, count1) == released(
            state_of(before_book, count0),
            tasks,
            attempts,
            cu,
            attempts.len(),
        ),
        0 <= i < attempts.len(),
        forall|j: int|
            0 <= j < attempts.len() && j != i ==> (#[trigger] attempts[j]).target
                != attempts[i].target,
        attempts[i].target.0 < before_book.pages@.len(),
        attempts[i].status != LockStatus::Failed,
        before_book.held@.count(attempts[i].lock()) > 0,
        attempts[i].heaviest_uncontended == Some(next),
        tasks[next.0 as int].uncontended == Contention::Contended,
        before_book.pages@[attempts[i].target.0 as int].next_usage == Usage::Unused,
        after_book.pages@[attempts[i].target.0 as int].current_usage == Usage::Unused,
    ensures
        after_book.uncontended_task_ids@.dom().contains(tasks[next.0 as int].unique_weight),
{
    reveal(released_one);
    let n = attempts.len();
    let p = attempts[i].target;
    let s = state_of(before_book, count0);
    let read = (p, RequestedUsage::Readonly);
    let write = (p, RequestedUsage::Writable);
    assert(before_book.page_wf(p));
    assert(after_book.page_wf(p));
    assert(before_book.page(p) == before_book.pages@[p.0 as int]);
    assert(after_book.page(p) == after_book.pages@[p.0 as int]);
    lemma_released_elsewhere(s, tasks, attempts, cu, 0, i as nat, read);
    lemma_released_elsewhere(s, tasks, attempts, cu, 0, i as nat, write);
    lemma_released_elsewhere(s, tasks, attempts, cu, (i + 1) as nat, n, read);
    lemma_released_elsewhere(s, tasks, attempts, cu, (i + 1) as nat, n, write);
    let before = released(s, tasks, attempts, cu, i as nat);
    let t = unlocked(before, tasks, attempts[i], cu);
    assert(usage::usage_of(t.pending, p) == Usage::Unused);
    assert(!must_switch(t, p));
    assert(released(s, tasks, attempts, cu, (i + 1) as nat) == t);
    assert(frees(before, attempts[i]));
    lemma_released_keeps_uncontended(
        s,
        tasks,
        attempts,
        cu,
        (i + 1) as nat,
        n,
        tasks[next.0 as int].unique_weight,
    );
}

/// A pending lock comes true when the last user of its page gives the page back: the page is used as
/// it was to be used next, and each tracker that waited for it has one page less to wait for. One
/// that waits for none any more has its task ready for execution.
pub proof fn law_a_pending_lock_comes_true(
    book: &mut AddressBook,
    tasks: &Vec<Task>,
    lock_attempts: &mut Vec<LockAttempt>,
    provisioning_tracker_count: &mut usize,
    cu: CU,
    tracker: usize,
)
    requires
        old(book).wf(),
        call_ensures(
            unlock_after_execution,
            (book, tasks, lock_attempts, provisioning_tracker_count, cu),
            (),
        ),
        old(lock_attempts)@.len() == 1,
        ({
            let attempt = old(lock_attempts)@[0];
            let p = attempt.target.0 as int;
            let page = old(book).pages@[p];
            &&& p < old(book).pages@.len()
            &&& attempt.status != LockStatus::Failed
            &&& old(book).held@.count(attempt.lock()) > 0
            &&& page.current_usage == Usage::Writable || page.current_usage == Usage::Readonly(1)
            &&& page.next_usage != Usage::Unused
            &&& page.provisional_task_ids@ == seq![tracker]
            &&& tracker < old(book).trackers@.len()
            &&& old(book).trackers@[tracker as int].remaining_count > 0
        }),
    ensures
        ({
            let p = old(lock_attempts)@[0].target.0 as int;
            let before = old(book).trackers@[tracker as int];
            let after = final(book).trackers@[tracker as int];
            let weight = tasks@[before.task.0 as int].unique_weight;
            &&& final(book).pages@[p].current_usage == old(book).pages@[p].next_usage
            &&& final(book).pages@[p].next_usage == Usage::Unused
            &&& final(book).pages@[p].provisional_task_ids@.len() == 0
            &&& after.task == before.task
            &&& after.remaining_count == before.remaining_count - 1
            &&& before.remaining_count == 1 ==> {
                &&& final(book).fulfilled_provisional_task_ids@.dom().contains(weight)
                &&& final(book).fulfilled_provisional_task_ids@[weight] == before.task.0
                &&& *final(provisioning_tracker_count) == *old(provisioning_tracker_count) - 1
            }
            &&& before.remaining_count > 1 ==> {
                &&& final(book).fulfilled_provisional_task_ids@ == old(
                    book,
                ).fulfilled_provisional_task_ids@
                &&& *final(provisioning_tracker_count) == *old(provisioning_tracker_count)
            }
        }),
{
    reveal(released_one);
    reveal_with_fuel(released, 2);
    reveal_with_fuel(progressed, 2);
    let attempts = old(lock_attempts)@;
    let p = attempts[0].target;
    let s = state_of(*old(book), *old(provisioning_tracker_count) as int);
    let t = unlocked(s, tasks@, attempts[0], cu);
    let end = state_of(*final(book), *final(provisioning_tracker_count) as int);
    let read = (p, RequestedUsage::Readonly);
    let write = (p, RequestedUsage::Writable);
    let lock = attempts[0].lock();
    assert(lock == read || lock == write);
    assert(old(book).page_wf(p));
    assert(old(book).page(p) == old(book).pages@[p.0 as int]);
    assert(usage::usage_of(t.held, p) == Usage::Unused);
    assert(must_switch(t, p));
    let moved = on_page(t.pending, p);
    assert(moved.count(read) == t.pending.count(read));
    assert(moved.count(write) == t.pending.count(write));
    assert(s.waiting[p.0 as int] == seq![tracker]);
    assert(end == switched(t, tasks@, p));
    let u = Released {
        held: t.held.add(moved),
        pending: t.pending.sub(moved),
        waiting: t.waiting.update(p.0 as int, Seq::empty()),
        ..t
    };
    assert(end == progressed(u, tasks@, seq![tracker], 1));
    lemma_progressed_keeps(u, tasks@, seq![tracker], 1);
    assert(progressed(u, tasks@, seq![tracker], 0) == u);
    assert(end.waiting[p.0 as int] == final(book).pages@[p.0 as int].provisional_task_ids@);
    assert(final(book).page_wf(p));
    assert(final(book).page(p) == final(book).pages@[p.0 as int]);
}

/// Who waits for a page has a tracker.
spec fn known_in(s: Released) -> bool {
    forall|p: int, j: int|
        0 <= p < s.waiting.len() && 0 <= j < s.waiting[p].len() ==> #[trigger] s.waiting[p][j]
            < s.trackers.len()
}

/// Tracker `t` among those that progress.
proof fn lemma_progressed_tracker(
    s: Released,
    tasks: Seq<Task>,
    ids: Seq<usize>,
    n: nat,
    t: usize,
    w: UniqueWeight,
)
    requires
        n <= ids.len(),
        t < s.trackers.len(),
        forall|j: int| 0 <= j < ids.len() ==> #[trigger] ids[j] < s.trackers.len(),
        forall|j: int, k: int| 0 <= j < k < ids.len() && #[trigger] ids[j] == t ==> #[trigger] ids[k] != t,
    ensures
        ({
            let e = progressed(s, tasks, ids, n);
            let among = exists|j: int| 0 <= j < n && #[trigger] ids[j] == t;
            &&& e.trackers.len() == s.trackers.len()
            &&& !among ==> e.trackers[t as int] == s.trackers[t as int]
            &&& among ==> e.trackers[t as int] == s.trackers[t as int].progressed()
            &&& s.fulfilled.dom().contains(w) ==> e.fulfilled.dom().contains(w)
            &&& among && s.trackers[t as int].remaining_count == 1 && w
                == tasks[s.trackers[t as int].task.0 as int].unique_weight
                ==> e.fulfilled.dom().contains(w)
        }),
    decreases n,
{
    if n > 0 {
        lemma_progressed_tracker(s, tasks, ids, (n - 1) as nat, t, w);
        if ids[n - 1] == t {
            assert(!(exists|j: int| 0 <= j < n - 1 && #[trigger] ids[j] == t));
        }
    }
}

/// What a release does elsewhere leaves tracker `t` and those that wait for page `q` alone.
proof fn lemma_released_other_trackers(
    s: Released,
    tasks: Seq<Task>,
    attempts: Seq<LockAttempt>,
    cu: CU,
    n: nat,
    m: nat,
    t: usize,
    q: int,
    w: UniqueWeight,
)
    requires
        n <= m <= attempts.len(),
        ({
            let a = released(s, tasks, attempts, cu, n);
            &&& t < a.trackers.len()
            &&& known_in(a)
            &&& forall|j: int|
                n <= j < m ==> {
                    &&& (#[trigger] attempts[j]).target.0 < a.waiting.len()
                    &&& attempts[j].target.0 != q
                    &&& !a.waiting[attempts[j].target.0 as int].contains(t)
                }
        }),
    ensures
        ({
            let a = released(s, tasks, attempts, cu, n);
            let b = released(s, tasks, attempts, cu, m);
            &&& known_in(b)
            &&& b.trackers.len() == a.trackers.len()
            &&& b.trackers[t as int] == a.trackers[t as int]
            &&& b.waiting.len() == a.waiting.len()
            &&& 0 <= q < a.waiting.len() ==> b.waiting[q] == a.waiting[q]
            &&& a.fulfilled.dom().contains(w) ==> b.fulfilled.dom().contains(w)
            &&& forall|x: int|
                0 <= x < a.waiting.len() && !a.waiting[x].contains(t) ==> !(
                #[trigger] b.waiting[x]).contains(t)
        }),
    decreases m - n,
{
    reveal(released_one);
    if n < m {
        lemma_released_other_trackers(s, tasks, attempts, cu, n, (m - 1) as nat, t, q, w);
        let before = released(s, tasks, attempts, cu, (m - 1) as nat);
        let at = unlocked(before, tasks, attempts[m - 1], cu);
        let page = attempts[m - 1].target;
        assert(attempts[m - 1].target.0 != q);
        if must_switch(at, page) {
            let moved = on_page(at.pending, page);
            let u = Released {
                held: at.held.add(moved),
                pending: at.pending.sub(moved),
                waiting: at.waiting.update(page.0 as int, Seq::empty()),
                ..at
            };
            let ids = at.waiting[page.0 as int];
            assert(!ids.contains(t));
            lemma_progressed_keeps(u, tasks, ids, ids.len());
            assert forall|j: int| 0 <= j < ids.len() implies #[trigger] ids[j] < u.trackers.len() by {
                assert(before.waiting[page.0 as int][j] < before.trackers.len());
            }
            lemma_progressed_tracker(u, tasks, ids, ids.len(), t, w);
            let b = released(s, tasks, attempts, cu, m);
            assert forall|p: int, j: int|
                0 <= p < b.waiting.len() && 0 <= j < b.waiting[p].len() implies #[trigger] b.waiting[p][j]
                < b.trackers.len() by {
                assert(before.waiting[p][j] < before.trackers.len());
            }
        }
    }
}

/// When the last user of a page leaves, the pending lock on it comes true, and each tracker that waits
/// for the page has one page less to wait for. Where that was its last, its task is ready.
pub proof fn law_each_tracker_of_a_page_is_told(
    book: &mut AddressBook,
    tasks: &Vec<Task>,
    lock_attempts: &mut Vec<LockAttempt>,
    provisioning_tracker_count: &mut usize,
    cu: CU,
    i: int,
    k: int,
)
    requires
        old(book).wf(),
        trackers_known(*old(book), tasks@),
        locking::in_book(*old(book), old(lock_attempts)@),
        call_ensures(
            unlock_after_execution,
            (book, tasks, lock_attempts, provisioning_tracker_count, cu),
            (),
        ),
        0 <= i < old(lock_attempts)@.len(),
        ({
            let attempts = old(lock_attempts)@;
            let attempt = attempts[i];
            let page = old(book).pages@[attempt.target.0 as int];
            let ids = page.provisional_task_ids@;
            &&& attempt.status != LockStatus::Failed
            &&& old(book).held@.count(attempt.lock()) > 0
            &&& page.current_usage == Usage::Writable || page.current_usage == Usage::Readonly(1)
            &&& page.next_usage != Usage::Unused
            &&& 0 <= k < ids.len()
            &&& ids[k] < old(book).trackers@.len()
            &&& old(book).trackers@[ids[k] as int].remaining_count > 0
            &&& forall|a: int, b: int|
                0 <= a < b < ids.len() && #[trigger] ids[a] == ids[k] ==> #[trigger] ids[b] != ids[k]
            &&& forall|j: int|
                0 <= j < attempts.len() && j != i ==> (#[trigger] attempts[j]).target
                    != attempt.target && !old(
                    book,
                ).pages@[attempts[j].target.0 as int].provisional_task_ids@.contains(ids[k])
        }),
    ensures
        ({
            let p = old(lock_attempts)@[i].target.0 as int;
            let t = old(book).pages@[p].provisional_task_ids@[k] as int;
            let before = old(book).trackers@[t];
            let after = final(book).trackers@[t];
            &&& final(book).pages@[p].current_usage == old(book).pages@[p].next_usage
            &&& final(book).pages@[p].next_usage == Usage::Unused
            &&& final(book).pages@[p].provisional_task_ids@.len() == 0
            &&& after.task == before.task
            &&& after.remaining_count == before.remaining_count - 1
            &&& before.remaining_count == 1 ==> final(book).fulfilled_provisional_task_ids@.dom().contains(
                tasks@[before.task.0 as int].unique_weight,
            )
        }),
{
    reveal(released_one);
    let attempts = old(lock_attempts)@;
    let n = attempts.len();
    let p = attempts[i].target;
    let s = state_of(*old(book), *old(provisioning_tracker_count) as int);
    let e = state_of(*final(book), *final(provisioning_tracker_count) as int);
    let ids = old(book).pages@[p.0 as int].provisional_task_ids@;
    let t = ids[k];
    let w = tasks@[old(book).trackers@[t as int].task.0 as int].unique_weight;
    let read = (p, RequestedUsage::Readonly);
    let write = (p, RequestedUsage::Writable);
    assert(old(book).page_wf(p));
    assert(final(book).page_wf(p));
    assert(old(book).page(p) == old(book).pages@[p.0 as int]);
    assert(final(book).page(p) == final(book).pages@[p.0 as int]);
    assert forall|j: int| 0 <= j < n && j != i implies {
        &&& (#[trigger] attempts[j]).target.0 < s.waiting.len()
        &&& attempts[j].target.0 != p.0
        &&& !s.waiting[attempts[j].target.0 as int].contains(t)
    } by {
        assert(attempts[j].target != p);
    }
    assert(known_in(s)) by {
        assert forall|q: int, j: int|
            0 <= q < s.waiting.len() && 0 <= j < s.waiting[q].len() implies #[trigger] s.waiting[q][j]
            < s.trackers.len() by {
            assert(old(book).pages@[q].provisional_task_ids@[j] < old(book).trackers@.len());
        }
    }
    lemma_released_elsewhere(s, tasks@, attempts, cu, 0, i as nat, read);
    lemma_released_elsewhere(s, tasks@, attempts, cu, 0, i as nat, write);
    lemma_released_other_trackers(s, tasks@, attempts, cu, 0, i as nat, t, p.0 as int, w);
    let before = released(s, tasks@, attempts, cu, i as nat);
    let at = unlocked(before, tasks@, attempts[i], cu);
    let lock = attempts[i].lock();
    assert(lock == read || lock == write);
    assert(usage::usage_of(at.held, p) == Usage::Unused);
    assert(usage::usage_of(at.pending, p) == old(book).pages@[p.0 as int].next_usage);
    assert(must_switch(at, p));
    let moved = on_page(at.pending, p);
    assert(moved.count(read) == at.pending.count(read));
    assert(moved.count(write) == at.pending.count(write));
    let u = Released {
        held: at.held.add(moved),
        pending: at.pending.sub(moved),
        waiting: at.waiting.update(p.0 as int, Seq::empty()),
        ..at
    };
    assert(at.waiting[p.0 as int] == ids);
    lemma_progressed_keeps(u, tasks@, ids, ids.len());
    assert forall|j: int| 0 <= j < ids.len() implies #[trigger] ids[j] < u.trackers.len() by {
        assert(before.waiting[p.0 as int][j] < before.trackers.len());
    }
    lemma_progressed_tracker(u, tasks@, ids, ids.len(), t, w);
    assert(ids[k] == t);
    let next = released(s, tasks@, attempts, cu, (i + 1) as nat);
    assert(next == progressed(u, tasks@, ids, ids.len()));
    assert(known_in(next)) by {
        assert forall|q: int, j: int|
            0 <= q < next.waiting.len() && 0 <= j < next.waiting[q].len() implies #[trigger] next.waiting[q][j]
            < next.trackers.len() by {
            assert(before.waiting[q][j] < before.trackers.len());
        }
    }
    lemma_released_elsewhere(s, tasks@, attempts, cu, (i + 1) as nat, n, read);
    lemma_released_elsewhere(s, tasks@, attempts, cu, (i + 1) as nat, n, write);
    assert forall|j: int| i + 1 <= j < n implies {
        &&& (#[trigger] attempts[j]).target.0 < next.waiting.len()
        &&& attempts[j].target.0 != p.0
        &&& !next.waiting[attempts[j].target.0 as int].contains(t)
    } by {
        assert(!before.waiting[attempts[j].target.0 as int].contains(t));
    }
    lemma_released_other_trackers(s, tasks@, attempts, cu, (i + 1) as nat, n, t, p.0 as int, w);
    assert(e.waiting[p.0 as int] == final(book).pages@[p.0 as int].provisional_task_ids@);
}

/// As long as others read a page, a pending lock on it stays pending, and who waits for it waits on.
pub proof fn law_a_pending_lock_waits_for_all_users(
    book: &mut AddressBook,
    tasks: &Vec<Task>,
    lock_attempts: &mut Vec<LockAttempt>,
    provisioning_tracker_count: &mut usize,
    cu: CU,
    i: int,
    t: usize,
    users: usize,
)
    requires
        old(book).wf(),
        trackers_known(*old(book), tasks@),
        locking::in_book(*old(book), old(lock_attempts)@),
        call_ensures(
            unlock_after_execution,
            (book, tasks, lock_attempts, provisioning_tracker_count, cu),
            (),
        ),
        0 <= i < old(lock_attempts)@.len(),
        users > 1,
        ({
            let attempts = old(lock_attempts)@;
            let attempt = attempts[i];
            let page = old(book).pages@[attempt.target.0 as int];
            &&& attempt.status != LockStatus::Failed
            &&& old(book).held@.count(attempt.lock()) > 0
            &&& page.current_usage == Usage::Readonly(users)
            &&& t < old(book).trackers@.len()
            &&& forall|j: int|
                0 <= j < attempts.len() && j != i ==> (#[trigger] attempts[j]).target
                    != attempt.target && !old(
                    book,
                ).pages@[attempts[j].target.0 as int].provisional_task_ids@.contains(t)
        }),
    ensures
        ({
            let p = old(lock_attempts)@[i].target.0 as int;
            &&& final(book).pages@[p].current_usage == Usage::Readonly((users - 1) as usize)
            &&& final(book).pages@[p].next_usage == old(book).pages@[p].next_usage
            &&& final(book).pages@[p].provisional_task_ids@ == old(
                book,
            ).pages@[p].provisional_task_ids@
            &&& final(book).trackers@[t as int] == old(book).trackers@[t as int]
        }),
{
    reveal(released_one);
    let attempts = old(lock_attempts)@;
    let n = attempts.len();
    let p = attempts[i].target;
    let s = state_of(*old(book), *old(provisioning_tracker_count) as int);
    let e = state_of(*final(book), *final(provisioning_tracker_count) as int);
    let w: UniqueWeight = 0;
    let read = (p, RequestedUsage::Readonly);
    let write = (p, RequestedUsage::Writable);
    assert(old(book).page_wf(p));
    assert(final(book).page_wf(p));
    assert(old(book).page(p) == old(book).pages@[p.0 as int]);
    assert(final(book).page(p) == final(book).pages@[p.0 as int]);
    assert forall|j: int| 0 <= j < n && j != i implies {
        &&& (#[trigger] attempts[j]).target.0 < s.waiting.len()
        &&& attempts[j].target.0 != p.0
        &&& !s.waiting[attempts[j].target.0 as int].contains(t)
    } by {
        assert(attempts[j].target != p);
    }
    assert(known_in(s)) by {
        assert forall|q: int, j: int|
            0 <= q < s.waiting.len() && 0 <= j < s.waiting[q].len() implies #[trigger] s.waiting[q][j]
            < s.trackers.len() by {
            assert(old(book).pages@[q].provisional_task_ids@[j] < old(book).trackers@.len());
        }
    }
    lemma_released_elsewhere(s, tasks@, attempts, cu, 0, i as nat, read);
    lemma_released_elsewhere(s, tasks@, attempts, cu, 0, i as nat, write);
    lemma_released_other_trackers(s, tasks@, attempts, cu, 0, i as nat, t, p.0 as int, w);
    let before = released(s, tasks@, attempts, cu, i as nat);
    let at = unlocked(before, tasks@, attempts[i], cu);
    let lock = attempts[i].lock();
    assert(lock == read || lock == write);
    assert(at.held.count(read) == users - 1);
    assert(!must_switch(at, p));
    let next = released(s, tasks@, attempts, cu, (i + 1) as nat);
    assert(next == at);
    lemma_released_elsewhere(s, tasks@, attempts, cu, (i + 1) as nat, n, read);
    lemma_released_elsewhere(s, tasks@, attempts, cu, (i + 1) as nat, n, write);
    assert forall|j: int| i + 1 <= j < n implies {
        &&& (#[trigger] attempts[j]).target.0 < next.waiting.len()
        &&& attempts[j].target.0 != p.0
        &&& !next.waiting[attempts[j].target.0 as int].contains(t)
    } by {
        assert(!before.waiting[attempts[j].target.0 as int].contains(t));
    }
    lemma_released_other_trackers(s, tasks@, attempts, cu, (i + 1) as nat, n, t, p.0 as int, w);
    assert(s.waiting[p.0 as int] == old(book).pages@[p.0 as int].provisional_task_ids@);
    assert(e.waiting[p.0 as int] == final(book).pages@[p.0 as int].provisional_task_ids@);
}

} // verus!
