use crate::collections;
use crate::collections::{dash_map_entry_or_insert, dash_map_new};
use crate::scheduler::task::{
    LockAttempt, LockStatus, TaskIds, TaskInQueue, UniqueWeight, CU,
};
use crate::scheduler::task;
use crate::scheduler::usage;
use crate::scheduler::usage::{Lock, PageRc, RequestedUsage, Usage, SOLE_USE_COUNT};
use crate::types::Pubkey;
use dashmap::DashMap;
use std::collections::BTreeMap;
use vstd::multiset::Multiset;
use vstd::prelude::*;

verus! {

/// What is known of one account: how it is in use, how it will be used next, what its use has cost
/// so far, and which tasks wait for it.
pub struct Page {
    pub address: Pubkey,
    pub current_usage: Usage,
    pub next_usage: Usage,
    pub provisional_task_ids: Vec<usize>,
    pub cu: CU,
    pub contended_write_task_count: usize,
    pub contended_unique_weights: TaskIds,
}

impl Page {
    pub fn new(address: &Pubkey, current_usage: Usage) -> (r: Self)
        ensures
            r.address == *address,
            r.current_usage == current_usage,
            r.next_usage == Usage::Unused,
            r.provisional_task_ids@ == Seq::<usize>::empty(),
            r.cu == 0,
            r.contended_write_task_count == 0,
            r.contended_unique_weights@.dom() == Set::<UniqueWeight>::empty(),
    {
        Self {
            address: *address,
            current_usage,
            next_usage: Usage::Unused,
            provisional_task_ids: Vec::new(),
            cu: 0,
            contended_write_task_count: 0,
            contended_unique_weights: TaskIds::new(),
        }
    }

    pub fn switch_to_next_usage(&mut self)
        ensures
            *final(self) == (Page {
                current_usage: old(self).next_usage,
                next_usage: Usage::Unused,
                ..*old(self)
            }),
    {
        self.current_usage = self.next_usage;
        self.next_usage = Usage::Unused;
    }

    /// A task of weight `unique_weight` may go for this page now: no task waits for the page, or
    /// that task is the heaviest that does, or it wants to read and none waits to write.
    pub open spec fn strictly_lockable(
        self,
        unique_weight: UniqueWeight,
        requested_usage: RequestedUsage,
    ) -> bool {
        ||| self.contended_unique_weights@.dom() == Set::<UniqueWeight>::empty()
        ||| task::is_heaviest(self.contended_unique_weights@, unique_weight)
        ||| requested_usage == RequestedUsage::Readonly && self.contended_write_task_count == 0
    }
}

/// A task that runs as soon as a number of pages has been freed for it.
#[derive(Clone, Copy, Debug, PartialEq, Eq, Structural)]
pub struct ProvisioningTracker {
    pub remaining_count: usize,
    pub task: TaskInQueue,
}

impl ProvisioningTracker {
    pub fn new(remaining_count: usize, task: TaskInQueue) -> (r: Self)
        ensures
            r == (ProvisioningTracker { remaining_count, task }),
    {
        Self { remaining_count, task }
    }

    pub fn is_fulfilled(&self) -> (r: bool)
        ensures
            r == (self.remaining_count == 0),
    {
        self.count() == 0
    }

    pub fn progress(&mut self)
        ensures
            *final(self) == old(self).progressed(),
    {
        self.remaining_count = self.remaining_count.wrapping_sub(1);
    }

    /// The tracker when one page more has been freed.
    pub open spec fn progressed(self) -> ProvisioningTracker {
        ProvisioningTracker {
            remaining_count: if self.remaining_count == 0 {
                usize::MAX
            } else {
                (self.remaining_count - 1) as usize
            },
            ..self
        }
    }

    pub fn prev_count(&self) -> (r: usize)
        requires
            self.remaining_count < usize::MAX,
        ensures
            r == self.remaining_count + 1,
    {
        self.count() + 1
    }

    pub fn count(&self) -> (r: usize)
        ensures
            r == self.remaining_count,
    {
        self.remaining_count
    }
}

/// The pages of all accounts, the tasks that are worth another try, and those whose provisional
/// locks have all come true.
pub struct AddressBook {
    pub book: DashMap<[u8; 32], usize>,
    pub pages: Vec<Page>,
    pub trackers: Vec<ProvisioningTracker>,
    pub uncontended_task_ids: BTreeMap<UniqueWeight, usize>,
    pub fulfilled_provisional_task_ids: BTreeMap<UniqueWeight, usize>,
    pub held: Ghost<Multiset<Lock>>,
    pub pending: Ghost<Multiset<Lock>>,
}

/// At most one lock is pending on a page.
pub open spec fn one_pending(pending: Multiset<Lock>, p: PageRc) -> bool {
    usage::readers(pending, p) + usage::writers(pending, p) <= 1
}

/// How an attempt at `lock` comes out when `held` are the held locks and `pending` the pending
/// ones. A lock that others stand in the way of can be had provisionally, unless it is wanted now.
pub open spec fn decided(
    page: Page,
    held: Multiset<Lock>,
    pending: Multiset<Lock>,
    immediate: bool,
    unique_weight: UniqueWeight,
    lock: Lock,
) -> LockStatus {
    if !page.strictly_lockable(unique_weight, lock.1) {
        LockStatus::Failed
    } else if usage::usage_of(held, lock.0) == Usage::Unused {
        LockStatus::Succeded
    } else if usage::usage_of(pending, lock.0) != Usage::Unused {
        LockStatus::Failed
    } else if usage::compatible(held, lock) {
        LockStatus::Succeded
    } else if immediate {
        LockStatus::Failed
    } else {
        LockStatus::Provisional
    }
}

impl AddressBook {
    /// The addresses with their pages.
    pub open spec fn entries(self) -> Map<[u8; 32], usize> {
        collections::dash_map_entries(self.book)
    }

    /// The page behind a handle.
    pub open spec fn page(self, p: PageRc) -> Page {
        self.pages@[p.0 as int]
    }

    /// The usages of a page are those of the held and of the pending locks.
    pub open spec fn page_wf(self, p: PageRc) -> bool {
        &&& self.page(p).current_usage == usage::usage_of(self.held@, p)
        &&& self.page(p).next_usage == usage::usage_of(self.pending@, p)
        &&& usage::exclusive(self.held@, p)
        &&& one_pending(self.pending@, p)
    }

    /// The usages of all pages are those of the locks, and every address has its own page.
    pub open spec fn wf(self) -> bool {
        &&& forall|p: PageRc| p.0 < self.pages@.len() ==> #[trigger] self.page_wf(p)
        &&& forall|l: Lock| #[trigger] self.held@.count(l) > 0 ==> l.0.0 < self.pages@.len()
        &&& forall|l: Lock| #[trigger] self.pending@.count(l) > 0 ==> l.0.0 < self.pages@.len()
        &&& forall|a: [u8; 32]| #[trigger]
            self.entries().dom().contains(a) ==> self.entries()[a] < self.pages@.len()
                && self.pages@[self.entries()[a] as int].address.0 == a
        &&& forall|p: int|
            0 <= p < self.pages@.len() ==> self.entries().dom().contains(
                (#[trigger] self.pages@[p]).address.0,
            ) && self.entries()[self.pages@[p].address.0] == p
    }

    /// A lock is pending only on a page that is in use.
    pub open spec fn steady(self) -> bool {
        forall|p: PageRc|
            p.0 < self.pages@.len() && (#[trigger] self.page(p)).current_usage == Usage::Unused
                ==> self.page(p).next_usage == Usage::Unused
    }

    pub fn default() -> (r: Self)
        ensures
            r.wf(),
            r.steady(),
            r.held@ == Multiset::<Lock>::empty(),
            r.pending@ == Multiset::<Lock>::empty(),
            r.pages@ == Seq::<Page>::empty(),
            r.trackers@ == Seq::<ProvisioningTracker>::empty(),
            r.uncontended_task_ids@ == Map::<UniqueWeight, usize>::empty(),
            r.fulfilled_provisional_task_ids@ == Map::<UniqueWeight, usize>::empty(),
    {
        AddressBook {
            book: dash_map_new(),
            pages: Vec::new(),
            trackers: Vec::new(),
            uncontended_task_ids: BTreeMap::new(),
            fulfilled_provisional_task_ids: BTreeMap::new(),
            held: Ghost(Multiset::empty()),
            pending: Ghost(Multiset::empty()),
        }
    }

    /// Makes one attempt at a lock for a task of weight `unique_weight`, and says what the page has
    /// cost so far.
    pub fn attempt_lock_address(
        &mut self,
        from_runnable: bool,
        prefer_immediate: bool,
        unique_weight: UniqueWeight,
        attempt: &mut LockAttempt,
    ) -> (cu: CU)
        requires
            old(self).wf(),
            old(attempt).target.0 < old(self).pages@.len(),
            old(self).page(old(attempt).target).current_usage == Usage::Unused ==> old(self).page(
                old(attempt).target,
            ).next_usage == Usage::Unused,
            usage::readers(old(self).held@, old(attempt).target) < usize::MAX,
        ensures
            final(self).wf(),
            same_but_for_usages(*old(self), *final(self), old(attempt).target),
            cu == old(self).page(old(attempt).target).cu,
            ({
                let status = decided(
                    old(self).page(old(attempt).target),
                    old(self).held@,
                    old(self).pending@,
                    from_runnable || prefer_immediate,
                    unique_weight,
                    old(attempt).lock(),
                );
                &&& *final(attempt) == (LockAttempt { status, ..*old(attempt) })
                &&& final(self).held@ == if status == LockStatus::Succeded {
                    old(self).held@.insert(old(attempt).lock())
                } else {
                    old(self).held@
                }
                &&& final(self).pending@ == if status == LockStatus::Provisional {
                    old(self).pending@.insert(old(attempt).lock())
                } else {
                    old(self).pending@
                }
            }),
    {
        let p: usize = attempt.target.0;
        let ghost page = self.page(attempt.target);
        let ghost target = attempt.target;
        assert(self.page_wf(target));
        let strictly_lockable_for_replay =
            match self.pages[p].contended_unique_weights.heaviest_task_cursor() {
            None => true,
            Some((heaviest, _)) => if heaviest == unique_weight {
                true
            } else {
                attempt.requested_usage == RequestedUsage::Readonly
                    && self.pages[p].contended_write_task_count == 0
            },
        };
        assert(strictly_lockable_for_replay == page.strictly_lockable(
            unique_weight,
            attempt.requested_usage,
        ));
        let immediate = from_runnable || prefer_immediate;
        if !strictly_lockable_for_replay {
            attempt.status = LockStatus::Failed;
        } else {
            let next_usage = self.pages[p].next_usage;
            match self.pages[p].current_usage {
                Usage::Unused => {
                    self.pages[p].current_usage = Usage::renew(attempt.requested_usage);
                    attempt.status = LockStatus::Succeded;
                    self.held = Ghost(self.held@.insert(attempt.lock()));
                },
                Usage::Readonly(count) => match attempt.requested_usage {
                    RequestedUsage::Readonly => match next_usage {
                        Usage::Unused => {
                            self.pages[p].current_usage = Usage::Readonly(count + 1);
                            attempt.status = LockStatus::Succeded;
                            self.held = Ghost(self.held@.insert(attempt.lock()));
                        },
                        Usage::Readonly(_) | Usage::Writable => {
                            attempt.status = LockStatus::Failed;
                        },
                    },
                    RequestedUsage::Writable => {
                        if immediate {
                            attempt.status = LockStatus::Failed;
                        } else {
                            match next_usage {
                                Usage::Unused => {
                                    attempt.status = LockStatus::Provisional;
                                    self.pages[p].next_usage = Usage::renew(
                                        attempt.requested_usage,
                                    );
                                    self.pending = Ghost(self.pending@.insert(attempt.lock()));
                                },
                                Usage::Readonly(_) | Usage::Writable => {
                                    attempt.status = LockStatus::Failed;
                                },
                            }
                        }
                    },
                },
                Usage::Writable => {
                    if immediate {
                        attempt.status = LockStatus::Failed;
                    } else {
                        match next_usage {
                            Usage::Unused => {
                                attempt.status = LockStatus::Provisional;
                                self.pages[p].next_usage = Usage::renew(attempt.requested_usage);
                                self.pending = Ghost(self.pending@.insert(attempt.lock()));
                            },
                            Usage::Readonly(_) | Usage::Writable => {
                                attempt.status = LockStatus::Failed;
                            },
                        }
                    }
                },
            }
        }
        proof {
            assert(self.page_wf(target));
            lemma_usages_changed(*old(self), *self, target);
        }
        self.pages[p].cu
    }

    /// Gives a held lock back, and says whether the page is unused after that.
    pub fn unlock(&mut self, attempt: &LockAttempt) -> (newly_uncontended: bool)
        requires
            old(self).wf(),
            old(self).held@.count(attempt.lock()) > 0,
        ensures
            final(self).wf(),
            same_but_for_usages(*old(self), *final(self), attempt.target),
            final(self).held@ == old(self).held@.remove(attempt.lock()),
            final(self).pending@ == old(self).pending@,
            newly_uncontended == (usage::usage_of(final(self).held@, attempt.target)
                == Usage::Unused),
    {
        let p: usize = attempt.target.0;
        assert(self.page_wf(attempt.target));
        let mut newly_uncontended = false;
        if let Usage::Readonly(count) = self.pages[p].current_usage {
            if count == SOLE_USE_COUNT {
                newly_uncontended = true;
            } else {
                self.pages[p].current_usage = Usage::Readonly(count - 1);
            }
        } else {
            newly_uncontended = true;
        }
        if newly_uncontended {
            self.pages[p].current_usage = Usage::Unused;
        }
        self.held = Ghost(self.held@.remove(attempt.lock()));
        proof {
            assert(self.page_wf(attempt.target));
            lemma_usages_changed(*old(self), *self, attempt.target);
        }
        newly_uncontended
    }

    /// Drops a pending lock.
    pub fn cancel(&mut self, attempt: &LockAttempt)
        requires
            old(self).wf(),
            old(self).pending@.count(attempt.lock()) > 0,
        ensures
            final(self).wf(),
            same_but_for_usages(*old(self), *final(self), attempt.target),
            final(self).held@ == old(self).held@,
            final(self).pending@ == old(self).pending@.remove(attempt.lock()),
    {
        let p: usize = attempt.target.0;
        assert(self.page_wf(attempt.target));
        self.pages[p].next_usage = Usage::Unused;
        self.pending = Ghost(self.pending@.remove(attempt.lock()));
        proof {
            assert(self.page_wf(attempt.target));
            lemma_usages_changed(*old(self), *self, attempt.target);
        }
    }

    /// Takes back what an attempt got, if it got anything, and says whether that left the page
    /// unused. After the execution a provisional lock has become a held one.
    pub fn reset_lock(&mut self, attempt: &LockAttempt, after_execution: bool) -> (newly_uncontended:
        bool)
        requires
            old(self).wf(),
            attempt.status == LockStatus::Succeded || (attempt.status == LockStatus::Provisional
                && after_execution) ==> old(self).held@.count(attempt.lock()) > 0,
            attempt.status == LockStatus::Provisional && !after_execution
                ==> old(self).pending@.count(attempt.lock()) > 0,
        ensures
            final(self).wf(),
            same_but_for_usages(*old(self), *final(self), attempt.target),
            final(self).held@ == if attempt.status == LockStatus::Succeded || (attempt.status
                == LockStatus::Provisional && after_execution) {
                old(self).held@.remove(attempt.lock())
            } else {
                old(self).held@
            },
            final(self).pending@ == if attempt.status == LockStatus::Provisional
                && !after_execution {
                old(self).pending@.remove(attempt.lock())
            } else {
                old(self).pending@
            },
            newly_uncontended == ((attempt.status == LockStatus::Succeded || (attempt.status
                == LockStatus::Provisional && after_execution)) && usage::usage_of(
                final(self).held@,
                attempt.target,
            ) == Usage::Unused),
    {
        match attempt.status {
            LockStatus::Succeded => self.unlock(attempt),
            LockStatus::Provisional => {
                if after_execution {
                    self.unlock(attempt)
                } else {
                    self.cancel(attempt);
                    false
                }
            },
            LockStatus::Failed => false,
        }
    }

    /// A preloader of this book: it starts from what the book holds, and what it loads is in the
    /// book.
    pub fn preloader(&mut self) -> (r: Preloader<'_>)
        ensures
            *r.book == *old(self),
            *final(self) == *final(r.book),
    {
        Preloader { book: self }
    }
}

/// The books differ in the usages of one page at most, besides their locks.
pub open spec fn same_but_for_usages(before: AddressBook, after: AddressBook, p: PageRc) -> bool {
    &&& after.entries() == before.entries()
    &&& after.trackers == before.trackers
    &&& after.uncontended_task_ids == before.uncontended_task_ids
    &&& after.fulfilled_provisional_task_ids == before.fulfilled_provisional_task_ids
    &&& after.pages@.len() == before.pages@.len()
    &&& forall|q: int|
        0 <= q < before.pages@.len() && q != p.0 ==> #[trigger] after.pages@[q] == before.pages@[q]
    &&& p.0 < before.pages@.len() ==> after.page(p) == (Page {
        current_usage: after.page(p).current_usage,
        next_usage: after.page(p).next_usage,
        ..before.page(p)
    })
}

/// A book whose locks changed on one page only stays well-formed if that page is.
proof fn lemma_usages_changed(before: AddressBook, after: AddressBook, p: PageRc)
    requires
        before.wf(),
        p.0 < before.pages@.len(),
        same_but_for_usages(before, after, p),
        forall|l: Lock| l.0 != p ==> #[trigger] after.held@.count(l) == before.held@.count(l),
        forall|l: Lock| l.0 != p ==> #[trigger] after.pending@.count(l) == before.pending@.count(l),
        after.page_wf(p),
    ensures
        after.wf(),
{
    assert forall|q: PageRc| q.0 < after.pages@.len() implies #[trigger] after.page_wf(q) by {
        if q != p {
            assert(before.page_wf(q));
            assert(after.pages@[q.0 as int] == before.pages@[q.0 as int]);
        }
    }
    assert forall|q: int| 0 <= q < after.pages@.len() implies after.entries().dom().contains(
        (#[trigger] after.pages@[q]).address.0,
    ) && after.entries()[after.pages@[q].address.0] == q by {
        assert(before.pages@[q].address == after.pages@[q].address);
    }
    assert forall|a: [u8; 32]| #[trigger] after.entries().dom().contains(a) implies
        after.entries()[a] < after.pages@.len()
        && after.pages@[after.entries()[a] as int].address.0 == a by {
        let q = before.entries()[a] as int;
        assert(before.pages@[q].address.0 == a);
    }
}

/// Finds the pages of accounts in a book, ahead of the locking.
pub struct Preloader<'a> {
    pub book: &'a mut AddressBook,
}

impl<'a> Preloader<'a> {
    /// The page of `address`; an address that has none yet gets a new, unused one.
    pub fn load(&mut self, address: Pubkey) -> (r: PageRc)
        requires
            old(self).book.wf(),
        ensures
            *final(final(self).book) == *final(old(self).book),
            final(self).book.wf(),
            final(self).book.held@ == old(self).book.held@,
            final(self).book.pending@ == old(self).book.pending@,
            final(self).book.trackers == old(self).book.trackers,
            final(self).book.uncontended_task_ids == old(self).book.uncontended_task_ids,
            final(self).book.fulfilled_provisional_task_ids
                == old(self).book.fulfilled_provisional_task_ids,
            final(self).book.entries().dom().contains(address.0),
            final(self).book.entries()[address.0] == r.0,
            r.0 < final(self).book.pages@.len(),
            old(self).book.entries().dom().contains(address.0) ==> final(self).book.entries()
                == old(self).book.entries() && final(self).book.pages@ == old(self).book.pages@,
            !old(self).book.entries().dom().contains(address.0) ==> {
                &&& r.0 == old(self).book.pages@.len()
                &&& final(self).book.entries() == old(self).book.entries().insert(address.0, r.0)
                &&& final(self).book.pages@.len() == old(self).book.pages@.len() + 1
                &&& final(self).book.pages@.drop_last() == old(self).book.pages@
                &&& final(self).book.page(r).address == address
                &&& final(self).book.page(r).current_usage == Usage::Unused
                &&& final(self).book.page(r).next_usage == Usage::Unused
                &&& final(self).book.page(r).provisional_task_ids@ == Seq::<usize>::empty()
                &&& final(self).book.page(r).cu == 0
                &&& final(self).book.page(r).contended_write_task_count == 0
                &&& final(self).book.page(r).contended_unique_weights@.dom() == Set::<
                    UniqueWeight,
                >::empty()
            },
    {
        let next: usize = self.book.pages.len();
        let p: usize = dash_map_entry_or_insert(&mut self.book.book, address.0, next);
        if p == next {
            self.book.pages.push(Page::new(&address, Usage::unused()));
        }
        proof {
            let book = *self.book;
            let held = book.held@;
            let pending = book.pending@;
            assert(held.count((PageRc(next), RequestedUsage::Readonly)) == 0);
            assert(held.count((PageRc(next), RequestedUsage::Writable)) == 0);
            assert(pending.count((PageRc(next), RequestedUsage::Readonly)) == 0);
            assert(pending.count((PageRc(next), RequestedUsage::Writable)) == 0);
            assert forall|q: PageRc| q.0 < book.pages@.len() implies #[trigger] book.page_wf(q) by {
                if q.0 < next {
                    assert(old(self).book.page_wf(q));
                    assert(book.page(q) == old(self).book.page(q));
                }
            }
            assert forall|q: int| 0 <= q < book.pages@.len() implies book.entries().dom().contains(
                (#[trigger] book.pages@[q]).address.0,
            ) && book.entries()[book.pages@[q].address.0] == q by {
                if q < next {
                    assert(book.pages@[q] == old(self).book.pages@[q]);
                }
            }
        }
        PageRc(p)
    }
}

/// No lock overtakes a heavier task: while a heavier task waits for the page, a lock to write is not
/// had, not even provisionally, and neither is one to read unless all that wait want to read.
pub proof fn law_no_lock_overtakes(
    book: &mut AddressBook,
    from_runnable: bool,
    prefer_immediate: bool,
    unique_weight: UniqueWeight,
    attempt: &mut LockAttempt,
    cu: CU,
    waiting_weight: UniqueWeight,
)
    requires
        call_ensures(
            AddressBook::attempt_lock_address,
            (book, from_runnable, prefer_immediate, unique_weight, attempt),
            cu,
        ),
        final(attempt).status != LockStatus::Failed,
        old(book).pages@[old(attempt).target.0 as int].contended_unique_weights@.dom().contains(
            waiting_weight,
        ),
        waiting_weight > unique_weight,
    ensures
        old(attempt).requested_usage == RequestedUsage::Readonly,
        old(book).pages@[old(attempt).target.0 as int].contended_write_task_count == 0,
{
    let page = old(book).pages@[old(attempt).target.0 as int];
    assert(page == old(book).page(old(attempt).target));
}

/// What an attempt does to its page. A lock that is had makes one more reader where nobody writes and
/// nothing is pending, or the only user of an unused page. One that is had provisionally is pending
/// on a page in use, and only where it was not wanted at once. One that is not had changes nothing.
pub proof fn law_a_lock_is_a_usage(
    book: &mut AddressBook,
    from_runnable: bool,
    prefer_immediate: bool,
    unique_weight: UniqueWeight,
    attempt: &mut LockAttempt,
    cu: CU,
)
    requires
        old(book).wf(),
        old(attempt).target.0 < old(book).pages@.len(),
        usage::readers(old(book).held@, old(attempt).target) < usize::MAX,
        call_ensures(
            AddressBook::attempt_lock_address,
            (book, from_runnable, prefer_immediate, unique_weight, attempt),
            cu,
        ),
    ensures
        ({
            let p = old(attempt).target.0 as int;
            let before = old(book).pages@[p];
            let after = final(book).pages@[p];
            let reads = old(attempt).requested_usage == RequestedUsage::Readonly;
            &&& cu == before.cu
            &&& after.cu == before.cu
            &&& after.contended_unique_weights@ == before.contended_unique_weights@
            &&& after.contended_write_task_count == before.contended_write_task_count
            &&& final(attempt).target == old(attempt).target
            &&& final(attempt).requested_usage == old(attempt).requested_usage
            &&& match final(attempt).status {
                LockStatus::Failed => after.current_usage == before.current_usage
                    && after.next_usage == before.next_usage,
                LockStatus::Succeded => after.next_usage == before.next_usage && match (
                    before.current_usage,
                    reads,
                ) {
                    (Usage::Unused, true) => after.current_usage == Usage::Readonly(1),
                    (Usage::Unused, false) => after.current_usage == Usage::Writable,
                    (Usage::Readonly(n), true) => after.current_usage == Usage::Readonly(
                        (n + 1) as usize,
                    ) && before.next_usage == Usage::Unused,
                    _ => false,
                },
                LockStatus::Provisional => {
                    &&& !from_runnable && !prefer_immediate
                    &&& before.current_usage != Usage::Unused
                    &&& before.next_usage == Usage::Unused
                    &&& !(reads && before.current_usage is Readonly)
                    &&& after.current_usage == before.current_usage
                    &&& after.next_usage == (if reads {
                        Usage::Readonly(1)
                    } else {
                        Usage::Writable
                    })
                },
            }
        }),
{
    let p = old(attempt).target;
    assert(old(book).page_wf(p));
    assert(final(book).page_wf(p));
    assert(old(book).page(p) == old(book).pages@[p.0 as int]);
    assert(final(book).page(p) == final(book).pages@[p.0 as int]);
}

/// A lock that nothing stands in the way of is had: where nobody waits for the page, or nobody heavier,
/// or the task wants to read and nobody waits to write, an unused page is locked at once, and so is
/// one that is only read where the task wants to read it and nothing is pending.
pub proof fn law_a_lock_that_is_due_is_granted(
    book: &mut AddressBook,
    from_runnable: bool,
    prefer_immediate: bool,
    unique_weight: UniqueWeight,
    attempt: &mut LockAttempt,
    cu: CU,
)
    requires
        old(book).wf(),
        old(attempt).target.0 < old(book).pages@.len(),
        call_ensures(
            AddressBook::attempt_lock_address,
            (book, from_runnable, prefer_immediate, unique_weight, attempt),
            cu,
        ),
        ({
            let page = old(book).pages@[old(attempt).target.0 as int];
            let reads = old(attempt).requested_usage == RequestedUsage::Readonly;
            let waiting = page.contended_unique_weights@.dom();
            ||| waiting == Set::<UniqueWeight>::empty()
            ||| waiting.contains(unique_weight) && forall|j: UniqueWeight| #[trigger]
                waiting.contains(j) ==> j <= unique_weight
            ||| reads && page.contended_write_task_count == 0
        }),
    ensures
        ({
            let page = old(book).pages@[old(attempt).target.0 as int];
            let reads = old(attempt).requested_usage == RequestedUsage::Readonly;
            &&& page.current_usage == Usage::Unused ==> final(attempt).status
                == LockStatus::Succeded
            &&& reads && page.current_usage is Readonly && page.next_usage == Usage::Unused
                ==> final(attempt).status == LockStatus::Succeded
            &&& page.current_usage != Usage::Unused && !(reads && page.current_usage is Readonly)
                && page.next_usage == Usage::Unused && !from_runnable && !prefer_immediate
                ==> final(attempt).status == LockStatus::Provisional
        }),
{
    let p = old(attempt).target;
    assert(old(book).page_wf(p));
    assert(old(book).page(p) == old(book).pages@[p.0 as int]);
}

/// Giving a lock back is the reverse of getting it, and says whether that leaves the page without any
/// user. A provisional lock that has not come true yet is only pending.
pub proof fn law_a_lock_is_given_back(
    book: &mut AddressBook,
    attempt: &LockAttempt,
    after_execution: bool,
    unused: bool,
)
    requires
        old(book).wf(),
        attempt.target.0 < old(book).pages@.len(),
        attempt.status == LockStatus::Succeded || (attempt.status == LockStatus::Provisional
            && after_execution) ==> old(book).held@.count(attempt.lock()) > 0,
        attempt.status == LockStatus::Provisional && !after_execution ==> old(
            book,
        ).pending@.count(attempt.lock()) > 0,
        call_ensures(AddressBook::reset_lock, (book, attempt, after_execution), unused),
    ensures
        ({
            let p = attempt.target.0 as int;
            let before = old(book).pages@[p];
            let after = final(book).pages@[p];
            let holds = attempt.status == LockStatus::Succeded || (attempt.status
                == LockStatus::Provisional && after_execution);
            &&& holds ==> {
                &&& match before.current_usage {
                    Usage::Unused => false,
                    Usage::Readonly(n) => after.current_usage == if n == 1 {
                        Usage::Unused
                    } else {
                        Usage::Readonly((n - 1) as usize)
                    },
                    Usage::Writable => after.current_usage == Usage::Unused,
                }
                &&& after.next_usage == before.next_usage
                &&& unused == (after.current_usage == Usage::Unused)
            }
            &&& !holds ==> after.current_usage == before.current_usage && !unused
            &&& attempt.status == LockStatus::Provisional && !after_execution ==> after.next_usage
                == Usage::Unused
            &&& attempt.status == LockStatus::Failed ==> after.next_usage == before.next_usage
        }),
{
    let p = attempt.target;
    assert(old(book).page_wf(p));
    assert(final(book).page_wf(p));
    let held = old(book).held@;
    let pending = old(book).pending@;
    let read = (p, RequestedUsage::Readonly);
    let write = (p, RequestedUsage::Writable);
    let lock = attempt.lock();
    assert(lock == read || lock == write);
    assert(old(book).page(p) == old(book).pages@[p.0 as int]);
    assert(final(book).page(p) == final(book).pages@[p.0 as int]);
    if held.count(lock) > 0 {
        assert(held.remove(lock).count(read) == held.count(read) - (if lock == read { 1int } else { 0 }));
        assert(held.remove(lock).count(write) == held.count(write) - (if lock == write { 1int } else { 0 }));
    }
    if pending.count(lock) > 0 {
        assert(pending.remove(lock).count(read) == pending.count(read) - (if lock == read { 1int } else { 0 }));
        assert(pending.remove(lock).count(write) == pending.count(write) - (if lock == write { 1int } else { 0 }));
    }
}

/// Two addresses have the same page exactly if they are the same, whenever they are loaded.
pub proof fn law_each_address_has_its_page<'a, 'b>(
    first: &mut Preloader<'a>,
    second: &mut Preloader<'b>,
    a: Pubkey,
    b: Pubkey,
    p: PageRc,
    q: PageRc,
)
    requires
        old(first).book.wf(),
        call_ensures(Preloader::<'a>::load, (first, a), p),
        *old(second).book == *final(first).book,
        call_ensures(Preloader::<'b>::load, (second, b), q),
    ensures
        p == q <==> a == b,
        final(second).book.pages@[p.0 as int].address == a,
        final(second).book.pages@[q.0 as int].address == b,
{
    let book1 = *final(first).book;
    let book2 = *final(second).book;
    assert(book1.entries().dom().contains(a.0));
    if !book1.entries().dom().contains(b.0) {
        assert(book2.pages@.drop_last()[p.0 as int] == book1.pages@[p.0 as int]);
        assert(book2.entries()[a.0] == book1.entries()[a.0]);
    }
    assert(book2.entries().dom().contains(a.0));
    assert(book2.entries()[a.0] == p.0);
    assert(book2.entries()[b.0] == q.0);
    assert(book2.pages@[book2.entries()[a.0] as int].address.0 == a.0);
    assert(book2.pages@[book2.entries()[b.0] as int].address.0 == b.0);
}

} // verus!
