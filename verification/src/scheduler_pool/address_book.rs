use crate::collections::{dash_map_entry_or_insert, dash_map_new, last_u128};
use crate::scheduler::usage;
use crate::scheduler::usage::{Lock, PageRc, RequestedUsage, Usage, SOLE_USE_COUNT};
use crate::scheduler_pool::locks::{BTreeMapTaskIds, LockAttempt, LockStatus, UniqueWeight};
use crate::types::Pubkey;
use dashmap::DashMap;
use std::collections::{BTreeMap, BTreeSet};
use vstd::multiset::Multiset;
use vstd::prelude::*;

verus! {

/// What is known of one account: how it is in use, and which tasks wait for it.
#[derive(Debug)]
pub struct Page {
    pub address: Pubkey,
    pub current_usage: Usage,
    pub blocked_task_queue: BTreeMapTaskIds,
    pub blocked_write_requesting_task_ids: BTreeSet<UniqueWeight>,
}

impl Page {
    pub fn new(address: &Pubkey, current_usage: Usage) -> (r: Self)
        ensures
            r.address == *address,
            r.current_usage == current_usage,
            r.blocked_task_queue@ == Map::<UniqueWeight, usize>::empty(),
            r.blocked_write_requesting_task_ids@ == Set::<UniqueWeight>::empty(),
    {
        Self {
            address: *address,
            current_usage,
            blocked_task_queue: BTreeMapTaskIds { blocked_task_queue: BTreeMap::new() },
            blocked_write_requesting_task_ids: BTreeSet::new(),
        }
    }

    /// A task of weight `unique_weight` may go for this page now: no task waits for the page, or
    /// that task is the heaviest that does, or it wants to read and is heavier than every task
    /// that waits to write.
    pub open spec fn strictly_lockable(
        self,
        unique_weight: UniqueWeight,
        requested_usage: RequestedUsage,
    ) -> bool {
        let queue = self.blocked_task_queue@.dom();
        let writers = self.blocked_write_requesting_task_ids@;
        ||| queue == Set::<UniqueWeight>::empty()
        ||| queue.contains(unique_weight) && forall|j: UniqueWeight| #[trigger]
            queue.contains(j) ==> j <= unique_weight
        ||| requested_usage == RequestedUsage::Readonly && forall|j: UniqueWeight| #[trigger]
            writers.contains(j) ==> j < unique_weight
    }
}

/// A book whose locks changed on one page only stays well-formed.
proof fn lemma_page_relocked(before: AddressBook, after: AddressBook, p: PageRc)
    requires
        before.wf(),
        p.0 < before.pages@.len(),
        after.entries() == before.entries(),
        after.pages@ == before.pages@.update(
            p.0 as int,
            Page { current_usage: usage::usage_of(after.held@, p), ..before.page(p) },
        ),
        forall|l: Lock| l.0 != p ==> #[trigger] after.held@.count(l) == before.held@.count(l),
        usage::exclusive(after.held@, p),
    ensures
        after.wf(),
{
    assert forall|q: PageRc| q.0 < after.pages@.len() implies (#[trigger] after.page(
        q,
    )).current_usage == usage::usage_of(after.held@, q) && usage::exclusive(after.held@, q) by {
        if q != p {
            assert(after.page(q) == before.page(q));
        }
    }
}

/// The pages of all accounts, and the tasks that are worth another try.
pub struct AddressBook {
    pub book: DashMap<[u8; 32], usize>,
    pub pages: Vec<Page>,
    pub retryable_task_queue: BTreeMap<UniqueWeight, usize>,
    pub held: Ghost<Multiset<Lock>>,
}

impl AddressBook {
    /// The addresses with their pages.
    pub open spec fn entries(self) -> Map<[u8; 32], usize> {
        crate::collections::dash_map_entries(self.book)
    }

    /// The page behind a handle.
    pub open spec fn page(self, p: PageRc) -> Page {
        self.pages@[p.0 as int]
    }

    /// The usage of every page is that of the held locks, which exclude each other, and every
    /// address has its own page.
    pub open spec fn wf(self) -> bool {
        &&& forall|p: PageRc|
            p.0 < self.pages@.len() ==> (#[trigger] self.page(p)).current_usage == usage::usage_of(
                self.held@,
                p,
            ) && usage::exclusive(self.held@, p)
        &&& forall|l: Lock| #[trigger] self.held@.count(l) > 0 ==> l.0.0 < self.pages@.len()
        &&& forall|a: [u8; 32]| #[trigger]
            self.entries().dom().contains(a) ==> self.entries()[a] < self.pages@.len()
                && self.pages@[self.entries()[a] as int].address.0 == a
        &&& forall|p: int|
            0 <= p < self.pages@.len() ==> self.entries().dom().contains(
                (#[trigger] self.pages@[p]).address.0,
            ) && self.entries()[self.pages@[p].address.0] == p
    }

    /// The attempt would get its lock if `held` were the held locks.
    pub open spec fn grantable(
        self,
        held: Multiset<Lock>,
        unique_weight: UniqueWeight,
        attempt: LockAttempt,
    ) -> bool {
        &&& self.page(attempt.page).strictly_lockable(unique_weight, attempt.requested_usage)
        &&& usage::compatible(held, attempt.lock())
    }

    /// No account has a page, no lock is held, and no task is worth another try.
    pub open spec fn is_blank(self) -> bool {
        &&& self.held@ == Multiset::<Lock>::empty()
        &&& self.pages@ == Seq::<Page>::empty()
        &&& self.retryable_task_queue@ == Map::<UniqueWeight, usize>::empty()
    }

    pub fn default() -> (r: Self)
        ensures
            r.wf(),
            r.is_blank(),
    {
        AddressBook {
            book: dash_map_new(),
            pages: Vec::new(),
            retryable_task_queue: BTreeMap::new(),
            held: Ghost(Multiset::empty()),
        }
    }

    /// Makes one attempt at a lock for a task of weight `unique_weight`.
    pub fn attempt_lock_address(
        &mut self,
        unique_weight: UniqueWeight,
        attempt: &mut LockAttempt,
    )
        requires
            old(self).wf(),
            old(attempt).page.0 < old(self).pages@.len(),
            old(self).held@.len() < usize::MAX,
        ensures
            final(self).wf(),
            final(self).entries() == old(self).entries(),
            final(self).retryable_task_queue == old(self).retryable_task_queue,
            final(self).pages@ == old(self).pages@.update(
                old(attempt).page.0 as int,
                Page {
                    current_usage: usage::usage_of(final(self).held@, old(attempt).page),
                    ..old(self).page(old(attempt).page)
                },
            ),
            old(self).grantable(old(self).held@, unique_weight, *old(attempt)) ==> {
                &&& *final(attempt) == (LockAttempt { status: LockStatus::Succeded, ..*old(attempt) })
                &&& final(self).held@ == old(self).held@.insert(old(attempt).lock())
            },
            !old(self).grantable(old(self).held@, unique_weight, *old(attempt)) ==> {
                &&& *final(attempt) == (LockAttempt { status: LockStatus::Failed, ..*old(attempt) })
                &&& final(self).held@ == old(self).held@
            },
    {
        let p: usize = attempt.page.0;
        let ghost page = self.page(attempt.page);
        let strictly_lockable = match self.pages[p].blocked_task_queue.heaviest_weight() {
            None => true,
            Some(heaviest) => if heaviest == unique_weight {
                true
            } else if attempt.requested_usage == RequestedUsage::Readonly {
                match last_u128(&self.pages[p].blocked_write_requesting_task_ids) {
                    Some(existing_unique_weight) => unique_weight > existing_unique_weight,
                    None => true,
                }
            } else {
                false
            },
        };
        assert(strictly_lockable == page.strictly_lockable(unique_weight, attempt.requested_usage));
        if !strictly_lockable {
            attempt.status = LockStatus::Failed;
            return;
        }
        match self.pages[p].current_usage {
            Usage::Unused => {
                self.pages[p].current_usage = Usage::renew(attempt.requested_usage);
                attempt.status = LockStatus::Succeded;
                self.held = Ghost(self.held@.insert(attempt.lock()));
            },
            Usage::Readonly(count) => match attempt.requested_usage {
                RequestedUsage::Readonly => {
                    self.pages[p].current_usage = Usage::Readonly(count + 1);
                    attempt.status = LockStatus::Succeded;
                    self.held = Ghost(self.held@.insert(attempt.lock()));
                },
                RequestedUsage::Writable => {
                    attempt.status = LockStatus::Failed;
                },
            },
            Usage::Writable => {
                attempt.status = LockStatus::Failed;
            },
        }
        proof {
            assert(self.pages@ =~= old(self).pages@.update(
                p as int,
                Page { current_usage: usage::usage_of(self.held@, PageRc(p)), ..page },
            ));
            lemma_page_relocked(*old(self), *self, PageRc(p));
        }
    }

    /// Gives a held lock back, and says whether the page is unused after that.
    pub fn unlock(&mut self, attempt: &LockAttempt) -> (is_unused_now: bool)
        requires
            old(self).wf(),
            old(self).held@.count(attempt.lock()) > 0,
        ensures
            final(self).wf(),
            final(self).entries() == old(self).entries(),
            final(self).retryable_task_queue == old(self).retryable_task_queue,
            final(self).held@ == old(self).held@.remove(attempt.lock()),
            final(self).pages@ == old(self).pages@.update(
                attempt.page.0 as int,
                Page {
                    current_usage: usage::usage_of(final(self).held@, attempt.page),
                    ..old(self).page(attempt.page)
                },
            ),
            is_unused_now == (usage::usage_of(final(self).held@, attempt.page) == Usage::Unused),
    {
        let p: usize = attempt.page.0;
        let ghost page = self.page(attempt.page);
        let mut is_unused_now = false;
        if let Usage::Readonly(count) = self.pages[p].current_usage {
            if count == SOLE_USE_COUNT {
                is_unused_now = true;
            } else {
                self.pages[p].current_usage = Usage::Readonly(count - 1);
            }
        } else {
            is_unused_now = true;
        }
        if is_unused_now {
            self.pages[p].current_usage = Usage::Unused;
        }
        self.held = Ghost(self.held@.remove(attempt.lock()));
        proof {
            assert(self.pages@ =~= old(self).pages@.update(
                p as int,
                Page { current_usage: usage::usage_of(self.held@, PageRc(p)), ..page },
            ));
            lemma_page_relocked(*old(self), *self, PageRc(p));
        }
        is_unused_now
    }

    /// Takes back what an attempt got, if it got anything, and says whether that left the page
    /// unused.
    pub fn reset_lock(&mut self, attempt: &LockAttempt) -> (is_unused_now: bool)
        requires
            old(self).wf(),
            attempt.status == LockStatus::Succeded ==> old(self).held@.count(attempt.lock()) > 0,
        ensures
            final(self).wf(),
            final(self).entries() == old(self).entries(),
            final(self).retryable_task_queue == old(self).retryable_task_queue,
            attempt.status == LockStatus::Failed ==> *final(self) == *old(self) && !is_unused_now,
            attempt.status == LockStatus::Succeded ==> {
                &&& final(self).held@ == old(self).held@.remove(attempt.lock())
                &&& final(self).pages@ == old(self).pages@.update(
                    attempt.page.0 as int,
                    Page {
                        current_usage: usage::usage_of(final(self).held@, attempt.page),
                        ..old(self).page(attempt.page)
                    },
                )
                &&& is_unused_now == (usage::usage_of(final(self).held@, attempt.page) == Usage::Unused)
            },
    {
        match attempt.status {
            LockStatus::Succeded => self.unlock(attempt),
            LockStatus::Failed => false,
        }
    }

    /// The book as it is shown.
    pub fn shown(&self) -> (r: ShownAddressBook<'_>)
        ensures
            *r.book == self.book,
            *r.pages == self.pages,
            *r.retryable_task_queue == self.retryable_task_queue,
    {
        ShownAddressBook {
            book: &self.book,
            pages: &self.pages,
            retryable_task_queue: &self.retryable_task_queue,
        }
    }

    /// A preloader of this book: it starts from what the book holds, and what it loads is in the
    /// book.
    pub fn preloader(&mut self) -> (r: Preloader<'_>)
        ensures
            *r.book == *old(self),
            *final(self) == *final(r.book),
    {
        Preloader { book: self }
    }
}

/// What there is to show of a book.
#[derive(Debug)]
pub struct ShownAddressBook<'a> {
    pub book: &'a DashMap<[u8; 32], usize>,
    pub pages: &'a Vec<Page>,
    pub retryable_task_queue: &'a BTreeMap<UniqueWeight, usize>,
}

/// Finds the pages of accounts in a book, ahead of the locking.
pub struct Preloader<'a> {
    pub book: &'a mut AddressBook,
}

impl<'a> Preloader<'a> {
    /// The page of `address`; an address that has none yet gets a new, unused one.
    pub fn load(&mut self, address: Pubkey) -> (r: PageRc)
        requires
            old(self).book.wf(),
        ensures
            *final(final(self).book) == *final(old(self).book),
            final(self).book.wf(),
            final(self).book.held@ == old(self).book.held@,
            final(self).book.retryable_task_queue == old(self).book.retryable_task_queue,
            final(self).book.entries().dom().contains(address.0),
            final(self).book.entries()[address.0] == r.0,
            r.0 < final(self).book.pages@.len(),
            old(self).book.entries().dom().contains(address.0) ==> final(self).book.entries()
                == old(self).book.entries() && final(self).book.pages@ == old(self).book.pages@,
            !old(self).book.entries().dom().contains(address.0) ==> {
                &&& r.0 == old(self).book.pages@.len()
                &&& final(self).book.entries() == old(self).book.entries().insert(address.0, r.0)
                &&& final(self).book.pages@.len() == old(self).book.pages@.len() + 1
                &&& final(self).book.pages@.drop_last() == old(self).book.pages@
                &&& final(self).book.page(r).address == address
                &&& final(self).book.page(r).current_usage == Usage::Unused
                &&& final(self).book.page(r).blocked_task_queue@ == Map::<UniqueWeight, usize>::empty()
                &&& final(self).book.page(r).blocked_write_requesting_task_ids@ == Set::<
                    UniqueWeight,
                >::empty()
            },
    {
        let next: usize = self.book.pages.len();
        let p: usize = dash_map_entry_or_insert(&mut self.book.book, address.0, next);
        if p == next {
            self.book.pages.push(Page::new(&address, Usage::unused()));
        }
        proof {
            let book = *self.book;
            let held = book.held@;
            assert(held.count((PageRc(next), RequestedUsage::Readonly)) == 0);
            assert(held.count((PageRc(next), RequestedUsage::Writable)) == 0);
            assert forall|q: PageRc| q.0 < book.pages@.len() implies (#[trigger] book.page(
                q,
            )).current_usage == usage::usage_of(held, q) && usage::exclusive(held, q) by {
                if q.0 < next {
                    assert(book.page(q) == old(self).book.page(q));
                }
            }
            assert forall|q: int| 0 <= q < book.pages@.len() implies book.entries().dom().contains(
                (#[trigger] book.pages@[q]).address.0,
            ) && book.entries()[book.pages@[q].address.0] == q by {
                if q < next {
                    assert(book.pages@[q] == old(self).book.pages@[q]);
                }
            }
        }
        PageRc(p)
    }
}

/// Every task that waits to write the page is among those that wait for it.
pub open spec fn writers_wait(page: Page) -> bool {
    page.blocked_write_requesting_task_ids@.subset_of(page.blocked_task_queue@.dom())
}

/// No lock overtakes a heavier task: one to write goes to nobody while a heavier task waits for the
/// page, and one to read to nobody while a heavier task waits to write it.
pub proof fn law_no_lock_overtakes(
    book: &mut AddressBook,
    unique_weight: UniqueWeight,
    attempt: &mut LockAttempt,
    waiting_weight: UniqueWeight,
)
    requires
        call_ensures(AddressBook::attempt_lock_address, (book, unique_weight, attempt), ()),
        final(attempt).status == LockStatus::Succeded,
        writers_wait(old(book).pages@[old(attempt).page.0 as int]),
        old(book).pages@[old(attempt).page.0 as int].blocked_task_queue@.dom().contains(
            waiting_weight,
        ),
    ensures
        old(attempt).requested_usage == RequestedUsage::Writable ==> waiting_weight
            <= unique_weight,
        old(book).pages@[old(attempt).page.0 as int].blocked_write_requesting_task_ids@.contains(
            waiting_weight,
        ) ==> waiting_weight <= unique_weight,
        old(book).pages@[old(attempt).page.0 as int].blocked_write_requesting_task_ids@.contains(
            waiting_weight,
        ) && waiting_weight == unique_weight ==> forall|j: UniqueWeight| #[trigger]
            old(book).pages@[old(attempt).page.0 as int].blocked_task_queue@.dom().contains(j)
                ==> j <= unique_weight,
{
    let page = old(book).pages@[old(attempt).page.0 as int];
    assert(page == old(book).page(old(attempt).page));
}

/// What a lock does to its page, and that it is only had where the page allows it: one more reader
/// where nobody writes, or the only writer where nobody uses the page. An attempt that fails
/// changes nothing.
pub proof fn law_a_lock_is_a_usage(
    book: &mut AddressBook,
    unique_weight: UniqueWeight,
    attempt: &mut LockAttempt,
)
    requires
        old(book).wf(),
        old(attempt).page.0 < old(book).pages@.len(),
        old(book).held@.len() < usize::MAX,
        call_ensures(AddressBook::attempt_lock_address, (book, unique_weight, attempt), ()),
    ensures
        ({
            let p = old(attempt).page.0 as int;
            let before = old(book).pages@[p].current_usage;
            let after = final(book).pages@[p].current_usage;
            &&& final(attempt).page == old(attempt).page
            &&& final(attempt).requested_usage == old(attempt).requested_usage
            &&& final(book).pages@.len() == old(book).pages@.len()
            &&& final(attempt).status == LockStatus::Failed ==> final(book).pages@
                == old(book).pages@ && final(book).held@ == old(book).held@
            &&& final(attempt).status == LockStatus::Succeded ==> match (
                before,
                old(attempt).requested_usage,
            ) {
                (Usage::Unused, RequestedUsage::Readonly) => after == Usage::Readonly(1),
                (Usage::Unused, RequestedUsage::Writable) => after == Usage::Writable,
                (Usage::Readonly(n), RequestedUsage::Readonly) => after == Usage::Readonly(
                    (n + 1) as usize,
                ),
                _ => false,
            }
            &&& forall|q: int|
                0 <= q < old(book).pages@.len() && q != p ==> #[trigger] final(book).pages@[q]
                    == old(book).pages@[q]
        }),
{
    let p = old(attempt).page;
    let page = old(book).pages@[p.0 as int];
    assert(page == old(book).page(p));
    let held = old(book).held@;
    let read = (p, RequestedUsage::Readonly);
    let write = (p, RequestedUsage::Writable);
    assert(held.count(read) <= held.len());
    let lock = old(attempt).lock();
    assert(held.insert(lock).count(read) == held.count(read) + (if lock == read { 1int } else { 0 }));
    assert(held.insert(lock).count(write) == held.count(write) + (if lock == write { 1int } else { 0 }));
    if final(attempt).status == LockStatus::Failed {
        assert(final(book).pages@ =~= old(book).pages@);
    }
}

/// A lock that the page has room for is not refused: not to a task when nobody waits for the page,
/// nor to the heaviest of those that wait for it, nor for reading to a task that is heavier than
/// all that wait to write.
pub proof fn law_a_lock_that_is_due_is_granted(
    book: &mut AddressBook,
    unique_weight: UniqueWeight,
    attempt: &mut LockAttempt,
)
    requires
        old(book).wf(),
        old(attempt).page.0 < old(book).pages@.len(),
        call_ensures(AddressBook::attempt_lock_address, (book, unique_weight, attempt), ()),
        ({
            let page = old(book).pages@[old(attempt).page.0 as int];
            let reads = old(attempt).requested_usage == RequestedUsage::Readonly;
            &&& page.current_usage == Usage::Unused || (reads && page.current_usage is Readonly)
            &&& {
                ||| page.blocked_task_queue@.dom() == Set::<UniqueWeight>::empty()
                ||| page.blocked_task_queue@.dom().contains(unique_weight) && forall|
                    j: UniqueWeight,
                | #[trigger]
                    page.blocked_task_queue@.dom().contains(j) ==> j <= unique_weight
                ||| reads && forall|j: UniqueWeight| #[trigger]
                    page.blocked_write_requesting_task_ids@.contains(j) ==> j < unique_weight
            }
        }),
    ensures
        final(attempt).status == LockStatus::Succeded,
{
    let p = old(attempt).page;
    assert(old(book).pages@[p.0 as int] == old(book).page(p));
}

/// Giving a lock back is the reverse of getting it: one reader less, or nobody after the last reader
/// or the writer, which is what is said then. An attempt that failed has nothing to give back.
pub proof fn law_a_lock_is_given_back(book: &mut AddressBook, attempt: &LockAttempt, unused: bool)
    requires
        old(book).wf(),
        attempt.page.0 < old(book).pages@.len(),
        attempt.status == LockStatus::Succeded ==> old(book).held@.count(attempt.lock()) > 0,
        call_ensures(AddressBook::reset_lock, (book, attempt), unused),
    ensures
        ({
            let p = attempt.page.0 as int;
            let after = final(book).pages@[p].current_usage;
            &&& attempt.status == LockStatus::Failed ==> *final(book) == *old(book) && !unused
            &&& attempt.status == LockStatus::Succeded ==> match old(book).pages@[p].current_usage {
                Usage::Unused => false,
                Usage::Readonly(n) => after == if n == 1 {
                    Usage::Unused
                } else {
                    Usage::Readonly((n - 1) as usize)
                },
                Usage::Writable => after == Usage::Unused,
            } && unused == (after == Usage::Unused)
            &&& forall|q: int|
                0 <= q < old(book).pages@.len() && q != p ==> #[trigger] final(book).pages@[q]
                    == old(book).pages@[q]
        }),
{
    let p = attempt.page;
    let page = old(book).pages@[p.0 as int];
    assert(page == old(book).page(p));
    let held = old(book).held@;
    let read = (p, RequestedUsage::Readonly);
    let write = (p, RequestedUsage::Writable);
    let lock = attempt.lock();
    if attempt.status == LockStatus::Succeded {
        assert(lock == read || lock == write);
        assert(held.remove(lock).count(read) == held.count(read) - (if lock == read { 1int } else { 0 }));
        assert(held.remove(lock).count(write) == held.count(write) - (if lock == write { 1int } else { 0 }));
    }
}

/// Two addresses have the same page exactly if they are the same, whenever they are loaded.
pub proof fn law_each_address_has_its_page<'a, 'b>(
    first: &mut Preloader<'a>,
    second: &mut Preloader<'b>,
    a: Pubkey,
    b: Pubkey,
    p: PageRc,
    q: PageRc,
)
    requires
        old(first).book.wf(),
        call_ensures(Preloader::<'a>::load, (first, a), p),
        *old(second).book == *final(first).book,
        call_ensures(Preloader::<'b>::load, (second, b), q),
    ensures
        p == q <==> a == b,
        final(second).book.pages@[p.0 as int].address == a,
        final(second).book.pages@[q.0 as int].address == b,
{
    let book1 = *final(first).book;
    let book2 = *final(second).book;
    assert(book1.entries().dom().contains(a.0));
    if !book1.entries().dom().contains(b.0) {
        assert(book2.pages@.drop_last()[p.0 as int] == book1.pages@[p.0 as int]);
        assert(book2.entries()[a.0] == book1.entries()[a.0]);
    }
    assert(book2.entries().dom().contains(a.0));
    assert(book2.entries()[a.0] == p.0);
    assert(book2.entries()[b.0] == q.0);
    assert(book2.pages@[book2.entries()[a.0] as int].address.0 == a.0);
    assert(book2.pages@[book2.entries()[b.0] as int].address.0 == b.0);
}

} // verus!
