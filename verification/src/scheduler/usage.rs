//! How accounts are used and locked.

use vstd::multiset::Multiset;
use vstd::prelude::*;

verus! {

pub type UsageCount = usize;

pub const SOLE_USE_COUNT: UsageCount = 1;

/// A page of the address book, by its number.
#[derive(Clone, Copy, Debug, PartialEq, Eq, Hash, Structural)]
pub struct PageRc(pub usize);

/// A lock: the page and how it is used.
pub type Lock = (PageRc, RequestedUsage);

/// How a transaction wants to use an account.
#[derive(Clone, Copy, Debug, PartialEq, Eq, Hash, Structural)]
pub enum RequestedUsage {
    Readonly,
    Writable,
}

/// How an account is in use: by a number of readers, or by one writer.
#[derive(Clone, Copy, Debug, PartialEq, Eq, Structural)]
pub enum Usage {
    Unused,
    Readonly(UsageCount),
    Writable,
}

impl Usage {
    /// The usage of an account whose only user asked for `requested_usage`.
    pub fn renew(requested_usage: RequestedUsage) -> (r: Self)
        ensures
            r == (match requested_usage {
                RequestedUsage::Readonly => Usage::Readonly(SOLE_USE_COUNT),
                RequestedUsage::Writable => Usage::Writable,
            }),
    {
        match requested_usage {
            RequestedUsage::Readonly => Usage::Readonly(SOLE_USE_COUNT),
            RequestedUsage::Writable => Usage::Writable,
        }
    }

    pub fn unused() -> (r: Self)
        ensures
            r == Usage::Unused,
    {
        Usage::Unused
    }
}

/// How many times the page is held for reading.
pub open spec fn readers(held: Multiset<Lock>, page: PageRc) -> nat {
    held.count((page, RequestedUsage::Readonly))
}

/// How many times the page is held for writing.
pub open spec fn writers(held: Multiset<Lock>, page: PageRc) -> nat {
    held.count((page, RequestedUsage::Writable))
}

/// The usage that the held locks amount to on a page.
pub open spec fn usage_of(held: Multiset<Lock>, page: PageRc) -> Usage {
    if writers(held, page) > 0 {
        Usage::Writable
    } else if readers(held, page) > 0 {
        Usage::Readonly(readers(held, page) as usize)
    } else {
        Usage::Unused
    }
}

/// The locks held on a page exclude each other as they should: a writer is alone.
pub open spec fn exclusive(held: Multiset<Lock>, page: PageRc) -> bool {
    &&& writers(held, page) <= 1
    &&& writers(held, page) == 1 ==> readers(held, page) == 0
    &&& readers(held, page) <= usize::MAX
}

/// A lock could join the held ones.
pub open spec fn compatible(held: Multiset<Lock>, lock: Lock) -> bool {
    &&& writers(held, lock.0) == 0
    &&& lock.1 == RequestedUsage::Writable ==> readers(held, lock.0) == 0
}

} // verus!
