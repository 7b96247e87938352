//! A scheduler that runs transactions in parallel, in the order of their weights wherever they
//! want the same accounts.

pub mod address_book;
pub mod contended;
pub mod locking;
pub mod release;
pub mod run;
pub mod stage;
pub mod task;
pub mod usage;
