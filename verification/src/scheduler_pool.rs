//! A pool of transaction schedulers, and the account locking that a scheduler does.

pub mod address_book;
pub mod locks;
pub mod pool;
pub mod session;
pub mod stage;
pub mod task_queue;
