use vstd::prelude::*;

verus! {

/// A slot number of the ledger.
pub type Slot = u64;

/// The address of an account.
#[derive(Clone, Copy, Debug, PartialEq, Eq, Hash, PartialOrd, Ord)]
pub struct Pubkey(pub [u8; 32]);

/// A hash, of a block or of a message.
#[derive(Clone, Copy, Debug, PartialEq, Eq, Hash)]
pub struct Hash(pub [u8; 32]);

/// The accounts that a transaction locks, in the order in which it names them.
#[derive(Clone, Debug)]
pub struct TransactionAccountLocks {
    pub writable: Vec<Pubkey>,
    pub readonly: Vec<Pubkey>,
}

/// A transaction that has passed sanitization, reduced to what scheduling reads of it.
#[derive(Clone, Debug)]
pub struct SanitizedTransaction {
    pub message_hash: Hash,
    pub account_locks: TransactionAccountLocks,
}

impl SanitizedTransaction {
    /// Another transaction with the same contents.
    pub fn copy(&self) -> (r: Self)
        ensures
            r.message_hash == self.message_hash,
            r.account_locks.writable@ == self.account_locks.writable@,
            r.account_locks.readonly@ == self.account_locks.readonly@,
    {
        Self {
            message_hash: self.message_hash,
            account_locks: TransactionAccountLocks {
                writable: copy_addresses(&self.account_locks.writable),
                readonly: copy_addresses(&self.account_locks.readonly),
            },
        }
    }
}

/// The same addresses in another vector.
pub fn copy_addresses(addresses: &Vec<Pubkey>) -> (r: Vec<Pubkey>)
    ensures
        r@ == addresses@,
{
    let mut r: Vec<Pubkey> = Vec::new();
    let mut i: usize = 0;
    while i < addresses.len()
        invariant
            i <= addresses@.len(),
            r@ == addresses@.take(i as int),
        decreases addresses@.len() - i,
    {
        r.push(addresses[i]);
        i = i + 1;
        assert(addresses@.take(i as int) =~= addresses@.take(i - 1).push(addresses@[i - 1]));
    }
    assert(addresses@.take(i as int) =~= addresses@);
    r
}

/// Whether two addresses are the same 32 bytes.
pub fn same_address(a: &Pubkey, b: &Pubkey) -> (r: bool)
    ensures
        r == (*a == *b),
{
    let mut i: usize = 0;
    while i < 32
        invariant
            i <= 32,
            forall|j: int| 0 <= j < i ==> a.0@[j] == b.0@[j],
        decreases 32 - i,
    {
        if a.0[i] != b.0[i] {
            return false;
        }
        i = i + 1;
    }
    assert(a.0@ =~= b.0@);
    assert(a.0 =~= b.0);
    true
}

/// Why an instruction failed.
#[derive(Clone, Copy, Debug, PartialEq, Eq, Structural)]
pub enum InstructionError {
    InvalidInstructionData,
}

/// Why a transaction failed.
#[derive(Clone, Copy, Debug, PartialEq, Eq, Structural)]
pub enum TransactionError {
    AccountNotFound,
    BlockhashNotFound,
    /// The instruction of this index failed.
    InstructionError(u8, InstructionError),
    /// The instruction of this index sets again what an earlier one has set.
    DuplicateInstruction(u8),
}

/// Time spent on executing transactions.
#[derive(Clone, Copy, Debug, PartialEq, Eq, Structural)]
pub struct ExecuteTimings {
    pub execute_us: u64,
}

impl ExecuteTimings {
    /// The sum of two timings, no more than can be counted.
    pub open spec fn plus(self, other: ExecuteTimings) -> ExecuteTimings {
        ExecuteTimings {
            execute_us: if self.execute_us + other.execute_us <= u64::MAX {
                (self.execute_us + other.execute_us) as u64
            } else {
                u64::MAX
            },
        }
    }

    pub fn accumulate(&mut self, other: &ExecuteTimings)
        ensures
            *final(self) == old(self).plus(*other),
    {
        self.execute_us = self.execute_us.saturating_add(other.execute_us);
    }
}

impl Default for ExecuteTimings {
    fn default() -> (r: Self)
        ensures
            r.execute_us == 0,
    {
        ExecuteTimings { execute_us: 0 }
    }
}

/// How the transactions of a session came out, and the time they took.
pub type ResultWithTimings = (Result<(), TransactionError>, ExecuteTimings);

} // verus!
