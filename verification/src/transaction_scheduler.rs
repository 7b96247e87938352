//! The messages between a transaction scheduler and the banking stage.

use std::rc::Rc;
use vstd::prelude::*;

verus! {

/// A packet that was turned into a transaction once and for all.
#[derive(Debug)]
pub struct ImmutableDeserializedPacket {
    pub message_hash: crate::types::Hash,
    pub is_simple_vote: bool,
    pub compute_unit_price: u64,
}

/// Where the banking stage stands: whether, and until which slot, it can process packets itself.
#[derive(Clone, Copy, Debug, PartialEq, Eq, Structural)]
pub enum BankPacketProcessingDecision {
    Consume(u128),
    Forward,
    ForwardAndHold,
    Hold,
}

/// From the scheduler to the banking stage: the next batch of transactions to process, with
/// instructions for processing them, and a unique id.
pub struct ScheduledPacketBatch {
    /// Unique identifier for the batch of transactions
    pub id: ScheduledPacketBatchId,
    /// Instruction for processing packets
    pub processing_instruction: BankingProcessingInstruction,
    /// Deserialized packets to process.
    pub deserialized_packets: Vec<Rc<ImmutableDeserializedPacket>>,
}

/// From the banking stage to the scheduler: a batch of transactions has been processed, and which
/// of them need to be retried.
pub struct ProcessedPacketBatch {
    /// Identifier for the batch of transactions, which is the one the scheduler expects.
    pub id: ScheduledPacketBatchId,
    /// Transactions that need to be retried, that is, added back to the scheduler.
    pub retryable_packets: Vec<bool>,
}

/// What to do with the packets of a batch.
#[derive(Clone, Copy, Debug, PartialEq, Eq, Structural)]
pub enum BankingProcessingInstruction {
    /// Process transactions and attempt to commit them to the bank.
    Consume,
    /// Forward transactions to the leader for processing. The scheduler may still hold on to them
    /// for a while.
    Forward,
}

impl BankPacketProcessingDecision {
    /// The instruction that carries out the decision. There is none for holding packets.
    pub open spec fn instruction(self) -> Option<BankingProcessingInstruction> {
        match self {
            BankPacketProcessingDecision::Consume(_) => Some(BankingProcessingInstruction::Consume),
            BankPacketProcessingDecision::Forward => Some(BankingProcessingInstruction::Forward),
            BankPacketProcessingDecision::ForwardAndHold => Some(
                BankingProcessingInstruction::Forward,
            ),
            BankPacketProcessingDecision::Hold => None,
        }
    }
}

impl BankingProcessingInstruction {
    /// The instruction that carries out a decision other than to hold packets.
    pub fn from(decision: BankPacketProcessingDecision) -> (r: Self)
        requires
            decision != BankPacketProcessingDecision::Hold,
        ensures
            Some(r) == decision.instruction(),
    {
        match decision {
            BankPacketProcessingDecision::Consume(_) => BankingProcessingInstruction::Consume,
            BankPacketProcessingDecision::Forward => BankingProcessingInstruction::Forward,
            BankPacketProcessingDecision::ForwardAndHold => BankingProcessingInstruction::Forward,
            BankPacketProcessingDecision::Hold => BankingProcessingInstruction::Forward,
        }
    }
}

/// Unique identifier for a batch of transactions, wrapped in a struct to prevent comparisons of
/// batch ids. There should be no reason to expect any ordering of batch ids generated by a
/// scheduler, other than being unique for outstanding batches.
#[derive(Clone, Copy, Debug, PartialEq, Eq, Hash, Structural)]
pub struct ScheduledPacketBatchId(pub u64);

impl ScheduledPacketBatchId {
    pub fn new(id: u64) -> (r: Self)
        ensures
            r.0 == id,
    {
        Self(id)
    }
}

/// Generates a unique identifier for a batch of transactions.
pub struct ScheduledPacketBatchIdGenerator {
    pub next_id: u64,
}

impl Default for ScheduledPacketBatchIdGenerator {
    fn default() -> (r: Self)
        ensures
            r.next_id == 0,
    {
        Self { next_id: 0 }
    }
}

/// The id that follows `id`: after the last comes the first.
pub open spec fn following_id(id: u64) -> u64 {
    if id == u64::MAX {
        0
    } else {
        (id + 1) as u64
    }
}

/// The `n`-th id that a generator gives out, counted from zero.
pub open spec fn nth_id(first: u64, n: nat) -> u64
    decreases n,
{
    if n == 0 {
        first
    } else {
        following_id(nth_id(first, (n - 1) as nat))
    }
}

impl ScheduledPacketBatchIdGenerator {
    /// Generates a new unique identifier for a batch of transactions.
    pub fn generate_id(&mut self) -> (r: ScheduledPacketBatchId)
        ensures
            r.0 == old(self).next_id,
            final(self).next_id == following_id(old(self).next_id),
    {
        let id: u64 = self.next_id;
        self.next_id = self.next_id.wrapping_add(1);
        ScheduledPacketBatchId::new(id)
    }
}

proof fn lemma_nth_id(first: u64, n: nat)
    ensures
        nth_id(first, n) == (first + n) % (u64::MAX + 1),
    decreases n,
{
    if n > 0 {
        lemma_nth_id(first, (n - 1) as nat);
        let m = u64::MAX + 1;
        vstd::arithmetic::div_mod::lemma_add_mod_noop(first + n - 1, 1, m);
        let prev = (first + n - 1) % m;
        assert((prev + 1) % m == (first + n) % m);
        if prev == u64::MAX {
            assert((prev + 1) % m == 0) by (nonlinear_arith)
                requires
                    prev + 1 == m,
                    m > 0,
            ;
        } else {
            vstd::arithmetic::div_mod::lemma_small_mod((prev + 1) as nat, m as nat);
        }
    } else {
        vstd::arithmetic::div_mod::lemma_small_mod(first as nat, (u64::MAX + 1) as nat);
    }
}

/// Ids are unique for outstanding batches: two of the ids that a generator gives out differ unless
/// all ids there are have been given out in between.
pub proof fn law_outstanding_ids_differ(first: u64, i: nat, j: nat)
    requires
        i < j,
        j - i <= u64::MAX,
    ensures
        nth_id(first, i) != nth_id(first, j),
{
    lemma_nth_id(first, i);
    lemma_nth_id(first, j);
    let m = u64::MAX + 1;
    let a = first + i;
    let b = first + j;
    if a % m == b % m {
        assert(a == m * (a / m) + a % m && b == m * (b / m) + b % m) by {
            vstd::arithmetic::div_mod::lemma_fundamental_div_mod(a, m);
            vstd::arithmetic::div_mod::lemma_fundamental_div_mod(b, m);
        }
        let d = b / m - a / m;
        assert(b - a == m * d) by (nonlinear_arith)
            requires
                a == m * (a / m) + a % m,
                b == m * (b / m) + b % m,
                a % m == b % m,
                d == b / m - a / m,
        ;
        assert(false) by (nonlinear_arith)
            requires
                b - a == m * d,
                0 < b - a < m,
        ;
    }
}

/// Ids that a generator gives out one after the other differ, and count up.
pub proof fn law_each_batch_has_its_own_id(
    generator: &mut ScheduledPacketBatchIdGenerator,
    later: &mut ScheduledPacketBatchIdGenerator,
    first: ScheduledPacketBatchId,
    second: ScheduledPacketBatchId,
)
    requires
        call_ensures(ScheduledPacketBatchIdGenerator::generate_id, (generator,), first),
        *old(later) == *final(generator),
        call_ensures(ScheduledPacketBatchIdGenerator::generate_id, (later,), second),
    ensures
        first != second,
        first.0 < u64::MAX ==> second.0 == first.0 + 1,
        first.0 == u64::MAX ==> second.0 == 0,
        first.0 == old(generator).next_id,
{
}

/// Packets are consumed just when the bank can process them, and forwarded otherwise.
pub proof fn law_packets_go_where_they_are_processed(
    decision: BankPacketProcessingDecision,
    r: BankingProcessingInstruction,
)
    requires
        decision != BankPacketProcessingDecision::Hold,
        call_ensures(BankingProcessingInstruction::from, (decision,), r),
    ensures
        r == BankingProcessingInstruction::Consume <==> decision is Consume,
        r == BankingProcessingInstruction::Forward <==> decision is Forward || decision
            is ForwardAndHold,
{
}

} // verus!
