//! Telling subscribers about slots.

use crate::types::Slot;
use vstd::prelude::*;

verus! {

/// How long slots are waited for at once, in milliseconds.
pub const SLOT_SERVICE_RECEIVE_TIMEOUT_MS: u64 = 100;

/// News about a slot.
#[derive(Clone, Copy, Debug, PartialEq, Eq, Structural)]
pub enum SlotUpdate {
    Completed { slot: Slot, timestamp: u64 },
    OptimisticDistribution { slot: Slot, timestamp: u64 },
}

/// How waiting for slots ended.
#[derive(Debug)]
pub enum Received<T> {
    Timeout,
    Disconnected,
    News(T),
}

/// What a service does next.
#[derive(Debug)]
pub enum ServiceStep<T> {
    /// The service ends.
    Stop,
    /// The service waits again.
    Wait,
    /// Subscribers are told, and then the service waits again.
    Notify(T),
}

/// What a service does with what it received: it ends with its source.
fn step<T>(received: Received<T>) -> (r: ServiceStep<T>)
    ensures
        r == (match received {
            Received::Timeout => ServiceStep::Wait,
            Received::Disconnected => ServiceStep::Stop,
            Received::News(news) => ServiceStep::Notify(news),
        }),
{
    match received {
        Received::Timeout => ServiceStep::Wait,
        Received::Disconnected => ServiceStep::Stop,
        Received::News(news) => ServiceStep::Notify(news),
    }
}

/// Whether a service waits for slots, or ends because it was told to.
pub fn waits(exit: bool) -> (r: bool)
    ensures
        r == !exit,
{
    !exit
}

/// Tells about slots that are complete.
#[derive(Clone, Copy, Debug)]
pub struct RpcCompletedSlotsService;

impl RpcCompletedSlotsService {
    pub fn step(received: Received<Vec<Slot>>) -> (r: ServiceStep<Vec<Slot>>)
        ensures
            r == (match received {
                Received::Timeout => ServiceStep::Wait,
                Received::Disconnected => ServiceStep::Stop,
                Received::News(slots) => ServiceStep::Notify(slots),
            }),
    {
        step(received)
    }

    /// What subscribers are told about one of the slots.
    pub fn update(slot: Slot, timestamp: u64) -> (r: SlotUpdate)
        ensures
            r == (SlotUpdate::Completed { slot, timestamp }),
    {
        SlotUpdate::Completed { slot, timestamp }
    }
}

/// Tells about slots that have optimistically been distributed.
#[derive(Clone, Copy, Debug)]
pub struct RpcOptimisticDistributionSlotService;

impl RpcOptimisticDistributionSlotService {
    pub fn step(received: Received<Slot>) -> (r: ServiceStep<Slot>)
        ensures
            r == (match received {
                Received::Timeout => ServiceStep::Wait,
                Received::Disconnected => ServiceStep::Stop,
                Received::News(slot) => ServiceStep::Notify(slot),
            }),
    {
        step(received)
    }

    /// What subscribers are told about the slot.
    pub fn update(slot: Slot, timestamp: u64) -> (r: SlotUpdate)
        ensures
            r == (SlotUpdate::OptimisticDistribution { slot, timestamp }),
    {
        SlotUpdate::OptimisticDistribution { slot, timestamp }
    }
}

/// Subscribers are told of each slot that a service receives, and of no other; a service ends when
/// nothing more will come, and waits on when nothing came in time.
pub proof fn law_subscribers_are_told(
    received: Received<Vec<Slot>>,
    step: ServiceStep<Vec<Slot>>,
    slot: Slot,
    timestamp: u64,
    update: SlotUpdate,
)
    requires
        call_ensures(RpcCompletedSlotsService::step, (received,), step),
        call_ensures(RpcCompletedSlotsService::update, (slot, timestamp), update),
    ensures
        received is News <==> step is Notify,
        received matches Received::News(slots) ==> step == ServiceStep::Notify(slots),
        received is Disconnected <==> step is Stop,
        received is Timeout <==> step is Wait,
        update matches SlotUpdate::Completed { slot: s, timestamp: t } && s == slot && t
            == timestamp,
{
}

/// The same holds of slots that have been distributed.
pub proof fn law_subscribers_are_told_of_distribution(
    received: Received<Slot>,
    step: ServiceStep<Slot>,
    slot: Slot,
    timestamp: u64,
    update: SlotUpdate,
)
    requires
        call_ensures(RpcOptimisticDistributionSlotService::step, (received,), step),
        call_ensures(RpcOptimisticDistributionSlotService::update, (slot, timestamp), update),
    ensures
        received matches Received::News(s) ==> step == ServiceStep::Notify(s),
        received is Disconnected <==> step is Stop,
        received is Timeout <==> step is Wait,
        update matches SlotUpdate::OptimisticDistribution { slot: s, timestamp: t } && s == slot
            && t == timestamp,
{
}

} // verus!
