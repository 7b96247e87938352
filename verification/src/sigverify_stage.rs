//! The stage that verifies the signatures of incoming packets.
//!
//! It assumes that each packet contains one transaction. Before signatures are verified, packets
//! in excess of what one round can take are discarded, fairly among their senders.

pub mod excess;
pub mod stats;

use crate::sigverify_stage::excess::discard_excess_packets;
use vstd::prelude::*;

verus! {

/// The most packets that are verified in one round.
pub const MAX_SIGVERIFY_BATCH: usize = 10_000;

/// How old the memory of seen packets grows before it is dropped, in milliseconds.
pub const MAX_BLOOM_AGE_MS: u64 = 2_000;

/// How many seconds pass between two reports, at least.
pub const REPORT_INTERVAL_SECS: u64 = 2;

/// What is known of a packet beside its bytes.
#[derive(Clone, Copy, Debug, PartialEq, Eq, Structural)]
pub struct Meta {
    /// The internet address of the sender, as a number.
    pub addr: u128,
    /// The packet is of no further use.
    pub discard: bool,
}

#[derive(Clone, Copy, Debug, PartialEq, Eq, Structural)]
pub struct Packet {
    pub meta: Meta,
}

/// Packets that came in together.
#[derive(Clone, Debug)]
pub struct PacketBatch {
    pub packets: Vec<Packet>,
}

/// A verifier that takes every signature for valid.
#[derive(Clone, Copy, Debug, Default)]
pub struct DisabledSigVerifier {}

/// Why waiting for packets ended without any.
#[derive(Clone, Copy, Debug, PartialEq, Eq, Structural)]
pub enum RecvTimeoutError {
    Timeout,
    Disconnected,
}

/// Why packets could not be received.
#[derive(Clone, Copy, Debug, PartialEq, Eq, Structural)]
pub enum StreamerError {
    RecvTimeout(RecvTimeoutError),
    /// Anything else.
    Other,
}

/// Why a round of verification failed.
#[derive(Clone, Copy, Debug, PartialEq, Eq, Structural)]
pub enum SigVerifyServiceError {
    /// The next stage is gone.
    Send,
    Streamer(StreamerError),
}

/// What follows from a failed round.
#[derive(Clone, Copy, Debug, PartialEq, Eq, Structural)]
pub enum ErrorAction {
    /// The stage ends.
    Stop,
    /// The stage goes on.
    Continue,
    /// The stage goes on, and the error is logged.
    Log,
}

/// What follows from a failed round: the stage ends when it can receive or send no more. Having
/// waited for nothing is no error.
pub fn on_error(e: SigVerifyServiceError) -> (r: ErrorAction)
    ensures
        r == (match e {
            SigVerifyServiceError::Streamer(
                StreamerError::RecvTimeout(RecvTimeoutError::Disconnected),
            ) => ErrorAction::Stop,
            SigVerifyServiceError::Streamer(
                StreamerError::RecvTimeout(RecvTimeoutError::Timeout),
            ) => ErrorAction::Continue,
            SigVerifyServiceError::Send => ErrorAction::Stop,
            SigVerifyServiceError::Streamer(StreamerError::Other) => ErrorAction::Log,
        }),
{
    match e {
        SigVerifyServiceError::Streamer(
            StreamerError::RecvTimeout(RecvTimeoutError::Disconnected),
        ) => ErrorAction::Stop,
        SigVerifyServiceError::Streamer(StreamerError::RecvTimeout(RecvTimeoutError::Timeout)) =>
        ErrorAction::Continue,
        SigVerifyServiceError::Send => ErrorAction::Stop,
        SigVerifyServiceError::Streamer(StreamerError::Other) => ErrorAction::Log,
    }
}

/// Whether the memory of seen packets is to be dropped at `now`, having been made at `bloom_age`.
pub fn bloom_expired(now: u64, bloom_age: u64) -> (r: bool)
    requires
        bloom_age <= now,
    ensures
        r == (now - bloom_age > MAX_BLOOM_AGE_MS),
{
    now - bloom_age > MAX_BLOOM_AGE_MS
}

/// Whether statistics are to be reported, so many whole seconds after the last time.
pub fn report_due(elapsed_secs: u64) -> (r: bool)
    ensures
        r == (elapsed_secs > REPORT_INTERVAL_SECS),
{
    elapsed_secs > REPORT_INTERVAL_SECS
}

/// The packets of a round are counted right.
pub open spec fn counted(batches: Seq<PacketBatch>, num_packets: usize) -> bool {
    num_packets == excess::senders(batches).len()
}

/// Makes the packets of a round few enough to be verified, and returns how many were discarded for
/// that.
pub fn limit_round(batches: &mut Vec<PacketBatch>, num_packets: usize) -> (excess_fail: usize)
    requires
        counted(old(batches)@, num_packets),
    ensures
        num_packets <= MAX_SIGVERIFY_BATCH ==> excess_fail == 0,
        num_packets <= MAX_SIGVERIFY_BATCH ==> final(batches)@ == old(batches)@,
        num_packets > MAX_SIGVERIFY_BATCH ==> excess_fail == num_packets - MAX_SIGVERIFY_BATCH
            && excess::fairly_discarded(
            old(batches)@,
            final(batches)@,
            MAX_SIGVERIFY_BATCH as nat,
        ),
{
    if num_packets > MAX_SIGVERIFY_BATCH {
        discard_excess_packets(batches, MAX_SIGVERIFY_BATCH)
    } else {
        0
    }
}

/// The stage ends just when it can receive or send no more; that nothing came in time is no error.
pub proof fn law_the_stage_ends_with_its_channels(e: SigVerifyServiceError, r: ErrorAction)
    requires
        call_ensures(on_error, (e,), r),
    ensures
        r == ErrorAction::Stop <==> e == SigVerifyServiceError::Send || e
            == SigVerifyServiceError::Streamer(
            StreamerError::RecvTimeout(RecvTimeoutError::Disconnected),
        ),
        r == ErrorAction::Continue <==> e == SigVerifyServiceError::Streamer(
            StreamerError::RecvTimeout(RecvTimeoutError::Timeout),
        ),
{
}

/// The memory of seen packets is dropped when it is older than two seconds, and a report is due when
/// more than two have passed.
pub proof fn law_two_seconds(now: u64, age: u64, secs: u64, expired: bool, due: bool)
    requires
        age <= now,
        call_ensures(bloom_expired, (now, age), expired),
        call_ensures(report_due, (secs,), due),
    ensures
        expired <==> now > age + 2_000,
        due <==> secs > 2,
{
}

} // verus!
