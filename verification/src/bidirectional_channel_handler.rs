//! The replies that a server sends back over a stream.
//!
//! A reply is a signature and a message of fixed size. The stream hands its bytes out in chunks
//! that know nothing of where a reply begins or ends.

use crate::signers::Signature;
use crossbeam_channel::{Receiver, Sender};
use vstd::prelude::*;

verus! {

/// The most bytes that are asked of the stream at once: a packet without its headers.
pub const PACKET_DATA_SIZE: usize = 1280 - 40 - 8;

/// Where the signature begins in a reply.
pub const QUIC_REPLY_MESSAGE_SIGNATURE_OFFSET: usize = 0;

/// Where the message begins in a reply.
pub const QUIC_REPLY_MESSAGE_OFFSET: usize = 64;

/// The bytes of a reply.
pub const QUIC_REPLY_MESSAGE_SIZE: usize = 192;

/// The most bytes that are kept from one chunk to the next.
pub const LAST_BUFFER_SIZE: usize = 193;

/// How long replies are waited for in all, in milliseconds.
pub const REPLY_TIMEOUT_MS: u64 = 10_000;

/// How many replies are saved until they are received.
pub const SAVED_MESSAGES: usize = 1024;

/// What the server says about a transaction.
#[derive(Clone, Copy, Debug)]
pub struct QuicReplyMessage {
    pub signature: Signature,
    pub message: [u8; 128],
}

/// The reply that the first bytes hold.
pub open spec fn is_reply(bytes: Seq<u8>, reply: QuicReplyMessage) -> bool {
    &&& reply.signature.0@ == bytes.subrange(0, 64)
    &&& reply.message@ == bytes.subrange(64, 192)
}

/// How many replies are complete.
pub open spec fn reply_count(bytes: Seq<u8>) -> nat {
    bytes.len() / (QUIC_REPLY_MESSAGE_SIZE as nat)
}

/// The bytes from reply `i` on.
pub open spec fn from_reply(bytes: Seq<u8>, i: int) -> Seq<u8> {
    bytes.skip(i * QUIC_REPLY_MESSAGE_SIZE)
}

/// The replies are the complete ones that the bytes hold, in order.
pub open spec fn are_replies(bytes: Seq<u8>, replies: Seq<QuicReplyMessage>) -> bool {
    &&& replies.len() == reply_count(bytes)
    &&& forall|i: int|
        0 <= i < replies.len() ==> is_reply(from_reply(bytes, i), #[trigger] replies[i])
}

/// `bincode::deserialize` to a pair of 32 bytes each: the first 64 bytes, if there are as many.
#[verifier::external_body]
fn deserialize_halves(bytes: &[u8]) -> (r: Option<([u8; 32], [u8; 32])>)
    ensures
        r is Some <==> bytes@.len() >= 64,
        r is Some ==> r->Some_0.0@ + r->Some_0.1@ == bytes@.subrange(0, 64),
{
    match bincode::deserialize::<([u8; 32], [u8; 32])>(bytes) {
        Ok(halves) => Some(halves),
        Err(_) => None,
    }
}

/// The signature that the first bytes hold, if they are enough.
fn deserialize_signature(bytes: &[u8]) -> (r: Option<Signature>)
    ensures
        r is Some <==> bytes@.len() >= 64,
        r matches Some(signature) ==> signature.0@ == bytes@.subrange(0, 64),
{
    match deserialize_halves(bytes) {
        Some((first, second)) => {
            let mut signature: [u8; 64] = [0; 64];
            let mut i: usize = 0;
            while i < 32
                invariant
                    i <= 32,
                    forall|j: int| 0 <= j < i ==> signature@[j] == first@[j],
                    forall|j: int| 0 <= j < i ==> signature@[j + 32] == #[trigger] second@[j],
                decreases 32 - i,
            {
                signature[i] = first[i];
                signature[i + 32] = second[i];
                i = i + 1;
            }
            proof {
                let halves = first@ + second@;
                assert(forall|j: int| 0 <= j < 64 ==> signature@[j] == halves[j]) by {
                    assert forall|j: int| 0 <= j < 64 implies signature@[j] == halves[j] by {
                        if j >= 32 {
                            assert(signature@[(j - 32) + 32] == second@[j - 32]);
                        }
                    }
                }
                assert(signature@ =~= halves);
            }
            Some(Signature(signature))
        },
        None => None,
    }
}

/// The bytes that came in and were not used yet.
#[derive(Debug)]
pub struct ReplyBuffer {
    pub bytes: Vec<u8>,
}

impl ReplyBuffer {
    pub fn new() -> (r: Self)
        ensures
            r.bytes@.len() == 0,
    {
        ReplyBuffer { bytes: Vec::new() }
    }

    /// Adds a chunk, and returns the replies that are complete now. They stay in the buffer until
    /// they are passed on.
    pub fn take_chunk(&mut self, chunk: &[u8]) -> (replies: Vec<QuicReplyMessage>)
        requires
            old(self).bytes@.len() + chunk@.len() <= usize::MAX,
        ensures
            final(self).bytes@ == old(self).bytes@ + chunk@,
            are_replies(final(self).bytes@, replies@),
    {
        let mut i: usize = 0;
        while i < chunk.len()
            invariant
                i <= chunk@.len(),
                self.bytes@ == old(self).bytes@ + chunk@.take(i as int),
            decreases chunk@.len() - i,
        {
            self.bytes.push(chunk[i]);
            i = i + 1;
            assert(self.bytes@ =~= old(self).bytes@ + chunk@.take(i as int));
        }
        assert(chunk@.take(i as int) =~= chunk@);
        let mut replies: Vec<QuicReplyMessage> = Vec::new();
        let mut at: usize = 0;
        assert(self.bytes@.len() == self.bytes.len());
        while self.bytes.len() - at >= QUIC_REPLY_MESSAGE_SIZE
            invariant
                self.bytes@ == old(self).bytes@ + chunk@,
                self.bytes@.len() <= usize::MAX,
                at <= self.bytes@.len(),
                at == replies@.len() * QUIC_REPLY_MESSAGE_SIZE,
                forall|j: int|
                    0 <= j < replies@.len() ==> is_reply(
                        from_reply(self.bytes@, j),
                        #[trigger] replies@[j],
                    ),
            decreases self.bytes@.len() - at,
        {
            let reply = self.reply_at(at);
            replies.push(reply);
            at = at + QUIC_REPLY_MESSAGE_SIZE;
        }
        proof {
            let n = replies@.len();
            assert(n == self.bytes@.len() / 192) by (nonlinear_arith)
                requires
                    n * 192 <= self.bytes@.len() < n * 192 + 192,
            ;
        }
        replies
    }

    /// The reply that begins at a position.
    fn reply_at(&self, at: usize) -> (reply: QuicReplyMessage)
        requires
            at + QUIC_REPLY_MESSAGE_SIZE <= self.bytes@.len(),
        ensures
            is_reply(self.bytes@.skip(at as int), reply),
    {
        let ghost rest = self.bytes@.skip(at as int);
        assert(self.bytes@.len() == self.bytes.len());
        let mut head: Vec<u8> = Vec::new();
        let mut i: usize = QUIC_REPLY_MESSAGE_SIGNATURE_OFFSET;
        while i < QUIC_REPLY_MESSAGE_OFFSET
            invariant
                i <= QUIC_REPLY_MESSAGE_OFFSET,
                at + QUIC_REPLY_MESSAGE_SIZE <= self.bytes@.len(),
                self.bytes@.len() <= usize::MAX,
                rest == self.bytes@.skip(at as int),
                head@ == rest.take(i as int),
            decreases QUIC_REPLY_MESSAGE_OFFSET - i,
        {
            head.push(self.bytes[at + i]);
            i = i + 1;
            assert(head@ =~= rest.take(i as int));
        }
        let signature = match deserialize_signature(head.as_slice()) {
            Some(signature) => signature,
            None => Signature([0; 64]),
        };
        assert(head@.subrange(0, 64) =~= rest.subrange(0, 64));
        let mut message: [u8; 128] = [0; 128];
        let mut k: usize = 0;
        while k < 128
            invariant
                k <= 128,
                at + QUIC_REPLY_MESSAGE_SIZE <= self.bytes@.len(),
                self.bytes@.len() <= usize::MAX,
                rest == self.bytes@.skip(at as int),
                forall|j: int| 0 <= j < k ==> message@[j] == rest[64 + j],
            decreases 128 - k,
        {
            message[k] = self.bytes[at + QUIC_REPLY_MESSAGE_OFFSET + k];
            k = k + 1;
        }
        assert(message@ =~= rest.subrange(64, 192));
        QuicReplyMessage { signature, message }
    }

    /// Whether the bytes that are left after so many replies were passed on can be kept for the
    /// next chunk. They always can when no complete reply is among them.
    pub fn can_keep_after(&self, passed_on: usize) -> (r: bool)
        requires
            passed_on <= reply_count(self.bytes@),
        ensures
            r == (self.bytes@.len() - passed_on * QUIC_REPLY_MESSAGE_SIZE <= LAST_BUFFER_SIZE),
            passed_on == reply_count(self.bytes@) ==> r,
    {
        assert(self.bytes@.len() == self.bytes.len());
        let ghost len = self.bytes@.len();
        assert(passed_on * 192 <= len && (passed_on == len / 192 ==> len - passed_on * 192 < 192))
            by (nonlinear_arith)
            requires
                passed_on <= len / 192,
        ;
        self.bytes.len() - passed_on * QUIC_REPLY_MESSAGE_SIZE <= LAST_BUFFER_SIZE
    }

    /// Removes the first replies, which were passed on.
    pub fn passed_on(&mut self, n: usize)
        requires
            n <= reply_count(old(self).bytes@),
        ensures
            final(self).bytes@ == from_reply(old(self).bytes@, n as int),
    {
        assert(self.bytes@.len() == self.bytes.len());
        let ghost len = self.bytes@.len();
        assert(n * 192 <= len) by (nonlinear_arith)
            requires
                n <= len / 192,
        ;
        let start: usize = n * QUIC_REPLY_MESSAGE_SIZE;
        let mut rest: Vec<u8> = Vec::new();
        let mut i: usize = start;
        while i < self.bytes.len()
            invariant
                start <= i <= self.bytes@.len(),
                self.bytes@ == old(self).bytes@,
                rest@ == self.bytes@.subrange(start as int, i as int),
            decreases self.bytes@.len() - i,
        {
            rest.push(self.bytes[i]);
            i = i + 1;
            assert(rest@ =~= self.bytes@.subrange(start as int, i as int));
        }
        assert(rest@ =~= from_reply(self.bytes@, n as int));
        self.bytes = rest;
    }
}

/// How a read from the stream ended.
#[derive(Clone, Copy, Debug, PartialEq, Eq, Structural)]
pub enum ReadOutcome {
    Chunk,
    /// The stream is at its end.
    Finished,
    Error,
    TimedOut,
}

/// Whether replies are waited for any longer.
pub fn goes_on(outcome: ReadOutcome) -> (r: bool)
    ensures
        r == (outcome == ReadOutcome::Chunk),
{
    match outcome {
        ReadOutcome::Chunk => true,
        _ => false,
    }
}

/// The time that is left to wait, after some more of it has passed.
pub fn time_left(timeout: u64, elapsed: u64) -> (r: u64)
    ensures
        r == (if elapsed < timeout {
            timeout - elapsed
        } else {
            0
        }),
{
    timeout.saturating_sub(elapsed)
}

/// The end of a channel that takes messages.
#[verifier::external_type_specification]
#[verifier::external_body]
#[verifier::reject_recursive_types(T)]
pub struct ExSender<T>(Sender<T>);

/// The end of a channel that hands messages out.
#[verifier::external_type_specification]
#[verifier::external_body]
#[verifier::reject_recursive_types(T)]
pub struct ExReceiver<T>(Receiver<T>);

/// How many messages a channel holds at most; `None` if there is no such limit. It is fixed when the
/// channel is made.
pub uninterp spec fn channel_capacity(receiver: Receiver<QuicReplyMessage>) -> Option<usize>;

/// `crossbeam_channel::bounded`: both ends of a channel that holds `cap` messages at most. A limit
/// that no memory can hold makes it panic; one of up to `SAVED_MESSAGES` does not. What goes in at
/// one end comes out at the other, but what the channel holds changes behind both of them, so
/// nothing is said of that.
#[verifier::external_body]
fn bounded(cap: usize) -> (r: (Sender<QuicReplyMessage>, Receiver<QuicReplyMessage>))
    requires
        cap <= SAVED_MESSAGES,
    ensures
        channel_capacity(r.1) == Some(cap),
{
    crossbeam_channel::bounded(cap)
}

/// `Receiver::capacity`: how many messages the channel holds at most.
#[verifier::external_body]
fn receiver_capacity(receiver: &Receiver<QuicReplyMessage>) -> (r: Option<usize>)
    ensures
        r == channel_capacity(*receiver),
{
    receiver.capacity()
}

/// Saves the replies of a server until they are received. One stream is served at a time.
#[derive(Debug)]
pub struct BidirectionalChannelHandler {
    pub sender: Sender<QuicReplyMessage>,
    pub reciever: Receiver<QuicReplyMessage>,
    pub recv_channel_is_set: bool,
}

impl BidirectionalChannelHandler {
    /// A handler that serves no stream and has room for the replies that it saves.
    pub fn new() -> (r: Self)
        ensures
            !r.recv_channel_is_set,
            channel_capacity(r.reciever) == Some(SAVED_MESSAGES),
    {
        let (sender, reciever) = bounded(SAVED_MESSAGES);
        BidirectionalChannelHandler { sender, reciever, recv_channel_is_set: false }
    }

    pub fn is_serving(&self) -> (r: bool)
        ensures
            r == self.recv_channel_is_set,
    {
        self.recv_channel_is_set
    }

    /// How many replies are saved at most.
    pub fn capacity(&self) -> (r: Option<usize>)
        ensures
            r == channel_capacity(self.reciever),
    {
        receiver_capacity(&self.reciever)
    }

    /// Says whether another stream is to be served: it is not while one is served.
    pub fn start_serving(&mut self) -> (starts: bool)
        ensures
            starts == !old(self).recv_channel_is_set,
            final(self).recv_channel_is_set,
            final(self).sender == old(self).sender,
            final(self).reciever == old(self).reciever,
    {
        if self.is_serving() {
            return false;
        }
        self.recv_channel_is_set = true;
        true
    }

    /// The stream is served no longer.
    pub fn stop_serving(&mut self)
        ensures
            !final(self).recv_channel_is_set,
            final(self).sender == old(self).sender,
            final(self).reciever == old(self).reciever,
    {
        self.recv_channel_is_set = false;
    }
}

/// It makes no difference where a chunk ends: the replies of two chunks, taken one after the other,
/// are those of both chunks taken at once, and the same bytes are left.
pub proof fn law_chunks_do_not_matter(
    first: Seq<u8>,
    second: Seq<u8>,
    early: Seq<QuicReplyMessage>,
    late: Seq<QuicReplyMessage>,
)
    requires
        are_replies(first, early),
        are_replies(from_reply(first, reply_count(first) as int) + second, late),
    ensures
        are_replies(first + second, early + late),
        from_reply(first + second, reply_count(first + second) as int) == from_reply(
            from_reply(first, reply_count(first) as int) + second,
            late.len() as int,
        ),
{
    let n = reply_count(first) as int;
    let rest = from_reply(first, n) + second;
    let all = first + second;
    assert(n * 192 <= first.len()) by (nonlinear_arith)
        requires
            n == first.len() / 192,
    ;
    assert(rest =~= all.skip(n * 192));
    assert(all.len() / 192 == n + rest.len() / 192) by (nonlinear_arith)
        requires
            all.len() == n * 192 + rest.len(),
    ;
    let replies = early + late;
    assert forall|i: int| 0 <= i < replies.len() implies is_reply(
        from_reply(all, i),
        #[trigger] replies[i],
    ) by {
        if i < n {
            assert(is_reply(from_reply(first, i), early[i]));
            assert(i * 192 + 192 <= n * 192) by (nonlinear_arith)
                requires
                    i < n,
            ;
            assert(from_reply(all, i).subrange(0, 64) =~= from_reply(first, i).subrange(0, 64));
            assert(from_reply(all, i).subrange(64, 192) =~= from_reply(first, i).subrange(64, 192));
        } else {
            let j = i - n;
            assert(is_reply(from_reply(rest, j), late[j]));
            assert(j * 192 <= rest.len() && n * 192 + j * 192 == i * 192) by (nonlinear_arith)
                requires
                    0 <= j < rest.len() / 192,
                    j == i - n,
            ;
            assert(from_reply(rest, j) =~= from_reply(all, i));
        }
    }
    let m = late.len() as int;
    assert(m * 192 <= rest.len() && n * 192 + m * 192 == (n + m) * 192) by (nonlinear_arith)
        requires
            m == rest.len() / 192,
    ;
    assert(from_reply(all, n + m) =~= from_reply(rest, m));
}

/// Replies are the bytes of the stream, cut into pieces of fixed size: so many as are complete, each
/// with the signature that it begins with and the message that follows.
pub proof fn law_replies_are_the_bytes_of_the_stream(
    buffer: &mut ReplyBuffer,
    chunk: &[u8],
    replies: Vec<QuicReplyMessage>,
    i: int,
    k: int,
)
    requires
        call_ensures(ReplyBuffer::take_chunk, (buffer, chunk), replies),
    ensures
        ({
            let bytes = old(buffer).bytes@ + chunk@;
            &&& final(buffer).bytes@ == bytes
            &&& replies@.len() * 192 <= bytes.len() < replies@.len() * 192 + 192
            &&& 0 <= i < replies@.len() && 0 <= k < 64 ==> replies@[i].signature.0@[k] == bytes[i
                * 192 + k]
            &&& 0 <= i < replies@.len() && 0 <= k < 128 ==> replies@[i].message@[k] == bytes[i * 192
                + 64 + k]
        }),
{
    let bytes = old(buffer).bytes@ + chunk@;
    let n = replies@.len() as int;
    let len = bytes.len() as int;
    assert(n * 192 <= len < n * 192 + 192) by (nonlinear_arith)
        requires
            n == len / 192,
            len >= 0,
    ;
    if 0 <= i < n {
        assert(is_reply(from_reply(bytes, i), replies@[i]));
        assert(i * 192 + 192 <= n * 192) by (nonlinear_arith)
            requires
                i < n,
        ;
        let rest = from_reply(bytes, i);
        if 0 <= k < 64 {
            assert(rest.subrange(0, 64)[k] == bytes[i * 192 + k]);
        }
        if 0 <= k < 128 {
            assert(rest.subrange(64, 192)[k] == bytes[i * 192 + 64 + k]);
        }
    }
}

/// What was passed on is gone, and what comes after it stays.
pub proof fn law_what_is_passed_on_is_gone(buffer: &mut ReplyBuffer, n: usize, k: int)
    requires
        n * 192 <= old(buffer).bytes@.len(),
        call_ensures(ReplyBuffer::passed_on, (buffer, n), ()),
    ensures
        final(buffer).bytes@.len() == old(buffer).bytes@.len() - n * 192,
        0 <= k < final(buffer).bytes@.len() ==> final(buffer).bytes@[k] == old(buffer).bytes@[n * 192
            + k],
{
}

/// Waiting uses its time up: what is left and what has passed make up the time there was, and once it
/// is used up nothing is left.
pub proof fn law_waiting_uses_time_up(timeout: u64, elapsed: u64, left: u64)
    requires
        call_ensures(time_left, (timeout, elapsed), left),
    ensures
        elapsed <= timeout ==> left + elapsed == timeout,
        elapsed >= timeout ==> left == 0,
{
}

/// One stream is served at a time: another begins only after the one before has ended.
pub proof fn law_streams_are_served_in_turn(
    handler: &mut BidirectionalChannelHandler,
    again: &mut BidirectionalChannelHandler,
    stopped: &mut BidirectionalChannelHandler,
    next: &mut BidirectionalChannelHandler,
    first: bool,
    second: bool,
    third: bool,
)
    requires
        call_ensures(BidirectionalChannelHandler::start_serving, (handler,), first),
        *old(again) == *final(handler),
        call_ensures(BidirectionalChannelHandler::start_serving, (again,), second),
        *old(stopped) == *final(again),
        call_ensures(BidirectionalChannelHandler::stop_serving, (stopped,), ()),
        *old(next) == *final(stopped),
        call_ensures(BidirectionalChannelHandler::start_serving, (next,), third),
    ensures
        first == !old(handler).recv_channel_is_set,
        !second,
        third,
        final(next).reciever == old(handler).reciever,
{
}

/// Replies are waited for as long as chunks come, and no longer.
pub proof fn law_waiting_ends_with_the_stream(outcome: ReadOutcome, r: bool)
    requires
        call_ensures(goes_on, (outcome,), r),
    ensures
        r <==> outcome == ReadOutcome::Chunk,
{
}

} // verus!
