//! Voting on the last entry of the bank at a regular cadence.

use crate::fullnode::SocketAddress;
use crate::signers::Signature;
use crate::types::{same_address, Pubkey};
use vstd::prelude::*;

verus! {

/// Why a vote could not be sent.
#[derive(Clone, Copy, Debug, PartialEq, Eq, Structural)]
pub enum VoteError {
    NoValidSupermajority,
    NoLeader,
    LeaderInfoNotFound,
}

/// What a remote signer is asked to do.
#[derive(Clone, Copy, Debug, PartialEq, Eq, Structural)]
pub enum RpcRequest {
    RegisterNode,
    SignVote,
    DeregisterNode,
}

/// A call to a remote signer. It is tried again so many times.
#[derive(Clone, Copy, Debug, PartialEq, Eq, Structural)]
pub struct RpcCall {
    pub id: u64,
    pub request: RpcRequest,
    pub retries: usize,
}

/// A signer of votes on another machine.
#[derive(Clone, Copy, Debug)]
pub struct RemoteVoteSigner {
    pub signer: SocketAddress,
}

impl RemoteVoteSigner {
    pub fn new(signer: SocketAddress) -> (r: Self)
        ensures
            r.signer == signer,
    {
        RemoteVoteSigner { signer }
    }

    /// The call that asks the signer for something. Signing a vote is not tried again: by then the
    /// vote is too old.
    pub fn call(&self, request: RpcRequest) -> (r: RpcCall)
        ensures
            r == (RpcCall {
                id: 1,
                request,
                retries: match request {
                    RpcRequest::RegisterNode => 5,
                    RpcRequest::SignVote => 0,
                    RpcRequest::DeregisterNode => 5,
                },
            }),
    {
        let retries: usize = match request {
            RpcRequest::RegisterNode => 5,
            RpcRequest::SignVote => 0,
            RpcRequest::DeregisterNode => 5,
        };
        RpcCall { id: 1, request, retries }
    }
}

/// A vote for the bank's state at a tick, signed by the vote account.
#[derive(Clone, Copy, Debug)]
pub struct VoteTransaction {
    pub vote_account: Pubkey,
    pub tick_height: u64,
    pub last_id: crate::types::Hash,
    pub fee: u64,
    pub signature: Signature,
}

/// A datagram with its destination.
#[derive(Debug)]
pub struct Blob {
    pub data: Vec<u8>,
    pub addr: SocketAddress,
    pub size: usize,
}

/// A blob of that capacity that holds the bytes of a vote, and zeros after them.
pub fn new_signed_vote_blob(bytes: &Vec<u8>, leader_tpu: SocketAddress, capacity: usize) -> (r: Blob)
    requires
        bytes@.len() <= capacity,
    ensures
        r.data@ == bytes@ + crate::signers::zeros((capacity - bytes@.len()) as nat),
        r.addr == leader_tpu,
        r.size == bytes@.len(),
{
    let len: usize = bytes.len();
    let mut data: Vec<u8> = Vec::new();
    let mut i: usize = 0;
    while i < capacity
        invariant
            i <= capacity,
            len == bytes@.len(),
            len <= capacity,
            data@.len() == i,
            forall|j: int|
                0 <= j < i ==> data@[j] == (if j < len {
                    bytes@[j]
                } else {
                    0
                }),
        decreases capacity - i,
    {
        let byte: u8 = if i < len {
            bytes[i]
        } else {
            0
        };
        data.push(byte);
        i = i + 1;
    }
    assert(data@ =~= bytes@ + crate::signers::zeros((capacity - bytes@.len()) as nat));
    Blob { data, addr: leader_tpu, size: len }
}

/// The position of the first contact with that identity.
pub open spec fn contact_of(
    contacts: Seq<(Pubkey, SocketAddress)>,
    id: Pubkey,
    i: int,
) -> bool {
    &&& 0 <= i < contacts.len()
    &&& contacts[i].0 == id
    &&& forall|j: int| 0 <= j < i ==> (#[trigger] contacts[j]).0 != id
}

/// Nobody of that identity is among the contacts.
pub open spec fn has_no_contact(contacts: Seq<(Pubkey, SocketAddress)>, id: Pubkey) -> bool {
    forall|i: int| 0 <= i < contacts.len() ==> (#[trigger] contacts[i]).0 != id
}

/// Where the leader takes transactions, if there is a leader and the node knows its contact.
pub fn get_leader_tpu(
    current_leader: Option<Pubkey>,
    contacts: &Vec<(Pubkey, SocketAddress)>,
) -> (r: Result<SocketAddress, VoteError>)
    ensures
        current_leader is None ==> r == Result::<SocketAddress, VoteError>::Err(
            VoteError::NoLeader,
        ),
        current_leader is Some && r is Ok ==> exists|i: int| #[trigger]
            contact_of(contacts@, current_leader->Some_0, i) && contacts@[i].1 == r->Ok_0,
        current_leader is Some && r is Err ==> r->Err_0 == VoteError::LeaderInfoNotFound
            && has_no_contact(contacts@, current_leader->Some_0),
{
    let leader = match current_leader {
        Some(leader) => leader,
        None => {
            return Err(VoteError::NoLeader);
        },
    };
    let mut i: usize = 0;
    while i < contacts.len()
        invariant
            i <= contacts@.len(),
            current_leader == Some(leader),
            forall|j: int| 0 <= j < i ==> (#[trigger] contacts@[j]).0 != leader,
        decreases contacts@.len() - i,
    {
        if same_address(&contacts[i].0, &leader) {
            let tpu = contacts[i].1;
            assert(contact_of(contacts@, current_leader->Some_0, i as int) && contacts@[i as int].1
                == tpu);
            return Ok(tpu);
        }
        i = i + 1;
    }
    Err(VoteError::LeaderInfoNotFound)
}

/// A node's votes, with those that it could not send yet.
#[derive(Debug)]
pub struct VoteSignerProxy {
    pub vote_account: Pubkey,
    pub last_leader: Pubkey,
    pub unsent_votes: Vec<VoteTransaction>,
}

/// The votes that still matter: a new leader has no use for votes meant for the last one.
pub open spec fn pending_for(
    unsent: Seq<VoteTransaction>,
    last_leader: Pubkey,
    leader: Pubkey,
) -> Seq<VoteTransaction> {
    if leader == last_leader {
        unsent
    } else {
        Seq::empty()
    }
}

impl VoteSignerProxy {
    /// A node that has registered with its signer and was given a vote account.
    pub fn new(vote_account: Pubkey) -> (r: Self)
        ensures
            r.vote_account == vote_account,
            r.last_leader == vote_account,
            r.unsent_votes@.len() == 0,
    {
        VoteSignerProxy { vote_account, last_leader: vote_account, unsent_votes: Vec::new() }
    }

    /// The vote for a tick, once the vote account has signed it.
    pub fn new_signed_vote_transaction(
        &self,
        last_id: &crate::types::Hash,
        tick_height: u64,
        vote_signature: Signature,
    ) -> (r: VoteTransaction)
        ensures
            r == (VoteTransaction {
                vote_account: self.vote_account,
                tick_height,
                last_id: *last_id,
                fee: 0,
                signature: vote_signature,
            }),
    {
        VoteTransaction {
            vote_account: self.vote_account,
            tick_height,
            last_id: *last_id,
            fee: 0,
            signature: vote_signature,
        }
    }

    /// Decides what to send for a new vote. Where the leader can be reached, these are the votes
    /// that were meant for that leader and not sent yet, the oldest first, and then the new one.
    /// Otherwise the new vote waits too.
    pub fn send_validator_vote(
        &mut self,
        leader: Pubkey,
        tx: VoteTransaction,
        leader_tpu: Result<SocketAddress, VoteError>,
    ) -> (r: Result<Vec<VoteTransaction>, VoteError>)
        ensures
            final(self).vote_account == old(self).vote_account,
            final(self).last_leader == leader,
            ({
                let pending = pending_for(old(self).unsent_votes@, old(self).last_leader, leader);
                match leader_tpu {
                    Ok(_) => {
                        &&& r is Ok
                        &&& r->Ok_0@ == pending.push(tx)
                        &&& final(self).unsent_votes@.len() == 0
                    },
                    Err(e) => {
                        &&& r == Result::<Vec<VoteTransaction>, VoteError>::Err(e)
                        &&& final(self).unsent_votes@ == pending.push(tx)
                    },
                }
            }),
    {
        if !same_address(&leader, &self.last_leader) {
            self.last_leader = leader;
            self.unsent_votes.clear();
        }
        match leader_tpu {
            Ok(_) => {
                let mut sent: Vec<VoteTransaction> = Vec::new();
                std::mem::swap(&mut sent, &mut self.unsent_votes);
                sent.push(tx);
                Ok(sent)
            },
            Err(e) => {
                self.unsent_votes.push(tx);
                Err(e)
            },
        }
    }
}

/// The unsent votes after votes for one leader that could not be reached.
pub open spec fn after_failures(
    unsent: Seq<VoteTransaction>,
    last_leader: Pubkey,
    leader: Pubkey,
    votes: Seq<VoteTransaction>,
) -> Seq<VoteTransaction>
    decreases votes.len(),
{
    if votes.len() == 0 {
        unsent
    } else {
        let before = after_failures(unsent, last_leader, leader, votes.drop_last());
        let seen = if votes.len() == 1 {
            last_leader
        } else {
            leader
        };
        pending_for(before, seen, leader).push(votes.last())
    }
}

/// While the leader stays the same, no vote is lost and none overtakes another: once the leader can
/// be reached, it is sent every vote since it became the leader, in the order in which they were
/// cast.
pub proof fn law_votes_are_sent_in_order(
    unsent: Seq<VoteTransaction>,
    last_leader: Pubkey,
    leader: Pubkey,
    votes: Seq<VoteTransaction>,
    last_vote: VoteTransaction,
)
    requires
        votes.len() > 0,
    ensures
        pending_for(
            after_failures(unsent, last_leader, leader, votes),
            leader,
            leader,
        ).push(last_vote) == pending_for(unsent, last_leader, leader) + votes.push(last_vote),
    decreases votes.len(),
{
    let front = votes.drop_last();
    if front.len() > 0 {
        law_votes_are_sent_in_order(unsent, last_leader, leader, front, votes.last());
        assert(front.push(votes.last()) =~= votes);
        assert(after_failures(unsent, last_leader, leader, votes) =~= pending_for(
            unsent,
            last_leader,
            leader,
        ) + votes);
    } else {
        assert(votes =~= seq![votes.last()]);
        assert(after_failures(unsent, last_leader, leader, front) == unsent);
        assert(after_failures(unsent, last_leader, leader, votes) =~= pending_for(
            unsent,
            last_leader,
            leader,
        ) + votes);
    }
    assert(pending_for(after_failures(unsent, last_leader, leader, votes), leader, leader).push(
        last_vote,
    ) =~= pending_for(unsent, last_leader, leader) + votes.push(last_vote));
}

/// A vote that could not be sent is not lost: it is sent, before the next one, as soon as that leader
/// can be reached, but not to another leader. What was sent is not sent again.
pub proof fn law_unsent_votes_are_sent_later(
    first: &mut VoteSignerProxy,
    second: &mut VoteSignerProxy,
    leader: Pubkey,
    later_leader: Pubkey,
    vote: VoteTransaction,
    next: VoteTransaction,
    error: VoteError,
    tpu: SocketAddress,
    r: Result<Vec<VoteTransaction>, VoteError>,
    sent: Result<Vec<VoteTransaction>, VoteError>,
)
    requires
        call_ensures(VoteSignerProxy::send_validator_vote, (first, leader, vote, Err(error)), r),
        *old(second) == *final(first),
        call_ensures(
            VoteSignerProxy::send_validator_vote,
            (second, later_leader, next, Ok(tpu)),
            sent,
        ),
    ensures
        r == Result::<Vec<VoteTransaction>, VoteError>::Err(error),
        sent is Ok,
        sent->Ok_0@.last() == next,
        later_leader == leader ==> {
            &&& sent->Ok_0@.len() >= 2
            &&& sent->Ok_0@[sent->Ok_0@.len() - 2] == vote
            &&& leader == old(first).last_leader ==> sent->Ok_0@ == old(first).unsent_votes@.push(
                vote,
            ).push(next)
            &&& leader != old(first).last_leader ==> sent->Ok_0@ == seq![vote, next]
        },
        later_leader != leader ==> sent->Ok_0@ == seq![next],
        final(second).unsent_votes@.len() == 0,
        final(second).vote_account == old(first).vote_account,
        final(second).last_leader == later_leader,
{
    if later_leader == leader {
        if leader != old(first).last_leader {
            assert(sent->Ok_0@ =~= seq![vote, next]);
        }
    } else {
        assert(sent->Ok_0@ =~= seq![next]);
    }
}

/// A vote goes to the leader and to nobody else: to the address that its contact has, and nowhere
/// without one.
pub proof fn law_a_vote_goes_to_the_leader(
    leader: Option<Pubkey>,
    id: Pubkey,
    contacts: &Vec<(Pubkey, SocketAddress)>,
    r: Result<SocketAddress, VoteError>,
    i: int,
)
    requires
        leader == Some(id),
        call_ensures(get_leader_tpu, (leader, contacts), r),
        0 <= i < contacts@.len(),
        contacts@[i].0 == id,
        forall|j: int| 0 <= j < i ==> (#[trigger] contacts@[j]).0 != id,
    ensures
        r == Result::<SocketAddress, VoteError>::Ok(contacts@[i].1),
{
    if r is Err {
        assert(has_no_contact(contacts@, id));
        assert(contacts@[i].0 != id);
    }
    let k = choose|k: int| #[trigger]
        contact_of(contacts@, leader->Some_0, k) && contacts@[k].1 == r->Ok_0;
    assert(contact_of(contacts@, id, k));
    if k < i {
        assert(contacts@[k].0 != id);
    }
    if i < k {
        assert(contacts@[i].0 != id);
    }
}

/// Without a leader, or without a contact of the leader, a vote goes nowhere, and the error says which.
pub proof fn law_no_leader_no_vote(
    leader: Option<Pubkey>,
    contacts: &Vec<(Pubkey, SocketAddress)>,
    r: Result<SocketAddress, VoteError>,
)
    requires
        call_ensures(get_leader_tpu, (leader, contacts), r),
        leader is Some ==> forall|j: int|
            0 <= j < contacts@.len() ==> Some((#[trigger] contacts@[j]).0) != leader,
    ensures
        leader is None ==> r == Result::<SocketAddress, VoteError>::Err(VoteError::NoLeader),
        leader is Some ==> r == Result::<SocketAddress, VoteError>::Err(
            VoteError::LeaderInfoNotFound,
        ),
{
    if leader is Some && r is Ok {
        let k = choose|k: int| #[trigger]
            contact_of(contacts@, leader->Some_0, k) && contacts@[k].1 == r->Ok_0;
        assert(Some(contacts@[k].0) == leader);
    }
}

/// A blob holds the bytes of its vote, and says how many they are and where they go.
pub proof fn law_a_blob_holds_its_vote(
    bytes: &Vec<u8>,
    tpu: SocketAddress,
    capacity: usize,
    r: Blob,
    i: int,
)
    requires
        bytes@.len() <= capacity,
        call_ensures(new_signed_vote_blob, (bytes, tpu, capacity), r),
    ensures
        r.data@.len() == capacity,
        r.data@.take(r.size as int) == bytes@,
        bytes@.len() <= i < capacity ==> r.data@[i] == 0,
        r.addr == tpu,
{
    assert(r.data@.take(r.size as int) =~= bytes@);
}

/// A vote says what it votes for, in the name of the node's vote account.
pub proof fn law_a_vote_says_what_it_is_for(
    proxy: &VoteSignerProxy,
    last_id: &crate::types::Hash,
    tick_height: u64,
    signature: Signature,
    r: VoteTransaction,
)
    requires
        call_ensures(
            VoteSignerProxy::new_signed_vote_transaction,
            (proxy, last_id, tick_height, signature),
            r,
        ),
    ensures
        r.vote_account == proxy.vote_account,
        r.last_id == *last_id,
        r.tick_height == tick_height,
        r.signature == signature,
        r.fee == 0,
{
}

} // verus!
