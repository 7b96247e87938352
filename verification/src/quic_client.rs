//! Connections to other nodes, and how much each of them may carry.

use crate::fullnode::SocketAddress;
use crate::types::{same_address, Pubkey};
use std::rc::Rc;
use vstd::prelude::*;

verus! {

/// What can go wrong in making a client.
#[derive(Debug)]
pub enum QuicClientError {
    CertificateError(String),
}

impl QuicClientError {
    /// The error as it is shown.
    pub fn message(&self) -> (r: String)
        ensures
            r@ == (match *self {
                QuicClientError::CertificateError(detail) => "Certificate error: "@ + detail@,
            }),
    {
        match self {
            QuicClientError::CertificateError(detail) => {
                let mut text: String = "Certificate error: ".to_string();
                text.append(detail.as_str());
                text
            },
        }
    }
}

/// Whether the other side of a connection gives weight to this one.
#[derive(Clone, Copy, Debug, PartialEq, Eq, Structural)]
pub enum ConnectionPeerType {
    Unstaked,
    Staked,
}

/// Who has stake in the cluster.
#[derive(Debug)]
pub struct StakedNodes {
    pub total_stake: u64,
    /// Each node with its stake, and no node twice.
    pub pubkey_stake_map: Vec<(Pubkey, u64)>,
}

/// No node is listed twice.
pub open spec fn distinct_nodes(stakes: Seq<(Pubkey, u64)>) -> bool {
    forall|i: int, j: int|
        0 <= i < j < stakes.len() ==> (#[trigger] stakes[i]).0 != (#[trigger] stakes[j]).0
}

/// The node has that stake.
pub open spec fn has_stake(stakes: Seq<(Pubkey, u64)>, pubkey: Pubkey, stake: u64) -> bool {
    exists|i: int| 0 <= i < stakes.len() && #[trigger] stakes[i] == (pubkey, stake)
}

/// The node is listed.
pub open spec fn is_listed(stakes: Seq<(Pubkey, u64)>, pubkey: Pubkey) -> bool {
    exists|i: int| 0 <= i < stakes.len() && (#[trigger] stakes[i]).0 == pubkey
}

impl StakedNodes {
    pub open spec fn wf(&self) -> bool {
        distinct_nodes(self.pubkey_stake_map@)
    }

    pub fn new() -> (r: Self)
        ensures
            r.wf(),
            r.total_stake == 0,
            r.pubkey_stake_map@.len() == 0,
    {
        StakedNodes { total_stake: 0, pubkey_stake_map: Vec::new() }
    }

    /// Where a node is listed.
    fn find(&self, pubkey: &Pubkey) -> (r: Option<usize>)
        ensures
            match r {
                Some(i) => i < self.pubkey_stake_map@.len() && self.pubkey_stake_map@[i as int].0
                    == *pubkey,
                None => !is_listed(self.pubkey_stake_map@, *pubkey),
            },
    {
        let mut i: usize = 0;
        while i < self.pubkey_stake_map.len()
            invariant
                i <= self.pubkey_stake_map@.len(),
                forall|j: int| 0 <= j < i ==> (#[trigger] self.pubkey_stake_map@[j]).0 != *pubkey,
            decreases self.pubkey_stake_map@.len() - i,
        {
            if same_address(&self.pubkey_stake_map[i].0, pubkey) {
                return Some(i);
            }
            i = i + 1;
        }
        None
    }

    /// The stake of a node, if it has any.
    pub fn get(&self, pubkey: &Pubkey) -> (r: Option<u64>)
        requires
            self.wf(),
        ensures
            r is Some ==> has_stake(self.pubkey_stake_map@, *pubkey, r->Some_0),
            r is None <==> !is_listed(self.pubkey_stake_map@, *pubkey),
    {
        match self.find(pubkey) {
            Some(i) => {
                let stake: u64 = self.pubkey_stake_map[i].1;
                assert(self.pubkey_stake_map@[i as int] == (*pubkey, stake));
                assert(self.pubkey_stake_map@[i as int].0 == *pubkey);
                Some(stake)
            },
            None => None,
        }
    }

    /// Lists a node with its stake, in place of what was listed of it.
    pub fn insert(&mut self, pubkey: Pubkey, stake: u64)
        requires
            old(self).wf(),
        ensures
            final(self).wf(),
            final(self).total_stake == old(self).total_stake,
            has_stake(final(self).pubkey_stake_map@, pubkey, stake),
            forall|other: Pubkey, s: u64|
                other != pubkey ==> (#[trigger] has_stake(
                    final(self).pubkey_stake_map@,
                    other,
                    s,
                ) <==> has_stake(old(self).pubkey_stake_map@, other, s)),
    {
        let ghost before = self.pubkey_stake_map@;
        match self.find(&pubkey) {
            Some(i) => {
                self.pubkey_stake_map[i] = (pubkey, stake);
                assert(self.pubkey_stake_map@ == before.update(i as int, (pubkey, stake)));
                assert(self.pubkey_stake_map@[i as int] == (pubkey, stake));
            },
            None => {
                self.pubkey_stake_map.push((pubkey, stake));
                assert(self.pubkey_stake_map@[before.len() as int] == (pubkey, stake));
            },
        }
        let ghost after = self.pubkey_stake_map@;
        proof {
            assert forall|other: Pubkey, s: u64| other != pubkey implies (#[trigger] has_stake(
                after,
                other,
                s,
            ) <==> has_stake(before, other, s)) by {
                if has_stake(after, other, s) {
                    let k = choose|k: int| 0 <= k < after.len() && #[trigger] after[k] == (other, s);
                    assert(before[k] == (other, s));
                }
                if has_stake(before, other, s) {
                    let k = choose|k: int|
                        0 <= k < before.len() && #[trigger] before[k] == (other, s);
                    assert(after[k] == (other, s));
                }
            }
        }
    }

    /// Lists a node no longer.
    pub fn remove(&mut self, pubkey: &Pubkey)
        requires
            old(self).wf(),
        ensures
            final(self).wf(),
            final(self).total_stake == old(self).total_stake,
            !is_listed(final(self).pubkey_stake_map@, *pubkey),
            forall|other: Pubkey, s: u64|
                other != *pubkey ==> (#[trigger] has_stake(
                    final(self).pubkey_stake_map@,
                    other,
                    s,
                ) <==> has_stake(old(self).pubkey_stake_map@, other, s)),
    {
        let ghost before = self.pubkey_stake_map@;
        match self.find(pubkey) {
            Some(i) => {
                let _ = self.pubkey_stake_map.remove(i);
                let ghost after = self.pubkey_stake_map@;
                proof {
                    assert(after == before.remove(i as int));
                    assert forall|other: Pubkey, s: u64| other != *pubkey implies (
                    #[trigger] has_stake(after, other, s) <==> has_stake(before, other, s)) by {
                        if has_stake(after, other, s) {
                            let k = choose|k: int|
                                0 <= k < after.len() && #[trigger] after[k] == (other, s);
                            if k < i {
                                assert(before[k] == (other, s));
                            } else {
                                assert(before[k + 1] == (other, s));
                            }
                        }
                        if has_stake(before, other, s) {
                            let k = choose|k: int|
                                0 <= k < before.len() && #[trigger] before[k] == (other, s);
                            if k < i {
                                assert(after[k] == (other, s));
                            } else {
                                assert(after[k - 1] == (other, s));
                            }
                        }
                    }
                    assert forall|j: int| 0 <= j < after.len() implies (#[trigger] after[j]).0
                        != *pubkey by {
                        if j < i {
                            assert(before[j].0 != before[i as int].0);
                        } else {
                            assert(before[i as int].0 != before[j + 1].0);
                        }
                    }
                    assert forall|a: int, b: int| 0 <= a < b < after.len() implies (
                    #[trigger] after[a]).0 != (#[trigger] after[b]).0 by {
                        let x = if a < i {
                            a
                        } else {
                            a + 1
                        };
                        let y = if b < i {
                            b
                        } else {
                            b + 1
                        };
                        assert(before[x].0 != before[y].0);
                    }
                }
            },
            None => {},
        }
    }
}

/// How connections are made. The staked nodes are shared with whoever keeps them up to date: `N` is
/// the handle by which they are found.
#[derive(Debug)]
pub struct QuicConfig<N> {
    pub maybe_staked_nodes: Option<N>,
    pub maybe_client_pubkey: Option<Pubkey>,
}

impl<N> QuicConfig<N> {
    /// Without stake until staked nodes are known.
    pub fn new() -> (r: Self)
        ensures
            r.maybe_staked_nodes is None,
            r.maybe_client_pubkey is None,
    {
        QuicConfig { maybe_staked_nodes: None, maybe_client_pubkey: None }
    }

    /// Makes known where to find who has stake, and who the client is.
    pub fn set_staked_nodes(&mut self, staked_nodes: N, client_pubkey: &Pubkey)
        ensures
            final(self).maybe_staked_nodes == Some(staked_nodes),
            final(self).maybe_client_pubkey == Some(*client_pubkey),
    {
        self.maybe_staked_nodes = Some(staked_nodes);
        self.maybe_client_pubkey = Some(*client_pubkey);
    }

    /// For whom the number of parallel streams is computed, where `staked_nodes` is what is found
    /// by the handle now: a client of unknown identity, or in a cluster of unknown stakes, has
    /// none. Otherwise it has the stake it is listed with, of all the stake there is.
    pub fn client_stake(&self, staked_nodes: Option<&StakedNodes>) -> (r: (
        ConnectionPeerType,
        u64,
        u64,
    ))
        requires
            staked_nodes matches Some(nodes) ==> nodes.wf(),
        ensures
            self.maybe_client_pubkey is None || self.maybe_staked_nodes is None || staked_nodes is None
                ==> r == (ConnectionPeerType::Unstaked, 0u64, 0u64),
            self.maybe_client_pubkey is Some && self.maybe_staked_nodes is Some
                && staked_nodes is Some ==> {
                let nodes = staked_nodes->Some_0;
                let pubkey = self.maybe_client_pubkey->Some_0;
                &&& r.2 == nodes.total_stake
                &&& if is_listed(nodes.pubkey_stake_map@, pubkey) {
                    r.0 == ConnectionPeerType::Staked && has_stake(
                        nodes.pubkey_stake_map@,
                        pubkey,
                        r.1,
                    )
                } else {
                    r.0 == ConnectionPeerType::Unstaked && r.1 == 0
                }
            },
    {
        match (&self.maybe_client_pubkey, &self.maybe_staked_nodes, staked_nodes) {
            (Some(pubkey), Some(_), Some(nodes)) => match nodes.get(pubkey) {
                Some(stake) => (ConnectionPeerType::Staked, stake, nodes.total_stake),
                None => (ConnectionPeerType::Unstaked, 0, nodes.total_stake),
            },
            _ => (ConnectionPeerType::Unstaked, 0, 0),
        }
    }
}

/// A client of one node.
#[derive(Debug)]
pub struct QuicClient {
    pub addr: SocketAddress,
    /// How many streams the client may have open at once.
    pub chunk_size: usize,
}

/// A connection, which may be shared.
#[derive(Debug)]
pub struct Quic(pub Rc<QuicClient>);

/// Why a pool has no such connection.
#[derive(Clone, Copy, Debug, PartialEq, Eq, Structural)]
pub enum ConnectionPoolError {
    IndexOutOfRange,
}

/// The connections to one node.
#[derive(Debug)]
pub struct QuicPool {
    pub connections: Vec<Quic>,
}

impl QuicPool {
    pub fn new() -> (r: Self)
        ensures
            r.connections@.len() == 0,
    {
        QuicPool { connections: Vec::new() }
    }

    /// Adds a connection that may have so many streams open at once.
    pub fn add_connection(&mut self, addr: &SocketAddress, max_parallel_streams: usize)
        ensures
            final(self).connections@ == old(self).connections@.push(
                final(self).connections@.last(),
            ),
            final(self).connections@.len() == old(self).connections@.len() + 1,
            final(self).connections@.last().0.addr == *addr,
            final(self).connections@.last().0.chunk_size == max_parallel_streams,
    {
        let entry = Self::create_pool_entry(addr, max_parallel_streams);
        self.connections.push(entry);
    }

    pub fn num_connections(&self) -> (r: usize)
        ensures
            r == self.connections@.len(),
    {
        self.connections.len()
    }

    pub fn get(&self, index: usize) -> (r: Result<&Quic, ConnectionPoolError>)
        ensures
            index < self.connections@.len() ==> r == Result::<&Quic, ConnectionPoolError>::Ok(
                &self.connections@[index as int],
            ),
            index >= self.connections@.len() ==> r == Result::<&Quic, ConnectionPoolError>::Err(
                ConnectionPoolError::IndexOutOfRange,
            ),
    {
        if index < self.connections.len() {
            Ok(&self.connections[index])
        } else {
            Err(ConnectionPoolError::IndexOutOfRange)
        }
    }

    fn create_pool_entry(addr: &SocketAddress, max_parallel_streams: usize) -> (r: Quic)
        ensures
            r.0.addr == *addr,
            r.0.chunk_size == max_parallel_streams,
    {
        Quic(Rc::new(QuicClient { addr: *addr, chunk_size: max_parallel_streams }))
    }
}

/// The stake that a node was listed with last is the one that is found, and a node that was taken off
/// the list has none. Other nodes keep theirs.
pub proof fn law_the_listed_stake_is_found(
    nodes: &mut StakedNodes,
    pubkey: Pubkey,
    stake: u64,
    other: Pubkey,
    found: Option<u64>,
    before: Option<u64>,
    after: Option<u64>,
)
    requires
        old(nodes).wf(),
        call_ensures(StakedNodes::insert, (nodes, pubkey, stake), ()),
        call_ensures(StakedNodes::get, (&*final(nodes), &pubkey), found),
        call_ensures(StakedNodes::get, (&*old(nodes), &other), before),
        call_ensures(StakedNodes::get, (&*final(nodes), &other), after),
    ensures
        found == Some(stake),
        other != pubkey ==> after == before,
        final(nodes).total_stake == old(nodes).total_stake,
{
    let list = final(nodes).pubkey_stake_map@;
    let was = old(nodes).pubkey_stake_map@;
    let k = choose|k: int| 0 <= k < list.len() && #[trigger] list[k] == (pubkey, stake);
    assert(list[k].0 == pubkey);
    assert(is_listed(list, pubkey));
    lemma_one_stake(list, pubkey, stake, found->Some_0);
    if other != pubkey {
        if before is Some {
            assert(has_stake(list, other, before->Some_0) <==> has_stake(
                was,
                other,
                before->Some_0,
            ));
            let i = choose|i: int|
                0 <= i < list.len() && #[trigger] list[i] == (other, before->Some_0);
            assert(list[i].0 == other);
            assert(is_listed(list, other));
            lemma_one_stake(list, other, before->Some_0, after->Some_0);
        }
        if after is Some {
            assert(has_stake(list, other, after->Some_0) <==> has_stake(was, other, after->Some_0));
            let i = choose|i: int|
                0 <= i < was.len() && #[trigger] was[i] == (other, after->Some_0);
            assert(was[i].0 == other);
            assert(is_listed(was, other));
        }
    }
}

/// No node has two stakes.
proof fn lemma_one_stake(list: Seq<(Pubkey, u64)>, pubkey: Pubkey, a: u64, b: u64)
    requires
        distinct_nodes(list),
        has_stake(list, pubkey, a),
        has_stake(list, pubkey, b),
    ensures
        a == b,
{
    let i = choose|i: int| 0 <= i < list.len() && #[trigger] list[i] == (pubkey, a);
    let j = choose|j: int| 0 <= j < list.len() && #[trigger] list[j] == (pubkey, b);
    if i < j {
        assert(list[i].0 != list[j].0);
    }
    if j < i {
        assert(list[j].0 != list[i].0);
    }
}

/// A node that was taken off the list has no stake.
pub proof fn law_a_removed_node_has_no_stake(
    nodes: &mut StakedNodes,
    pubkey: Pubkey,
    found: Option<u64>,
)
    requires
        old(nodes).wf(),
        call_ensures(StakedNodes::remove, (nodes, &pubkey), ()),
        call_ensures(StakedNodes::get, (&*final(nodes), &pubkey), found),
    ensures
        found is None,
{
}

/// A client is staked just when the nodes that are shared now list it, and then it has the stake that
/// it is listed with, of all the stake there is; nothing is known of a client that was not told who it
/// is.
pub proof fn law_a_client_has_its_stake<N>(
    config: &mut QuicConfig<N>,
    handle: N,
    pubkey: Pubkey,
    nodes: &StakedNodes,
    stake: Option<u64>,
    r: (ConnectionPeerType, u64, u64),
)
    requires
        nodes.wf(),
        call_ensures(QuicConfig::<N>::set_staked_nodes, (config, handle, &pubkey), ()),
        call_ensures(StakedNodes::get, (nodes, &pubkey), stake),
        call_ensures(QuicConfig::<N>::client_stake, (&*final(config), Some(nodes)), r),
    ensures
        r.2 == nodes.total_stake,
        stake is Some <==> r.0 == ConnectionPeerType::Staked,
        stake is Some ==> r.1 == stake->Some_0,
        stake is None ==> r.1 == 0,
{
    if stake is Some {
        let list = nodes.pubkey_stake_map@;
        assert(is_listed(list, pubkey));
        lemma_one_stake(list, pubkey, stake->Some_0, r.1);
    }
}

/// A connection that was added is found after those that were there, which stay, and it goes to its
/// address with so many streams.
pub proof fn law_an_added_connection_is_found(
    pool: &mut QuicPool,
    addr: &SocketAddress,
    streams: usize,
    index: usize,
    n: usize,
    r: Result<&Quic, ConnectionPoolError>,
)
    requires
        call_ensures(QuicPool::add_connection, (pool, addr, streams), ()),
        call_ensures(QuicPool::num_connections, (&*final(pool),), n),
        call_ensures(QuicPool::get, (&*final(pool), index), r),
    ensures
        n == old(pool).connections@.len() + 1,
        r is Ok <==> index < n,
        index == n - 1 ==> r->Ok_0.0.addr == *addr && r->Ok_0.0.chunk_size == streams,
        index < n - 1 ==> *r->Ok_0 == old(pool).connections@[index as int],
{
}

} // verus!
