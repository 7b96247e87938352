use solana_validator::fullnode::{IpAddress, SocketAddress};
use solana_validator::quic_client::{
    ConnectionPeerType, ConnectionPoolError, QuicClientError, QuicConfig, QuicPool, StakedNodes,
};
use solana_validator::types::Pubkey;
use std::sync::{Arc, RwLock};

const QUIC_MAX_UNSTAKED_CONCURRENT_STREAMS: usize = 128;
const QUIC_MIN_STAKED_CONCURRENT_STREAMS: usize = 128;
const QUIC_TOTAL_STAKED_CONCURRENT_STREAMS: usize = 100_000;

/// How many streams a peer may have: a share of those for staked peers, by its stake.
fn compute_max_allowed_uni_streams(
    (peer_type, stake, total_stake): (ConnectionPeerType, u64, u64),
) -> usize {
    match peer_type {
        ConnectionPeerType::Staked if total_stake > 0 => {
            let delta =
                (QUIC_TOTAL_STAKED_CONCURRENT_STREAMS - QUIC_MIN_STAKED_CONCURRENT_STREAMS) as f64;
            (QUIC_MIN_STAKED_CONCURRENT_STREAMS as f64
                + (stake as f64 / total_stake as f64) * delta) as usize
        }
        _ => QUIC_MAX_UNSTAKED_CONCURRENT_STREAMS,
    }
}

fn compute_max_parallel_streams(config: &QuicConfig<Arc<RwLock<StakedNodes>>>) -> usize {
    let nodes = config.maybe_staked_nodes.as_ref().map(|nodes| nodes.read().unwrap());
    compute_max_allowed_uni_streams(config.client_stake(nodes.as_deref()))
}

#[test]
fn test_connection_cache_max_parallel_chunks() {
    let mut connection_config = QuicConfig::new();

    assert_eq!(
        compute_max_parallel_streams(&connection_config),
        QUIC_MAX_UNSTAKED_CONCURRENT_STREAMS
    );

    let staked_nodes = Arc::new(RwLock::new(StakedNodes::new()));
    let pubkey = Pubkey([8; 32]);
    connection_config.set_staked_nodes(staked_nodes.clone(), &pubkey);
    assert_eq!(
        compute_max_parallel_streams(&connection_config),
        QUIC_MAX_UNSTAKED_CONCURRENT_STREAMS
    );

    staked_nodes.write().unwrap().total_stake = 10000;
    assert_eq!(
        compute_max_parallel_streams(&connection_config),
        QUIC_MAX_UNSTAKED_CONCURRENT_STREAMS
    );

    staked_nodes.write().unwrap().insert(pubkey, 1);

    let delta = (QUIC_TOTAL_STAKED_CONCURRENT_STREAMS - QUIC_MIN_STAKED_CONCURRENT_STREAMS) as f64;

    assert_eq!(
        compute_max_parallel_streams(&connection_config),
        (QUIC_MIN_STAKED_CONCURRENT_STREAMS as f64 + (1f64 / 10000f64) * delta) as usize
    );

    staked_nodes.write().unwrap().remove(&pubkey);
    staked_nodes.write().unwrap().insert(pubkey, 1000);
    assert_ne!(
        compute_max_parallel_streams(&connection_config),
        QUIC_MIN_STAKED_CONCURRENT_STREAMS
    );
}

#[test]
fn a_client_has_the_stake_it_is_listed_with() {
    let mut nodes = StakedNodes::new();
    nodes.total_stake = 10;
    nodes.insert(Pubkey([1; 32]), 4);
    nodes.insert(Pubkey([2; 32]), 5);
    nodes.insert(Pubkey([1; 32]), 3);
    assert_eq!(nodes.pubkey_stake_map.len(), 2);
    assert_eq!(nodes.get(&Pubkey([1; 32])), Some(3));
    nodes.remove(&Pubkey([2; 32]));
    assert_eq!(nodes.get(&Pubkey([2; 32])), None);
    nodes.remove(&Pubkey([9; 32]));
    let mut config: QuicConfig<&str> = QuicConfig::new();
    let unknown = (ConnectionPeerType::Unstaked, 0, 0);
    assert_eq!(config.client_stake(None), unknown);
    assert_eq!(config.client_stake(Some(&nodes)), unknown);
    config.set_staked_nodes("nodes", &Pubkey([1; 32]));
    assert_eq!(config.client_stake(Some(&nodes)), (ConnectionPeerType::Staked, 3, 10));
    config.maybe_client_pubkey = Some(Pubkey([2; 32]));
    assert_eq!(config.client_stake(Some(&nodes)), (ConnectionPeerType::Unstaked, 0, 10));
}

#[test]
fn a_pool_gives_out_its_connections() {
    let addr = SocketAddress { ip: IpAddress::V4([1, 2, 3, 4]), port: 5 };
    let mut pool = QuicPool::new();
    assert!(matches!(pool.get(0), Err(ConnectionPoolError::IndexOutOfRange)));
    pool.add_connection(&addr, 128);
    pool.add_connection(&addr, 9);
    assert_eq!(pool.num_connections(), 2);
    assert_eq!(pool.get(0).unwrap().0.chunk_size, 128);
    assert_eq!(pool.get(1).unwrap().0.chunk_size, 9);
    assert_eq!(pool.get(1).unwrap().0.addr.port, 5);
    assert!(matches!(pool.get(2), Err(ConnectionPoolError::IndexOutOfRange)));
}

#[test]
fn a_certificate_error_is_shown() {
    assert_eq!(
        QuicClientError::CertificateError("expired".to_string()).message(),
        "Certificate error: expired"
    );
}
