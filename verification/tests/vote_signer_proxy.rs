use solana_validator::fullnode::{IpAddress, SocketAddress};
use solana_validator::signers::Signature;
use solana_validator::types::Pubkey;
use solana_validator::vote_signer_proxy::{
    get_leader_tpu, new_signed_vote_blob, RemoteVoteSigner, RpcCall, RpcRequest, VoteError,
    VoteSignerProxy, VoteTransaction,
};

fn tpu(port: u16) -> SocketAddress {
    SocketAddress { ip: IpAddress::V4([127, 0, 0, 1]), port }
}

fn vote(proxy: &VoteSignerProxy, tick_height: u64) -> VoteTransaction {
    proxy.new_signed_vote_transaction(
        &solana_validator::types::Hash([1; 32]),
        tick_height,
        Signature([2; 64]),
    )
}

fn ticks(votes: &[VoteTransaction]) -> Vec<u64> {
    votes.iter().map(|vote| vote.tick_height).collect()
}

#[test]
fn test_pending_votes() {
    let mut signer = VoteSignerProxy::new(Pubkey([1; 32]));

    // The leader is somebody whose contact is not known.
    let my_id = Pubkey([2; 32]);
    let bootstrap_leader = Pubkey([3; 32]);
    let contacts = vec![(my_id, tpu(8000))];

    assert_eq!(signer.unsent_votes.len(), 0);
    let tx = vote(&signer, 1);
    let leader_tpu = get_leader_tpu(Some(bootstrap_leader), &contacts);
    assert!(signer.send_validator_vote(bootstrap_leader, tx, leader_tpu).is_err());
    assert_eq!(signer.unsent_votes.len(), 1);

    let tx = vote(&signer, 2);
    let leader_tpu = get_leader_tpu(Some(bootstrap_leader), &contacts);
    assert!(signer.send_validator_vote(bootstrap_leader, tx, leader_tpu).is_err());
    assert_eq!(signer.unsent_votes.len(), 2);

    // Now this node leads.
    let tx = vote(&signer, 3);
    let leader_tpu = get_leader_tpu(Some(my_id), &contacts);
    let sent = signer.send_validator_vote(my_id, tx, leader_tpu);
    assert!(sent.is_ok());
    assert!(!sent.unwrap().is_empty());

    assert_eq!(signer.unsent_votes.len(), 0);
}

#[test]
fn votes_for_one_leader_are_sent_in_order() {
    let leader = Pubkey([3; 32]);
    let mut signer = VoteSignerProxy::new(Pubkey([1; 32]));
    for tick in 1..4 {
        let tx = vote(&signer, tick);
        assert_eq!(
            signer
                .send_validator_vote(leader, tx, Err(VoteError::LeaderInfoNotFound))
                .map(|votes| ticks(&votes)),
            Err(VoteError::LeaderInfoNotFound)
        );
    }
    let tx = vote(&signer, 4);
    let sent = signer.send_validator_vote(leader, tx, Ok(tpu(1))).unwrap();
    assert_eq!(ticks(&sent), vec![1, 2, 3, 4]);
    assert_eq!(sent[0].vote_account, Pubkey([1; 32]));
    assert_eq!(sent[0].fee, 0);
}

#[test]
fn a_new_leader_gets_only_new_votes() {
    let mut signer = VoteSignerProxy::new(Pubkey([1; 32]));
    let tx = vote(&signer, 1);
    let _ = signer.send_validator_vote(Pubkey([3; 32]), tx, Err(VoteError::NoLeader));
    let tx = vote(&signer, 2);
    let _ = signer.send_validator_vote(Pubkey([4; 32]), tx, Err(VoteError::NoLeader));
    assert_eq!(ticks(&signer.unsent_votes), vec![2]);
    assert_eq!(signer.last_leader, Pubkey([4; 32]));
}

#[test]
fn the_leader_is_looked_up() {
    let contacts = vec![(Pubkey([1; 32]), tpu(1)), (Pubkey([2; 32]), tpu(2))];
    assert_eq!(get_leader_tpu(None, &contacts).map(|tpu| tpu.port), Err(VoteError::NoLeader));
    assert_eq!(get_leader_tpu(Some(Pubkey([2; 32])), &contacts).map(|tpu| tpu.port), Ok(2));
    assert_eq!(
        get_leader_tpu(Some(Pubkey([3; 32])), &contacts).map(|tpu| tpu.port),
        Err(VoteError::LeaderInfoNotFound)
    );
}

#[test]
fn a_blob_holds_a_vote() {
    let blob = new_signed_vote_blob(&vec![1, 2, 3], tpu(9), 5);
    assert_eq!(blob.data, vec![1, 2, 3, 0, 0]);
    assert_eq!(blob.size, 3);
    assert_eq!(blob.addr.port, 9);
}

#[test]
fn calls_to_a_signer_are_tried_again_or_not() {
    let signer = RemoteVoteSigner::new(tpu(1));
    assert_eq!(
        signer.call(RpcRequest::RegisterNode),
        RpcCall { id: 1, request: RpcRequest::RegisterNode, retries: 5 }
    );
    assert_eq!(signer.call(RpcRequest::SignVote).retries, 0);
    assert_eq!(signer.call(RpcRequest::DeregisterNode).retries, 5);
}
