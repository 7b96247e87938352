use solana_validator::fullnode::{
    plan_startup, Fullnode, FullnodeReturnType, IpAddress, LeaderScheduler, NodeRole, Service,
    SocketAddress, Startup, TpuReturnType, TvuReturnType,
};
use solana_validator::types::Pubkey;

const ME: Pubkey = Pubkey([1; 32]);
const OTHER: Pubkey = Pubkey([2; 32]);

fn startup(has_leader_info: bool, rpc_port: Option<u16>) -> Startup {
    let tpu = SocketAddress { ip: IpAddress::V4([10, 0, 0, 7]), port: 8001 };
    plan_startup(ME, OTHER, tpu, has_leader_info, rpc_port, 8899, 9900)
}

fn scheduler(bootstrap_height: u64) -> LeaderScheduler {
    LeaderScheduler {
        bootstrap_leader: OTHER,
        bootstrap_height,
        leader_rotation_interval: 10,
        seed_rotation_interval: 20,
        active_window_length: bootstrap_height,
    }
}

fn node(as_validator: bool, leader_scheduler: Option<LeaderScheduler>) -> Fullnode {
    Fullnode::new_with_bank(ME, 0, 5, &startup(as_validator, None), false, leader_scheduler)
}

#[test]
fn validator_exit() {
    let mut v = node(true, None);
    assert_eq!(v.exit(), vec![Service::Rpu, Service::Tvu]);
    assert!(v.exit);
    assert_eq!(
        v.join_order(),
        vec![Service::Rpu, Service::Ncp, Service::Rpc, Service::Tvu]
    );
    assert_eq!(v.join(None, None), None);
}

#[test]
fn validator_parallel_exit() {
    let mut vals: Vec<Fullnode> = (0..2).map(|_| node(true, None)).collect();
    // each validator can exit in parallel to speed many sequential calls to `join`
    vals.iter_mut().for_each(|v| {
        v.exit();
    });
    // while join is called sequentially, the above exit call notified all the
    // validators to exit from all their threads
    vals.into_iter().for_each(|v| {
        assert!(v.exit);
        assert_eq!(v.join(None, None), None);
    });
}

#[test]
fn test_validator_to_leader_transition() {
    let leader_rotation_interval = 10;
    let num_bootstrap_slots = 2;
    let bootstrap_height = num_bootstrap_slots * leader_rotation_interval;
    let mut validator = node(true, Some(scheduler(bootstrap_height)));
    assert_eq!(validator.leader_id, OTHER);
    assert!(!validator.check_role_exited(true, false));
    assert!(validator.check_role_exited(false, true));

    let node_role = validator.take_role();
    assert!(matches!(node_role, Some(NodeRole::Validator(_))));
    assert!(!validator.check_role_exited(true, true));
    let join_result = Some(TvuReturnType::LeaderRotation(bootstrap_height));
    assert_eq!(
        validator.validator_joined(join_result),
        Some(FullnodeReturnType::ValidatorToLeaderRotation)
    );
    assert_eq!(validator.leader_id, ME);
    match validator.node_role {
        Some(NodeRole::Leader(services)) => {
            assert_eq!(services.tpu.entry_height, bootstrap_height);
            assert_eq!(services.broadcast_stage.entry_height, bootstrap_height);
            assert_eq!(services.tpu.bank, 0);
            assert!(!services.sigverify_disabled);
        }
        _ => panic!("Role should be leader"),
    }
    assert_eq!(
        validator.join_order(),
        vec![
            Service::Rpu,
            Service::Ncp,
            Service::Rpc,
            Service::BroadcastStage,
            Service::Tpu
        ]
    );
    assert_eq!(validator.exit(), vec![Service::Rpu, Service::Tpu]);
}

#[test]
fn a_leader_becomes_a_validator_of_a_new_bank() {
    let mut leader = node(false, Some(scheduler(20)));
    assert_eq!(leader.leader_id, ME);
    assert!(matches!(leader.take_role(), Some(NodeRole::Leader(_))));
    let config = leader.leader_joined(Some(TpuReturnType::LeaderRotation)).unwrap();
    assert_eq!(config.bootstrap_leader, OTHER);
    assert_eq!(config.bootstrap_height, Some(20));
    assert_eq!(config.leader_rotation_interval, Some(10));
    assert_eq!(config.seed_rotation_interval, Some(20));
    assert_eq!(config.active_window_length, Some(20));
    assert!(leader.leader_scheduler_option.is_none());
    assert!(leader.bank_rebuilt(1, scheduler(20), OTHER));
    assert_eq!(
        leader.leader_to_validator::<()>(30, Some(Ok(()))),
        Ok(FullnodeReturnType::LeaderToValidatorRotation)
    );
    assert_eq!(leader.leader_id, OTHER);
    assert_eq!(leader.rpu, Some(1));
    match leader.node_role {
        Some(NodeRole::Validator(services)) => {
            assert_eq!(services.tvu.entry_height, 30);
            assert_eq!(services.tvu.bank, 1);
            assert!(services.tvu.leader_scheduler.is_some());
        }
        _ => panic!("Role should be validator"),
    }
    // And back again, out of the same bank.
    leader.take_role();
    leader.validator_joined(Some(TvuReturnType::LeaderRotation(40)));
    assert_eq!(leader.leader_id, ME);
    assert_eq!(leader.bank, 1);
}

#[test]
fn a_failure_to_close_leaves_the_node_without_a_role() {
    let mut leader = node(false, Some(scheduler(20)));
    leader.take_role();
    leader.leader_joined(Some(TpuReturnType::LeaderRotation));
    leader.bank_rebuilt(1, scheduler(20), OTHER);
    assert_eq!(leader.leader_to_validator(30, Some(Err("stuck"))), Err("stuck"));
    assert!(leader.node_role.is_none());
    assert!(leader.rpu.is_none());
    assert_eq!(leader.join_order(), vec![Service::Ncp, Service::Rpc]);
}

#[test]
fn services_that_end_without_rotation_change_nothing() {
    let mut leader = node(false, None);
    leader.take_role();
    assert!(leader.leader_joined(None).is_none());
    assert!(leader.node_role.is_none());
    let mut validator = node(true, None);
    validator.take_role();
    assert_eq!(validator.validator_joined(None), None);
    assert!(validator.node_role.is_none());
    assert_eq!(
        node(false, None).join(Some(TpuReturnType::LeaderRotation), None),
        Some(FullnodeReturnType::LeaderToValidatorRotation)
    );
    assert_eq!(
        node(true, None).join(None, Some(TvuReturnType::LeaderRotation(1))),
        Some(FullnodeReturnType::ValidatorToLeaderRotation)
    );
    assert_eq!(node(true, None).join(Some(TpuReturnType::LeaderRotation), None), None);
}

#[test]
fn addresses_are_planned() {
    let leader = startup(false, Some(0));
    assert_eq!(leader.leader_id, ME);
    assert!(!leader.as_validator);
    assert_eq!(leader.rpc_addr.port, 0);
    assert!(matches!(leader.rpc_addr.ip, IpAddress::V4([0, 0, 0, 0])));
    assert_eq!(leader.drone_addr.port, 9900);
    assert!(matches!(leader.drone_addr.ip, IpAddress::V4([10, 0, 0, 7])));
    let validator = startup(true, None);
    assert_eq!(validator.leader_id, OTHER);
    assert_eq!(validator.rpc_addr.port, 8899);
}
