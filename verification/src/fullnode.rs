//! The roles of a node, and how it goes from one to the other.
//!
//! The services themselves are threads with sockets. Here they stand by what they were started
//! with: which bank they serve, from which entry of the ledger on, and under whose schedule.

use crate::types::Pubkey;
use vstd::prelude::*;

verus! {

/// An internet address without a port.
#[derive(Clone, Copy, Debug)]
pub enum IpAddress {
    V4([u8; 4]),
    V6([u8; 16]),
}

/// Where a socket is bound.
#[derive(Clone, Copy, Debug)]
pub struct SocketAddress {
    pub ip: IpAddress,
    pub port: u16,
}

/// How leaders are scheduled. What is `None` takes the scheduler's default.
#[derive(Clone, Copy, Debug)]
pub struct LeaderSchedulerConfig {
    pub bootstrap_leader: Pubkey,
    pub bootstrap_height: Option<u64>,
    pub leader_rotation_interval: Option<u64>,
    pub seed_rotation_interval: Option<u64>,
    pub active_window_length: Option<u64>,
}

/// A schedule of leaders, by what it was made from.
#[derive(Clone, Copy, Debug)]
pub struct LeaderScheduler {
    pub bootstrap_leader: Pubkey,
    pub bootstrap_height: u64,
    pub leader_rotation_interval: u64,
    pub seed_rotation_interval: u64,
    pub active_window_length: u64,
}

impl LeaderScheduler {
    /// The configuration from which a fresh scheduler like this one is made.
    pub fn config(&self) -> (r: LeaderSchedulerConfig)
        ensures
            r.bootstrap_leader == self.bootstrap_leader,
            r.bootstrap_height == Some(self.bootstrap_height),
            r.leader_rotation_interval == Some(self.leader_rotation_interval),
            r.seed_rotation_interval == Some(self.seed_rotation_interval),
            r.active_window_length == Some(self.active_window_length),
    {
        LeaderSchedulerConfig {
            bootstrap_leader: self.bootstrap_leader,
            bootstrap_height: Some(self.bootstrap_height),
            leader_rotation_interval: Some(self.leader_rotation_interval),
            seed_rotation_interval: Some(self.seed_rotation_interval),
            active_window_length: Some(self.active_window_length),
        }
    }
}

/// One of the banks that a node has built, by its number.
pub type BankId = u64;

/// What a service of a role was started with.
#[derive(Clone, Copy, Debug)]
pub struct ServiceStart {
    pub bank: BankId,
    pub entry_height: u64,
    pub leader_scheduler: Option<LeaderScheduler>,
}

/// What a transaction unit says when it ends of itself.
#[derive(Clone, Copy, Debug, PartialEq, Eq, Structural)]
pub enum TpuReturnType {
    LeaderRotation,
}

/// What a validation unit says when it ends of itself.
#[derive(Clone, Copy, Debug, PartialEq, Eq, Structural)]
pub enum TvuReturnType {
    /// This node becomes the leader at that entry height.
    LeaderRotation(u64),
}

/// The services of a leader: a transaction unit and a broadcast stage.
#[derive(Clone, Copy, Debug)]
pub struct LeaderServices {
    pub tpu: ServiceStart,
    pub sigverify_disabled: bool,
    pub broadcast_stage: ServiceStart,
}

/// The services of a validator: a validation unit.
#[derive(Clone, Copy, Debug)]
pub struct ValidatorServices {
    pub tvu: ServiceStart,
}

/// What a node does for the network.
#[derive(Clone, Copy, Debug)]
pub enum NodeRole {
    Leader(LeaderServices),
    Validator(ValidatorServices),
}

/// The change of role with which a node ended.
#[derive(Clone, Copy, Debug, PartialEq, Eq, Structural)]
pub enum FullnodeReturnType {
    LeaderToValidatorRotation,
    ValidatorToLeaderRotation,
}

/// A service of a node that can be told to exit and waited for.
#[derive(Clone, Copy, Debug, PartialEq, Eq, Structural)]
pub enum Service {
    Rpu,
    Ncp,
    Rpc,
    BroadcastStage,
    Tpu,
    Tvu,
}

/// What is decided when a node starts.
#[derive(Clone, Copy, Debug)]
pub struct Startup {
    /// The leader that the node advertises.
    pub leader_id: Pubkey,
    /// Where to ask for tokens.
    pub drone_addr: SocketAddress,
    /// Where the node answers remote procedure calls.
    pub rpc_addr: SocketAddress,
    /// The node starts as a validator.
    pub as_validator: bool,
}

/// Decides how a node starts: with somebody to follow it is a validator, otherwise the leader.
///
/// The node answers remote procedure calls on every interface, on the given port or else the
/// default one. With port zero the system chooses an open port.
pub fn plan_startup(
    id: Pubkey,
    advertised_leader_id: Pubkey,
    tpu_addr: SocketAddress,
    has_leader_info: bool,
    rpc_port: Option<u16>,
    default_rpc_port: u16,
    drone_port: u16,
) -> (r: Startup)
    ensures
        r.as_validator == has_leader_info,
        r.leader_id == (if has_leader_info {
            advertised_leader_id
        } else {
            id
        }),
        r.drone_addr == (SocketAddress { ip: tpu_addr.ip, port: drone_port }),
        r.rpc_addr.ip matches IpAddress::V4(ip) && ip@ == seq![0u8, 0u8, 0u8, 0u8],
        r.rpc_addr.port == (match rpc_port {
            Some(port) => port,
            None => default_rpc_port,
        }),
{
    let unspecified: [u8; 4] = [0, 0, 0, 0];
    assert(unspecified@ =~= seq![0u8, 0u8, 0u8, 0u8]);
    Startup {
        leader_id: if has_leader_info {
            advertised_leader_id
        } else {
            id
        },
        drone_addr: SocketAddress { ip: tpu_addr.ip, port: drone_port },
        rpc_addr: SocketAddress {
            ip: IpAddress::V4(unspecified),
            port: match rpc_port {
                Some(port) => port,
                None => default_rpc_port,
            },
        },
        as_validator: has_leader_info,
    }
}

/// A node of the network.
#[derive(Debug)]
pub struct Fullnode {
    pub node_role: Option<NodeRole>,
    pub leader_scheduler_option: Option<LeaderScheduler>,
    /// The node's own identity.
    pub id: Pubkey,
    /// Whom the node takes for the leader.
    pub leader_id: Pubkey,
    pub exit: bool,
    /// The bank that requests are answered from, while they are answered.
    pub rpu: Option<BankId>,
    pub bank: BankId,
    pub sigverify_disabled: bool,
}

impl Fullnode {
    /// The services that run all serve the current bank under the current schedule, and a leader
    /// takes itself for the leader.
    pub open spec fn wf(&self) -> bool {
        &&& self.rpu matches Some(bank) ==> bank == self.bank
        &&& match self.node_role {
            Some(NodeRole::Leader(services)) => {
                &&& self.leader_id == self.id
                &&& services.sigverify_disabled == self.sigverify_disabled
                &&& services.tpu == services.broadcast_stage
                &&& services.tpu.bank == self.bank
                &&& services.tpu.leader_scheduler == self.leader_scheduler_option
            },
            Some(NodeRole::Validator(services)) => {
                &&& services.tvu.bank == self.bank
                &&& services.tvu.leader_scheduler == self.leader_scheduler_option
            },
            None => true,
        }
    }

    /// What a service that is started now gets.
    pub open spec fn start_at(&self, entry_height: u64) -> ServiceStart {
        ServiceStart {
            bank: self.bank,
            entry_height,
            leader_scheduler: self.leader_scheduler_option,
        }
    }

    /// The role of a leader from `entry_height` on.
    pub open spec fn leader_at(&self, entry_height: u64) -> NodeRole {
        NodeRole::Leader(
            LeaderServices {
                tpu: self.start_at(entry_height),
                sigverify_disabled: self.sigverify_disabled,
                broadcast_stage: self.start_at(entry_height),
            },
        )
    }

    /// The role of a validator from `entry_height` on.
    pub open spec fn validator_at(&self, entry_height: u64) -> NodeRole {
        NodeRole::Validator(ValidatorServices { tvu: self.start_at(entry_height) })
    }

    fn start_leader(&mut self, entry_height: u64)
        ensures
            *final(self) == (Fullnode {
                node_role: Some(old(self).leader_at(entry_height)),
                ..*old(self)
            }),
    {
        let start = ServiceStart {
            bank: self.bank,
            entry_height,
            leader_scheduler: self.leader_scheduler_option,
        };
        self.node_role =
        Some(
            NodeRole::Leader(
                LeaderServices {
                    tpu: start,
                    sigverify_disabled: self.sigverify_disabled,
                    broadcast_stage: start,
                },
            ),
        );
    }

    fn start_validator(&mut self, entry_height: u64)
        ensures
            *final(self) == (Fullnode {
                node_role: Some(old(self).validator_at(entry_height)),
                ..*old(self)
            }),
    {
        let start = ServiceStart {
            bank: self.bank,
            entry_height,
            leader_scheduler: self.leader_scheduler_option,
        };
        self.node_role = Some(NodeRole::Validator(ValidatorServices { tvu: start }));
    }

    /// Creates a node that acts as a leader or a validator, as `startup` decided, and that answers
    /// requests out of `bank`.
    pub fn new_with_bank(
        id: Pubkey,
        bank: BankId,
        entry_height: u64,
        startup: &Startup,
        sigverify_disabled: bool,
        leader_scheduler_option: Option<LeaderScheduler>,
    ) -> (r: Self)
        requires
            !startup.as_validator ==> startup.leader_id == id,
        ensures
            r.wf(),
            r.id == id,
            r.leader_id == startup.leader_id,
            r.bank == bank,
            r.rpu == Some(bank),
            r.leader_scheduler_option == leader_scheduler_option,
            r.sigverify_disabled == sigverify_disabled,
            !r.exit,
            r.node_role == Some(
                if startup.as_validator {
                    r.validator_at(entry_height)
                } else {
                    r.leader_at(entry_height)
                },
            ),
    {
        let mut node = Fullnode {
            node_role: None,
            leader_scheduler_option,
            id,
            leader_id: startup.leader_id,
            exit: false,
            rpu: Some(bank),
            bank,
            sigverify_disabled,
        };
        if startup.as_validator {
            node.start_validator(entry_height);
        } else {
            node.start_leader(entry_height);
        }
        node
    }

    /// Whether the services of the node's role have exited, given whether each kind has.
    pub fn check_role_exited(&self, tpu_exited: bool, tvu_exited: bool) -> (r: bool)
        ensures
            r == (match self.node_role {
                Some(NodeRole::Leader(_)) => tpu_exited,
                Some(NodeRole::Validator(_)) => tvu_exited,
                None => false,
            }),
    {
        match self.node_role {
            Some(NodeRole::Leader(_)) => tpu_exited,
            Some(NodeRole::Validator(_)) => tvu_exited,
            None => false,
        }
    }

    /// Begins a transition: the role is given up, and its services are to be waited for.
    pub fn take_role(&mut self) -> (r: Option<NodeRole>)
        ensures
            r == old(self).node_role,
            *final(self) == (Fullnode { node_role: None, ..*old(self) }),
            old(self).wf() ==> final(self).wf(),
    {
        let role = self.node_role;
        self.node_role = None;
        role
    }

    /// Goes on with a transition after the services of a leader ended. Where they ended for a
    /// rotation, the ledger is to be processed again under a fresh schedule, made from the
    /// configuration that is returned. Otherwise the node stays without a role.
    pub fn leader_joined(&mut self, returned: Option<TpuReturnType>) -> (r: Option<
        LeaderSchedulerConfig,
    >)
        requires
            returned is Some ==> old(self).leader_scheduler_option is Some,
        ensures
            returned is None ==> r is None && *final(self) == *old(self),
            returned is Some ==> *final(self) == (Fullnode {
                leader_scheduler_option: None,
                ..*old(self)
            }),
            returned is Some ==> {
                let scheduler = old(self).leader_scheduler_option->Some_0;
                r == Some(
                    LeaderSchedulerConfig {
                        bootstrap_leader: scheduler.bootstrap_leader,
                        bootstrap_height: Some(scheduler.bootstrap_height),
                        leader_rotation_interval: Some(scheduler.leader_rotation_interval),
                        seed_rotation_interval: Some(scheduler.seed_rotation_interval),
                        active_window_length: Some(scheduler.active_window_length),
                    },
                )
            },
    {
        match returned {
            Some(TpuReturnType::LeaderRotation) => {
                let config = match self.leader_scheduler_option {
                    Some(scheduler) => Some(scheduler.config()),
                    None => None,
                };
                self.leader_scheduler_option = None;
                config
            },
            None => None,
        }
    }

    /// Goes on with the transition from leader to validator after the ledger was processed again:
    /// the new bank, its schedule and the leader that it schedules take effect. Where requests are
    /// answered, that is to be closed, as it is done out of the old bank.
    pub fn bank_rebuilt(
        &mut self,
        bank: BankId,
        leader_scheduler: LeaderScheduler,
        scheduled_leader: Pubkey,
    ) -> (close_rpu: bool)
        requires
            old(self).node_role is None,
        ensures
            close_rpu == (old(self).rpu is Some),
            *final(self) == (Fullnode {
                bank,
                leader_scheduler_option: Some(leader_scheduler),
                leader_id: scheduled_leader,
                rpu: None,
                ..*old(self)
            }),
            final(self).wf(),
    {
        self.bank = bank;
        self.leader_scheduler_option = Some(leader_scheduler);
        self.leader_id = scheduled_leader;
        let close_rpu = self.rpu.is_some();
        self.rpu = None;
        close_rpu
    }

    /// Ends the transition from leader to validator. `closed` is how the answering of requests was
    /// closed, where it was; it begins again, out of the new bank, unless closing failed.
    pub fn leader_to_validator<E>(
        &mut self,
        entry_height: u64,
        closed: Option<Result<(), E>>,
    ) -> (r: Result<FullnodeReturnType, E>)
        requires
            old(self).wf(),
            old(self).node_role is None,
            old(self).rpu is None,
        ensures
            final(self).wf(),
            match closed {
                Some(Err(e)) => {
                    &&& r == Result::<FullnodeReturnType, E>::Err(e)
                    &&& *final(self) == *old(self)
                },
                _ => {
                    &&& r == Result::<FullnodeReturnType, E>::Ok(
                        FullnodeReturnType::LeaderToValidatorRotation,
                    )
                    &&& *final(self) == (Fullnode {
                        node_role: Some(old(self).validator_at(entry_height)),
                        rpu: if closed is Some {
                            Some(old(self).bank)
                        } else {
                            None
                        },
                        ..*old(self)
                    })
                },
            },
    {
        match closed {
            Some(Err(e)) => {
                return Err(e);
            },
            Some(Ok(_)) => {
                self.rpu = Some(self.bank);
            },
            None => {},
        }
        self.start_validator(entry_height);
        Ok(FullnodeReturnType::LeaderToValidatorRotation)
    }

    /// Ends a transition after the services of a validator ended. Where they ended for a rotation,
    /// the node leads from the given entry height on. Otherwise it stays without a role.
    pub fn validator_joined(&mut self, returned: Option<TvuReturnType>) -> (r: Option<
        FullnodeReturnType,
    >)
        requires
            old(self).wf(),
            old(self).node_role is None,
        ensures
            final(self).wf(),
            match returned {
                Some(TvuReturnType::LeaderRotation(entry_height)) => {
                    &&& r == Some(FullnodeReturnType::ValidatorToLeaderRotation)
                    &&& *final(self) == (Fullnode {
                        leader_id: old(self).id,
                        node_role: Some(old(self).leader_at(entry_height)),
                        ..*old(self)
                    })
                },
                None => r is None && *final(self) == *old(self),
            },
    {
        match returned {
            Some(TvuReturnType::LeaderRotation(entry_height)) => {
                self.validator_to_leader(entry_height);
                Some(FullnodeReturnType::ValidatorToLeaderRotation)
            },
            None => None,
        }
    }

    fn validator_to_leader(&mut self, entry_height: u64)
        ensures
            *final(self) == (Fullnode {
                leader_id: old(self).id,
                node_role: Some(old(self).leader_at(entry_height)),
                ..*old(self)
            }),
    {
        self.leader_id = self.id;
        self.start_leader(entry_height);
    }

    /// Tells the node to exit, and returns the services that are to be told so themselves.
    pub fn exit(&mut self) -> (r: Vec<Service>)
        ensures
            *final(self) == (Fullnode { exit: true, ..*old(self) }),
            r@ == (if old(self).rpu is Some {
                seq![Service::Rpu]
            } else {
                Seq::empty()
            }) + (match old(self).node_role {
                Some(NodeRole::Leader(_)) => seq![Service::Tpu],
                Some(NodeRole::Validator(_)) => seq![Service::Tvu],
                None => Seq::empty(),
            }),
    {
        self.exit = true;
        let mut services: Vec<Service> = Vec::new();
        if self.rpu.is_some() {
            services.push(Service::Rpu);
        }
        match self.node_role {
            Some(NodeRole::Leader(_)) => {
                services.push(Service::Tpu);
            },
            Some(NodeRole::Validator(_)) => {
                services.push(Service::Tvu);
            },
            None => {},
        }
        services
    }

    /// The services to wait for, in that order, when the node is shut down. A leader's broadcast
    /// stage is waited for before its transaction unit.
    pub fn join_order(&self) -> (r: Vec<Service>)
        ensures
            r@ == (if self.rpu is Some {
                seq![Service::Rpu]
            } else {
                Seq::empty()
            }) + seq![Service::Ncp, Service::Rpc] + (match self.node_role {
                Some(NodeRole::Leader(_)) => seq![Service::BroadcastStage, Service::Tpu],
                Some(NodeRole::Validator(_)) => seq![Service::Tvu],
                None => Seq::empty(),
            }),
    {
        let mut services: Vec<Service> = Vec::new();
        if self.rpu.is_some() {
            services.push(Service::Rpu);
        }
        services.push(Service::Ncp);
        services.push(Service::Rpc);
        match self.node_role {
            Some(NodeRole::Leader(_)) => {
                services.push(Service::BroadcastStage);
                services.push(Service::Tpu);
            },
            Some(NodeRole::Validator(_)) => {
                services.push(Service::Tvu);
            },
            None => {},
        }
        services
    }

    /// With what a node ends that was waited for, given what the services of its role returned.
    pub fn join(&self, tpu: Option<TpuReturnType>, tvu: Option<TvuReturnType>) -> (r: Option<
        FullnodeReturnType,
    >)
        ensures
            r == (match self.node_role {
                Some(NodeRole::Validator(_)) => if tvu is Some {
                    Some(FullnodeReturnType::ValidatorToLeaderRotation)
                } else {
                    None
                },
                Some(NodeRole::Leader(_)) => if tpu is Some {
                    Some(FullnodeReturnType::LeaderToValidatorRotation)
                } else {
                    None
                },
                None => None,
            }),
    {
        match self.node_role {
            Some(NodeRole::Validator(_)) => {
                if let Some(TvuReturnType::LeaderRotation(_)) = tvu {
                    return Some(FullnodeReturnType::ValidatorToLeaderRotation);
                }
            },
            Some(NodeRole::Leader(_)) => {
                if let Some(TpuReturnType::LeaderRotation) = tpu {
                    return Some(FullnodeReturnType::LeaderToValidatorRotation);
                }
            },
            None => {},
        }
        None
    }
}

/// A node that leads, and whose services end for a rotation, is a validator after its transition.
/// It then follows the leader that its new bank schedules, and answers requests out of the new bank
/// as it did out of the old one. With the next rotation it leads again, out of that same bank, and
/// takes itself for the leader.
pub proof fn law_rotation_and_back(
    leader: Fullnode,
    bank: BankId,
    scheduler: LeaderScheduler,
    scheduled_leader: Pubkey,
    validator: Fullnode,
    entry_height: u64,
    again: Fullnode,
    next_height: u64,
)
    requires
        leader.wf(),
        leader.node_role is Some,
        leader.node_role->Some_0 is Leader,
        validator == (Fullnode {
            bank,
            leader_scheduler_option: Some(scheduler),
            leader_id: scheduled_leader,
            rpu: if leader.rpu is Some {
                Some(bank)
            } else {
                None
            },
            node_role: validator.node_role,
            ..leader
        }),
        validator.node_role == Some(validator.validator_at(entry_height)),
        again == (Fullnode {
            leader_id: validator.id,
            node_role: Some(validator.leader_at(next_height)),
            ..validator
        }),
    ensures
        validator.wf(),
        validator.leader_id == scheduled_leader,
        validator.rpu is Some <==> leader.rpu is Some,
        again.wf(),
        again.leader_id == leader.id,
        again.node_role->Some_0 is Leader,
        again.node_role->Some_0->Leader_0.tpu.bank == bank,
        again.id == leader.id,
        again.rpu == validator.rpu,
{
}

/// A node without somebody to follow leads, takes itself for the leader, and its services begin at the
/// height of its ledger; with somebody to follow it is a validator that advertises whom it was told.
pub proof fn law_a_node_starts_in_its_role(
    id: Pubkey,
    advertised: Pubkey,
    tpu_addr: SocketAddress,
    has_leader_info: bool,
    rpc_port: Option<u16>,
    default_rpc_port: u16,
    drone_port: u16,
    startup: Startup,
    bank: BankId,
    entry_height: u64,
    sigverify_disabled: bool,
    scheduler: Option<LeaderScheduler>,
    node: Fullnode,
)
    requires
        call_ensures(
            plan_startup,
            (
                id,
                advertised,
                tpu_addr,
                has_leader_info,
                rpc_port,
                default_rpc_port,
                drone_port,
            ),
            startup,
        ),
        call_ensures(
            Fullnode::new_with_bank,
            (id, bank, entry_height, &startup, sigverify_disabled, scheduler),
            node,
        ),
    ensures
        node.id == id,
        node.bank == bank,
        node.rpu == Some(bank),
        !node.exit,
        !has_leader_info ==> {
            &&& node.leader_id == id
            &&& node.node_role matches Some(NodeRole::Leader(services))
            &&& services.tpu.entry_height == entry_height
            &&& services.tpu.bank == bank
            &&& services.tpu.leader_scheduler == scheduler
            &&& services.broadcast_stage == services.tpu
            &&& services.sigverify_disabled == sigverify_disabled
        },
        has_leader_info ==> {
            &&& node.leader_id == advertised
            &&& node.node_role matches Some(NodeRole::Validator(services))
            &&& services.tvu.entry_height == entry_height
            &&& services.tvu.bank == bank
            &&& services.tvu.leader_scheduler == scheduler
        },
        startup.drone_addr.ip == tpu_addr.ip,
        startup.drone_addr.port == drone_port,
        rpc_port matches Some(port) ==> startup.rpc_addr.port == port,
        rpc_port is None ==> startup.rpc_addr.port == default_rpc_port,
{
}

/// A leader whose services end for a rotation becomes a validator: it follows the leader that the
/// ledger now schedules, under the same schedule's configuration, and serves the new bank, requests
/// as well if it answered any before.
pub proof fn law_a_leader_becomes_a_validator(
    node: &mut Fullnode,
    taken: Option<NodeRole>,
    joined: &mut Fullnode,
    config: Option<LeaderSchedulerConfig>,
    rebuilt: &mut Fullnode,
    bank: BankId,
    scheduler: LeaderScheduler,
    scheduled_leader: Pubkey,
    close_rpu: bool,
    last: &mut Fullnode,
    entry_height: u64,
    r: Result<FullnodeReturnType, String>,
)
    requires
        call_ensures(Fullnode::take_role, (node,), taken),
        *old(joined) == *final(node),
        old(joined).leader_scheduler_option is Some,
        call_ensures(Fullnode::leader_joined, (joined, Some(TpuReturnType::LeaderRotation)), config),
        *old(rebuilt) == *final(joined),
        call_ensures(
            Fullnode::bank_rebuilt,
            (rebuilt, bank, scheduler, scheduled_leader),
            close_rpu,
        ),
        *old(last) == *final(rebuilt),
        call_ensures(
            Fullnode::leader_to_validator::<String>,
            (
                last,
                entry_height,
                if close_rpu {
                    Some(Ok::<(), String>(()))
                } else {
                    None
                },
            ),
            r,
        ),
    ensures
        taken == old(node).node_role,
        config matches Some(c) && c.bootstrap_leader == old(
            node,
        ).leader_scheduler_option->Some_0.bootstrap_leader,
        r == Result::<FullnodeReturnType, String>::Ok(
            FullnodeReturnType::LeaderToValidatorRotation,
        ),
        final(last).node_role matches Some(NodeRole::Validator(services)) && services.tvu.bank
            == bank && services.tvu.entry_height == entry_height && services.tvu.leader_scheduler
            == Some(scheduler),
        final(last).leader_id == scheduled_leader,
        final(last).id == old(node).id,
        final(last).bank == bank,
        old(node).rpu is Some ==> final(last).rpu == Some(bank),
        old(node).rpu is None ==> final(last).rpu is None,
        final(last).exit == old(node).exit,
{
}

/// A validator whose services end for a rotation leads, on the bank that it has, from the height that
/// its services came to, and takes itself for the leader. One whose services just end has no role.
pub proof fn law_a_validator_becomes_a_leader(
    node: &mut Fullnode,
    returned: Option<TvuReturnType>,
    r: Option<FullnodeReturnType>,
)
    requires
        call_ensures(Fullnode::validator_joined, (node, returned), r),
    ensures
        r is Some <==> returned is Some,
        returned is None ==> *final(node) == *old(node),
        returned matches Some(TvuReturnType::LeaderRotation(height)) ==> {
            &&& r == Some(FullnodeReturnType::ValidatorToLeaderRotation)
            &&& final(node).leader_id == old(node).id
            &&& final(node).id == old(node).id
            &&& final(node).bank == old(node).bank
            &&& final(node).rpu == old(node).rpu
            &&& final(node).node_role matches Some(NodeRole::Leader(services))
            &&& services.tpu.entry_height == height
            &&& services.tpu.bank == old(node).bank
            &&& services.broadcast_stage.entry_height == height
        },
{
}

/// Every service that a node is told to end by is one that is waited for, and all that run are.
pub proof fn law_services_that_exit_are_joined(
    node: &mut Fullnode,
    told: Vec<Service>,
    joined: Vec<Service>,
    service: Service,
)
    requires
        call_ensures(Fullnode::exit, (node,), told),
        call_ensures(Fullnode::join_order, (&*final(node),), joined),
    ensures
        final(node).exit,
        final(node).node_role == old(node).node_role,
        told@.contains(service) ==> joined@.contains(service),
        joined@.contains(Service::Ncp),
        joined@.contains(Service::Rpc),
        joined@.contains(Service::Rpu) <==> old(node).rpu is Some,
        joined@.contains(Service::Tpu) <==> old(node).node_role matches Some(NodeRole::Leader(_)),
        joined@.contains(Service::BroadcastStage) <==> old(node).node_role matches Some(
            NodeRole::Leader(_),
        ),
        joined@.contains(Service::Tvu) <==> old(node).node_role matches Some(
            NodeRole::Validator(_),
        ),
        told@.contains(Service::Rpu) <==> old(node).rpu is Some,
{
    let rpu: Seq<Service> = if old(node).rpu is Some {
        seq![Service::Rpu]
    } else {
        Seq::empty()
    };
    let shared = seq![Service::Ncp, Service::Rpc];
    let n = rpu.len() as int;
    assert(joined@[n] == Service::Ncp);
    assert(joined@[n + 1] == Service::Rpc);
    if old(node).rpu is Some {
        assert(joined@[0] == Service::Rpu);
        assert(told@[0] == Service::Rpu);
    }
    match old(node).node_role {
        Some(NodeRole::Leader(_)) => {
            assert(joined@[n + 2] == Service::BroadcastStage);
            assert(joined@[n + 3] == Service::Tpu);
        },
        Some(NodeRole::Validator(_)) => {
            assert(joined@[n + 2] == Service::Tvu);
        },
        None => {},
    }
}

/// A node has ended for a rotation just when the services of the role that it has did.
pub proof fn law_a_node_ends_with_its_role(
    node: &Fullnode,
    tpu: Option<TpuReturnType>,
    tvu: Option<TvuReturnType>,
    r: Option<FullnodeReturnType>,
    tpu_exited: bool,
    tvu_exited: bool,
    exited: bool,
)
    requires
        call_ensures(Fullnode::join, (node, tpu, tvu), r),
        call_ensures(Fullnode::check_role_exited, (node, tpu_exited, tvu_exited), exited),
    ensures
        node.node_role matches Some(NodeRole::Leader(_)) ==> {
            &&& r is Some <==> tpu is Some
            &&& r is Some ==> r == Some(FullnodeReturnType::LeaderToValidatorRotation)
            &&& exited == tpu_exited
        },
        node.node_role matches Some(NodeRole::Validator(_)) ==> {
            &&& r is Some <==> tvu is Some
            &&& r is Some ==> r == Some(FullnodeReturnType::ValidatorToLeaderRotation)
            &&& exited == tvu_exited
        },
        node.node_role is None ==> r is None && !exited,
{
}

} // verus!
