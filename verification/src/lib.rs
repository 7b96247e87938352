//! Transaction scheduling, ledger bookkeeping and stage logic of a validator.

pub mod bank_metrics;
pub mod bidirectional_channel_handler;
pub mod blocktree_db;
pub mod bpf_tracer_plugin_interface;
pub mod bytes;
pub mod collections;
pub mod compute_budget_processor;
pub mod fee_payer;
pub mod fullnode;
pub mod network_tool;
pub mod programs;
pub mod quic_client;
pub mod rpc_slot_services;
pub mod scheduler;
pub mod scheduler_pool;
pub mod signers;
pub mod sigverify_stage;
pub mod storage_stage;
pub mod text;
pub mod transaction_scheduler;
pub mod types;
pub mod vote_signer_proxy;
pub mod wen_restart;
pub mod zk_keygen;
