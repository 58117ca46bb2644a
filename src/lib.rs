//! A deterministic, discrete-event network simulator for exercising consensus
//! protocol implementations, together with the message and deploy value types
//! that the node exchanges.

pub mod network;
pub mod queue;
pub mod schedule;
pub mod harness;
pub mod bytesrepr;
pub mod crypto;
pub mod hex;
pub mod contract_messages;
pub mod contract_runtime;
pub mod deploy;
pub mod deploy_info;
