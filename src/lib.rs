//! Certificate core of a tunnelling gateway: a store of per-tenancy
//! certificates with a reverse domain index, a registry of live ACME
//! challenges, and the decisions of the provisioning loop.

pub mod challenge;
pub mod config;
pub mod error;
pub mod manager;
pub mod store;
