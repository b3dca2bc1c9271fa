//! The deciding half of a replicated key-value store.
//!
//! Sockets, the consensus log and the store on disk live outside this crate. What is here is
//! what they are told to do: how a command becomes writes, what a decided log entry changes,
//! when the cluster is reconfigured, where a message goes, and what a typed line means.

pub mod actor;
pub mod command;
pub mod config;
pub mod database;
pub mod kv;
pub mod network;
pub mod replication;
pub mod server;
pub mod store;
pub mod text;
pub mod transfer;
