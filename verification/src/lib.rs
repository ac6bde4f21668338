//! The decision logic of a local development orchestrator.

pub mod action;
pub mod actor;
pub mod ca;
pub mod cli;
pub mod daemon;
pub mod daemon_log;
pub mod dns;
pub mod docker;
pub mod downloads;
pub mod effects;
pub mod hosts_file;
pub mod lines;
pub mod number;
pub mod paths;
pub mod persistence;
pub mod proxy;
pub mod query;
pub mod raw_net;
pub mod reducer;
pub mod resolver;
pub mod runs;
pub mod same;
pub mod seqs;
pub mod sidecar;
pub mod state;
pub mod strmap;
pub mod text;
pub mod workspace;
