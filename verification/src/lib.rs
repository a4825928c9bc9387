//! A verified core for a distributed profiler: object addressing over a cluster
//! topology, span tracing, stack merging for flame graphs, process trees and the
//! small protocols around them.
use vstd::prelude::*;

pub mod addressing;
pub mod cli;
pub mod clock;
pub mod cluster_model;
pub mod dpp;
pub mod engine_plugins;
pub mod error;
pub mod extension;
pub mod inject;
pub mod keyed;
pub mod monitor;
pub mod plugins;
pub mod pprof;
pub mod ptree;
pub mod stack_trie;
pub mod storage;
pub mod tcpstore;
pub mod text;
pub mod trace;
pub mod tracing;
pub mod topology;

verus! {
} // verus!
