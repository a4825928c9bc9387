//! Data sources of the engine: the kinds of plugin, the process statistics
//! schema, and the worker that samples task statistics.
use vstd::prelude::*;

use crate::clock::{duration_from_nanos, duration_of_nanos};

verus! {

/// How a plugin adds data to the engine.
#[derive(Debug, Clone, Copy, PartialEq, Eq, Structural)]
pub enum PluginType {
    /// One table of fixed columns, reachable as `category.name`.
    Table,
    /// A schema of tables, reachable as `category.table_name`.
    Schema,
}

/// The schema of process statistics.
#[derive(Debug, Default, Clone, Copy)]
pub struct TaskStatsSchema {}

impl TaskStatsSchema {
    /// The name the schema is registered under.
    pub fn name() -> (r: &'static str)
        ensures
            r@ == "process"@,
    {
        "process"
    }

    /// The tables of the schema: `cpu`, `memory` and `io`.
    pub fn list() -> (r: Vec<String>)
        ensures
            r.deep_view() == seq!["cpu"@, "memory"@, "io"@],
    {
        let r = vec![String::from_str("cpu"), String::from_str("memory"), String::from_str("io")];
        assert(r.deep_view() =~= seq!["cpu"@, "memory"@, "io"@]);
        r
    }
}

/// One second, the default sampling interval.
pub const ONE_SECOND_NANOS: u64 = 1_000_000_000;

/// How the statistics worker samples: how long it waits between samples, and
/// how many samples it takes at most, with no limit where none is given.
pub struct WorkerConfig {
    pub interval: std::time::Duration,
    pub iterations: Option<i64>,
}

impl WorkerConfig {
    /// A sample every second, without limit.
    pub fn default() -> (r: WorkerConfig)
        ensures
            r.interval == duration_of_nanos(ONE_SECOND_NANOS),
            r.iterations is None,
    {
        WorkerConfig { interval: duration_from_nanos(ONE_SECOND_NANOS), iterations: None }
    }
}

/// Why the statistics worker failed. Failures of the kernel's task statistics
/// interface are carried by their message.
#[derive(Debug, Clone, PartialEq, Eq)]
pub enum WorkerError {
    AlreadyRunning,
    StartError(String),
    StopError(String),
    TaskStatsError(String),
}

/// The outcome of starting the worker, given whether it was already running
/// when the start was asked for.
pub fn start_outcome(was_running: bool) -> (r: Result<(), WorkerError>)
    ensures
        was_running ==> r == Err::<(), WorkerError>(WorkerError::AlreadyRunning),
        !was_running ==> r is Ok,
{
    if was_running {
        Err(WorkerError::AlreadyRunning)
    } else {
        Ok(())
    }
}

/// Whether the worker takes another sample, given how many it may still
/// take; counts the sample taken. Without a limit it always does; with one it
/// does while the count is above zero.
pub fn take_sample(remaining: &mut Option<i64>) -> (r: bool)
    ensures
        match *old(remaining) {
            None => r && *final(remaining) == None::<i64>,
            Some(n) => if n <= 0 {
                !r && *final(remaining) == Some(n)
            } else {
                r && *final(remaining) == Some((n - 1) as i64)
            },
        },
{
    match remaining {
        None => true,
        Some(n) => {
            if *n <= 0 {
                false
            } else {
                *n = *n - 1;
                true
            }
        },
    }
}

/// The key a plugin is registered under: `probe.category` for a schema,
/// `probe.category.name` for a table.
pub open spec fn plugin_key_spec(kind: PluginType, category: Seq<char>, name: Seq<char>) -> Seq<char> {
    match kind {
        PluginType::Schema => "probe."@ + category,
        PluginType::Table => "probe."@ + category + "."@ + name,
    }
}

/// The key a plugin is registered under.
pub fn plugin_key(kind: PluginType, category: &str, name: &str) -> (r: String)
    ensures
        r@ == plugin_key_spec(kind, category@, name@),
{
    let mut k = String::from_str("probe.");
    k.append(category);
    match kind {
        PluginType::Schema => {},
        PluginType::Table => {
            k.append(".");
            k.append(name);
        },
    }
    k
}

} // verus!
