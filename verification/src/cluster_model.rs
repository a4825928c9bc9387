//! The entities of a cluster: nodes, workers, jobs, tasks and their states.
use std::collections::HashMap;
use vstd::prelude::*;

verus! {

/// Identifier of a cluster.
pub type ClusterId = String;

/// Identifier of a node (a host) of the cluster.
pub type NodeId = String;

/// Identifier of a worker process on a node.
pub type WorkerId = String;

/// Identifier of a device within a node.
pub type DeviceId = String;

/// Identifier of a job.
pub type JobId = String;

/// Identifier of a task definition.
pub type TaskDefinitionId = String;

/// State of a node.
#[derive(Debug, Clone, Copy, PartialEq, Eq, Hash, Structural)]
pub enum NodeStatus {
    Pending,
    Initializing,
    Running,
    Healthy,
    Unhealthy,
    Unreachable,
    Stopped,
    Error,
}

/// State of a cluster.
#[derive(Debug, Clone, Copy, PartialEq, Eq, Hash, Structural)]
pub enum ClusterStatus {
    Initializing,
    Active,
    Degraded,
    Inactive,
    Error,
}

/// State of a worker.
#[derive(Debug, Clone, Copy, PartialEq, Eq, Hash, Structural)]
pub enum WorkerStatus {
    Pending,
    Starting,
    Running,
    Completed,
    Failed,
    Stopped,
    Lost,
}

/// State of a job.
#[derive(Debug, Clone, Copy, PartialEq, Eq, Hash, Structural)]
pub enum JobStatus {
    Pending,
    Submitted,
    Running,
    Succeeded,
    Failed,
    Stopped,
    Cancelled,
}

/// State of one execution of a task.
#[derive(Debug, Clone, Copy, PartialEq, Eq, Hash, Structural)]
pub enum TaskExecutionStatus {
    Pending,
    Running,
    Succeeded,
    Failed,
    Skipped,
}

/// The framework that manages a cluster.
#[derive(Debug, Clone, PartialEq, Eq, Hash)]
pub enum ClusterFrameworkType {
    TorchRun,
    Ray,
    Kubernetes,
    Slurm,
    /// A single node, or nodes that no framework manages.
    Standalone,
    Custom(String),
}

/// An accelerator or other device of a node.
#[derive(Debug, Clone)]
pub struct Device {
    /// Unique within the node, such as `GPU-0`.
    pub id: DeviceId,
    /// Such as `GPU`, `TPU` or `FPGA`.
    pub device_type: String,
    pub model_name: Option<String>,
    pub total_memory_bytes: Option<u64>,
    /// The node the device belongs to.
    pub node_id: NodeId,
}

/// The definition of a repeatable task of a job.
#[derive(Debug, Clone)]
pub struct Task {
    pub id: TaskDefinitionId,
    pub job_id: JobId,
    /// Such as `training_step`.
    pub name: String,
    pub description: Option<String>,
    pub metadata: Option<HashMap<String, String>>,
}

/// The name of a node state, as it is written in an index key.
pub open spec fn node_status_name(s: NodeStatus) -> Seq<char> {
    match s {
        NodeStatus::Pending => "Pending"@,
        NodeStatus::Initializing => "Initializing"@,
        NodeStatus::Running => "Running"@,
        NodeStatus::Healthy => "Healthy"@,
        NodeStatus::Unhealthy => "Unhealthy"@,
        NodeStatus::Unreachable => "Unreachable"@,
        NodeStatus::Stopped => "Stopped"@,
        NodeStatus::Error => "Error"@,
    }
}

/// The name of a worker state, as it is written in an index key.
pub open spec fn worker_status_name(s: WorkerStatus) -> Seq<char> {
    match s {
        WorkerStatus::Pending => "Pending"@,
        WorkerStatus::Starting => "Starting"@,
        WorkerStatus::Running => "Running"@,
        WorkerStatus::Completed => "Completed"@,
        WorkerStatus::Failed => "Failed"@,
        WorkerStatus::Stopped => "Stopped"@,
        WorkerStatus::Lost => "Lost"@,
    }
}

/// The name of a job state, as it is written in an index key.
pub open spec fn job_status_name(s: JobStatus) -> Seq<char> {
    match s {
        JobStatus::Pending => "Pending"@,
        JobStatus::Submitted => "Submitted"@,
        JobStatus::Running => "Running"@,
        JobStatus::Succeeded => "Succeeded"@,
        JobStatus::Failed => "Failed"@,
        JobStatus::Stopped => "Stopped"@,
        JobStatus::Cancelled => "Cancelled"@,
    }
}

/// The name of a task execution state, as it is written in an index key.
pub open spec fn execution_status_name(s: TaskExecutionStatus) -> Seq<char> {
    match s {
        TaskExecutionStatus::Pending => "Pending"@,
        TaskExecutionStatus::Running => "Running"@,
        TaskExecutionStatus::Succeeded => "Succeeded"@,
        TaskExecutionStatus::Failed => "Failed"@,
        TaskExecutionStatus::Skipped => "Skipped"@,
    }
}

impl NodeStatus {
    /// The name of the state.
    pub fn name(&self) -> (r: &'static str)
        ensures
            r@ == node_status_name(*self),
    {
        match self {
            NodeStatus::Pending => "Pending",
            NodeStatus::Initializing => "Initializing",
            NodeStatus::Running => "Running",
            NodeStatus::Healthy => "Healthy",
            NodeStatus::Unhealthy => "Unhealthy",
            NodeStatus::Unreachable => "Unreachable",
            NodeStatus::Stopped => "Stopped",
            NodeStatus::Error => "Error",
        }
    }
}

impl WorkerStatus {
    /// The name of the state.
    pub fn name(&self) -> (r: &'static str)
        ensures
            r@ == worker_status_name(*self),
    {
        match self {
            WorkerStatus::Pending => "Pending",
            WorkerStatus::Starting => "Starting",
            WorkerStatus::Running => "Running",
            WorkerStatus::Completed => "Completed",
            WorkerStatus::Failed => "Failed",
            WorkerStatus::Stopped => "Stopped",
            WorkerStatus::Lost => "Lost",
        }
    }
}

impl JobStatus {
    /// The name of the state.
    pub fn name(&self) -> (r: &'static str)
        ensures
            r@ == job_status_name(*self),
    {
        match self {
            JobStatus::Pending => "Pending",
            JobStatus::Submitted => "Submitted",
            JobStatus::Running => "Running",
            JobStatus::Succeeded => "Succeeded",
            JobStatus::Failed => "Failed",
            JobStatus::Stopped => "Stopped",
            JobStatus::Cancelled => "Cancelled",
        }
    }
}

impl TaskExecutionStatus {
    /// The name of the state.
    pub fn name(&self) -> (r: &'static str)
        ensures
            r@ == execution_status_name(*self),
    {
        match self {
            TaskExecutionStatus::Pending => "Pending",
            TaskExecutionStatus::Running => "Running",
            TaskExecutionStatus::Succeeded => "Succeeded",
            TaskExecutionStatus::Failed => "Failed",
            TaskExecutionStatus::Skipped => "Skipped",
        }
    }
}

/// The texts of a list of index keys, each a pair of index name and key.
pub open spec fn key_texts(v: Seq<(String, String)>) -> Seq<(Seq<char>, Seq<char>)> {
    v.map_values(|p: (String, String)| (p.0@, p.1@))
}

/// The index keys of a node: its cluster and its state.
pub fn node_index_keys(cluster_id: &ClusterId, status: NodeStatus) -> (r: Vec<(String, String)>)
    ensures
        key_texts(r@) == seq![("cluster_id"@, cluster_id@), ("status"@, node_status_name(status))],
{
    let r = vec![
        (String::from_str("cluster_id"), cluster_id.clone()),
        (String::from_str("status"), String::from_str(status.name())),
    ];
    assert(key_texts(r@) =~= seq![("cluster_id"@, cluster_id@), ("status"@, node_status_name(status))]);
    r
}

/// The index keys of a worker: its node and its state.
pub fn worker_index_keys(node_id: &NodeId, status: WorkerStatus) -> (r: Vec<(String, String)>)
    ensures
        key_texts(r@) == seq![("node_id"@, node_id@), ("status"@, worker_status_name(status))],
{
    let r = vec![
        (String::from_str("node_id"), node_id.clone()),
        (String::from_str("status"), String::from_str(status.name())),
    ];
    assert(key_texts(r@) =~= seq![("node_id"@, node_id@), ("status"@, worker_status_name(status))]);
    r
}

/// The index keys of a job: its cluster and its state.
pub fn job_index_keys(cluster_id: &ClusterId, status: JobStatus) -> (r: Vec<(String, String)>)
    ensures
        key_texts(r@) == seq![("cluster_id"@, cluster_id@), ("status"@, job_status_name(status))],
{
    let r = vec![
        (String::from_str("cluster_id"), cluster_id.clone()),
        (String::from_str("status"), String::from_str(status.name())),
    ];
    assert(key_texts(r@) =~= seq![("cluster_id"@, cluster_id@), ("status"@, job_status_name(status))]);
    r
}

/// The index keys of a task execution: its job, its task definition and its state.
pub fn execution_index_keys(
    job_id: &JobId,
    task_definition_id: &TaskDefinitionId,
    status: TaskExecutionStatus,
) -> (r: Vec<(String, String)>)
    ensures
        key_texts(r@) == seq![
            ("job_id"@, job_id@),
            ("task_definition_id"@, task_definition_id@),
            ("status"@, execution_status_name(status)),
        ],
{
    let r = vec![
        (String::from_str("job_id"), job_id.clone()),
        (String::from_str("task_definition_id"), task_definition_id.clone()),
        (String::from_str("status"), String::from_str(status.name())),
    ];
    assert(key_texts(r@) =~= seq![
        ("job_id"@, job_id@),
        ("task_definition_id"@, task_definition_id@),
        ("status"@, execution_status_name(status)),
    ]);
    r
}

impl Task {
    /// The name under which task definitions are stored.
    pub fn entity_type() -> (r: &'static str)
        ensures
            r@ == "task_definition"@,
    {
        "task_definition"
    }

    /// The index keys of a task definition: its job.
    pub fn index_keys(&self) -> (r: Vec<(String, String)>)
        ensures
            key_texts(r@) == seq![("job_id"@, self.job_id@)],
    {
        let r = vec![(String::from_str("job_id"), self.job_id.clone())];
        assert(key_texts(r@) =~= seq![("job_id"@, self.job_id@)]);
        r
    }
}

/// Distinct node states have distinct names, so no two of them share an
/// index key.
pub proof fn law_node_status_names_differ(a: NodeStatus, b: NodeStatus)
    ensures
        node_status_name(a) == node_status_name(b) ==> a == b,
{
    reveal_strlit("Pending");
    reveal_strlit("Initializing");
    reveal_strlit("Running");
    reveal_strlit("Healthy");
    reveal_strlit("Unhealthy");
    reveal_strlit("Unreachable");
    reveal_strlit("Stopped");
    reveal_strlit("Error");
    let (x, y) = (node_status_name(a), node_status_name(b));
    if x == y {
        assert(x.len() == y.len() && x[0] == y[0] && x[2] == y[2]);
    }
}

/// Distinct worker states have distinct names, so no two of them share an
/// index key.
pub proof fn law_worker_status_names_differ(a: WorkerStatus, b: WorkerStatus)
    ensures
        worker_status_name(a) == worker_status_name(b) ==> a == b,
{
    reveal_strlit("Pending");
    reveal_strlit("Starting");
    reveal_strlit("Running");
    reveal_strlit("Completed");
    reveal_strlit("Failed");
    reveal_strlit("Stopped");
    reveal_strlit("Lost");
    let (x, y) = (worker_status_name(a), worker_status_name(b));
    if x == y {
        assert(x.len() == y.len() && x[0] == y[0] && x[2] == y[2]);
    }
}

/// Distinct job states have distinct names, so no two of them share an
/// index key.
pub proof fn law_job_status_names_differ(a: JobStatus, b: JobStatus)
    ensures
        job_status_name(a) == job_status_name(b) ==> a == b,
{
    reveal_strlit("Pending");
    reveal_strlit("Submitted");
    reveal_strlit("Running");
    reveal_strlit("Succeeded");
    reveal_strlit("Failed");
    reveal_strlit("Stopped");
    reveal_strlit("Cancelled");
    let (x, y) = (job_status_name(a), job_status_name(b));
    if x == y {
        assert(x.len() == y.len() && x[0] == y[0] && x[2] == y[2]);
    }
}

/// Distinct task execution states have distinct names, so no two of them share an
/// index key.
pub proof fn law_execution_status_names_differ(a: TaskExecutionStatus, b: TaskExecutionStatus)
    ensures
        execution_status_name(a) == execution_status_name(b) ==> a == b,
{
    reveal_strlit("Pending");
    reveal_strlit("Running");
    reveal_strlit("Succeeded");
    reveal_strlit("Failed");
    reveal_strlit("Skipped");
    let (x, y) = (execution_status_name(a), execution_status_name(b));
    if x == y {
        assert(x.len() == y.len() && x[0] == y[0] && x[2] == y[2]);
    }
}

} // verus!
