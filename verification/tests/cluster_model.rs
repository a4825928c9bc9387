use probing::cluster_model::{
    execution_index_keys, job_index_keys, node_index_keys, worker_index_keys, ClusterFrameworkType, JobStatus,
    NodeStatus, Task, TaskExecutionStatus, WorkerStatus,
};
use probing::trace::{add_attr, begin_span, current_span, end_span, end_span_with_status, list_spans, TraceError};
use probing::tracing::{Ele, LocalSpanManager, SpanStatus};

fn pair(a: &str, b: &str) -> (String, String) {
    (a.to_string(), b.to_string())
}

#[test]
fn index_keys_name_the_state() {
    assert_eq!(
        node_index_keys(&"c1".to_string(), NodeStatus::Unreachable),
        vec![pair("cluster_id", "c1"), pair("status", "Unreachable")]
    );
    assert_eq!(
        worker_index_keys(&"n1".to_string(), WorkerStatus::Lost),
        vec![pair("node_id", "n1"), pair("status", "Lost")]
    );
    assert_eq!(
        job_index_keys(&"c1".to_string(), JobStatus::Cancelled),
        vec![pair("cluster_id", "c1"), pair("status", "Cancelled")]
    );
    assert_eq!(
        execution_index_keys(&"j".to_string(), &"t".to_string(), TaskExecutionStatus::Skipped),
        vec![pair("job_id", "j"), pair("task_definition_id", "t"), pair("status", "Skipped")]
    );
    assert_eq!(format!("{:?}", NodeStatus::Healthy), NodeStatus::Healthy.name());
}

#[test]
fn tasks_are_indexed_by_job() {
    let t = Task { id: "t1".to_string(), job_id: "j9".to_string(), name: "step".to_string(), description: None, metadata: None };
    assert_eq!(t.index_keys(), vec![pair("job_id", "j9")]);
    assert_eq!(Task::entity_type(), "task_definition");
    assert_eq!(ClusterFrameworkType::Custom("x".to_string()), ClusterFrameworkType::Custom("x".to_string()));
}

#[test]
fn tracing_calls_work_on_the_thread_tracer() {
    let mut tracer = LocalSpanManager::with_sequences(1, 0, 0);
    let (id, _) = begin_span(&mut tracer, "outer", None, None, None).unwrap();
    add_attr(&mut tracer, "k", Ele::I64(3)).unwrap();
    assert_eq!(current_span(&tracer).unwrap().unwrap().span_id, id);
    begin_span(&mut tracer, "inner", None, None, None).unwrap();
    assert_eq!(list_spans(&tracer).unwrap().len(), 2);
    end_span_with_status(&mut tracer, SpanStatus::Error(None)).unwrap();
    end_span(&mut tracer).unwrap();
    assert!(current_span(&tracer).unwrap().is_none());
    assert_eq!(tracer.get_span(id).unwrap().status, SpanStatus::Close);
    assert_eq!(TraceError::LockPoisoned, TraceError::LockPoisoned);
}
