use probing::tracing::{
    attr, Ele, LocalSpanManager, Location, SpanStatus, Timestamp, MAX_TRACE_SEQ, TRACE_ID_PREFIX_SHIFT,
};

fn setup_tracer() -> LocalSpanManager {
    LocalSpanManager::with_sequences(0, 0, 0)
}

fn text(s: &str) -> Ele {
    Ele::Text(s.to_string())
}

#[test]
fn test_start_root_span_example() {
    let mut tracer = setup_tracer();
    let tracer_id_for_assertion = tracer.tracer_id();

    let (span_id, trace_id) = tracer.start_span(
        "process_incoming_request",
        Some("server_op"),
        Some("my_app::request_handler"),
        None,
    );

    assert_eq!(tracer.span_stack().len(), 1, "A new span should be on the stack");
    assert_eq!(tracer.active_id(), Some(span_id), "The new span should be active");

    let span = tracer.get_span(span_id).expect("Span not found in tracer");
    assert_eq!(span.name, "process_incoming_request");
    assert_eq!(span.kind, Some("server_op".to_string()));
    assert_eq!(span.parent_span_id, None, "Root span has no parent");
    assert_eq!(span.status, SpanStatus::Running, "New span should be running");
    match &span.location {
        Some(Location::UnknownLocation(path)) => assert_eq!(path, "my_app::request_handler"),
        _ => panic!("Expected UnknownLocation with the specified code_path"),
    }

    let expected_trace_id_val = ((tracer_id_for_assertion as u128) << TRACE_ID_PREFIX_SHIFT) | 0;
    assert_eq!(trace_id.0, expected_trace_id_val, "Trace ID mismatch for root span");

    tracer.end_span(SpanStatus::Close);
}

#[test]
fn test_start_child_span_example() {
    let mut tracer = setup_tracer();
    let (root_span_id, root_trace_id) = tracer.start_span("root_operation", None, None, None);

    let (child_span_id, child_trace_id) = tracer.start_span(
        "database_query",
        Some("db_client"),
        Some("my_app::db_service::query"),
        Some(vec![attr("db.statement", text("SELECT * FROM users"))]),
    );

    assert_eq!(tracer.span_stack().len(), 2, "Root and child spans should be on stack");
    assert_eq!(tracer.active_id(), Some(child_span_id), "Child span should be active");

    let child_span = tracer.get_span(child_span_id).expect("Child span not found");
    assert_eq!(child_span.name, "database_query");
    assert_eq!(
        child_span.parent_span_id,
        Some(root_span_id),
        "Child's parent should be the root span"
    );
    assert_eq!(child_span.status, SpanStatus::Running);
    assert_eq!(
        child_trace_id, root_trace_id,
        "Child span must share the same TraceId as its root"
    );
    assert_eq!(child_span.attributes.as_ref().unwrap().len(), 1);
    assert_eq!(
        child_span.attributes.as_ref().unwrap()[0],
        attr("db.statement", text("SELECT * FROM users"))
    );

    let root_span_after_child_start = tracer.get_span(root_span_id).expect("Root span not found");
    assert_eq!(
        root_span_after_child_start.status,
        SpanStatus::Open,
        "Root span should be 'Open' as child is 'Running'"
    );

    tracer.end_span(SpanStatus::Close);
    tracer.end_span(SpanStatus::Close);
}

#[test]
fn test_end_span_scenarios_example() {
    let mut tracer = setup_tracer();

    let (root_span_id, _) = tracer.start_span("single_task", None, None, None);
    assert_eq!(tracer.active_id(), Some(root_span_id));
    tracer.end_span(SpanStatus::Close);
    assert!(tracer.span_stack().is_empty(), "Stack should be empty after root span ends");
    let ended_root_span = tracer.get_span(root_span_id).expect("Root span missing");
    assert!(ended_root_span.end_time.is_some(), "End time must be set");
    assert_eq!(ended_root_span.status, SpanStatus::Close);

    let (parent_id, _) = tracer.start_span("main_operation", None, None, None);
    let (child_id, _) = tracer.start_span("sub_operation_fails", None, None, None);

    let parent_span_while_child_active = tracer.get_span(parent_id).expect("Parent span missing");
    assert_eq!(
        parent_span_while_child_active.status,
        SpanStatus::Open,
        "Parent is 'Open' while child is 'Running'"
    );

    let error_message = "Something went wrong".to_string();
    tracer.end_span(SpanStatus::Error(Some(error_message.clone())));
    assert_eq!(tracer.active_id(), Some(parent_id), "Parent should be the active span now");

    let ended_child_span = tracer.get_span(child_id).expect("Child span missing");
    assert!(ended_child_span.end_time.is_some());
    assert_eq!(ended_child_span.status, SpanStatus::Error(Some(error_message)));

    let parent_span_after_child_error = tracer.get_span(parent_id).expect("Parent span missing");
    assert_eq!(
        parent_span_after_child_error.status,
        SpanStatus::Running,
        "Parent becomes 'Running' again after child ends"
    );

    tracer.end_span(SpanStatus::Close);
    assert!(tracer.span_stack().is_empty(), "Stack empty after parent ends");
    let ended_parent_span = tracer.get_span(parent_id).expect("Parent span missing");
    assert!(ended_parent_span.end_time.is_some());
    assert_eq!(ended_parent_span.status, SpanStatus::Close);

    let mut fresh_tracer = setup_tracer();
    fresh_tracer.end_span(SpanStatus::Close);
}

#[test]
fn test_span_with_location_example() {
    let mut tracer = setup_tracer();
    let code_path = "my_app::services::user_service::create_user";
    let (span_id, _) = tracer.start_span("create_user_call", None, Some(code_path), None);

    let span = tracer.get_span(span_id).unwrap();
    match &span.location {
        Some(Location::UnknownLocation(path)) => {
            assert_eq!(path, code_path, "Span location should match the provided code_path");
        }
        _ => panic!("Expected span.location to be Some(Location::UnknownLocation)"),
    }
    tracer.end_span(SpanStatus::Close);
}

#[test]
fn test_trace_id_generation_and_rollover() {
    let mut tracer = setup_tracer();
    let tracer_id_val = tracer.tracer_id() as u128;

    let (_, trace_id1) = tracer.start_span("span1", None, None, None);
    assert_eq!(trace_id1.0, (tracer_id_val << TRACE_ID_PREFIX_SHIFT) | 0, "Trace ID for first trace");
    tracer.end_span(SpanStatus::Close);

    let (_, trace_id2) = tracer.start_span("span2", None, None, None);
    assert_eq!(trace_id2.0, (tracer_id_val << TRACE_ID_PREFIX_SHIFT) | 1, "Trace ID for second trace");
    tracer.end_span(SpanStatus::Close);

    tracer.set_next_trace_seq(u64::MAX - 1);

    let (_, trace_id_before_wrap) = tracer.start_span("span_before_u64_wrap", None, None, None);
    assert_eq!(
        trace_id_before_wrap.0,
        (tracer_id_val << TRACE_ID_PREFIX_SHIFT) | ((u64::MAX - 1) as u128 & MAX_TRACE_SEQ),
        "Trace ID before u64 wrap"
    );
    tracer.end_span(SpanStatus::Close);

    let (_, trace_id_wrap) = tracer.start_span("span_u64_wrap", None, None, None);
    assert_eq!(
        trace_id_wrap.0,
        (tracer_id_val << TRACE_ID_PREFIX_SHIFT) | (u64::MAX as u128 & MAX_TRACE_SEQ),
        "Trace ID at u64 wrap"
    );
    tracer.end_span(SpanStatus::Close);

    let (_, trace_id_after_wrap) = tracer.start_span("span_after_u64_wrap", None, None, None);
    assert_eq!(
        trace_id_after_wrap.0,
        (tracer_id_val << TRACE_ID_PREFIX_SHIFT) | (0u128 & MAX_TRACE_SEQ),
        "Trace ID after u64 wrap"
    );
    tracer.end_span(SpanStatus::Close);
}

#[test]
fn test_span_id_generation_wrapping() {
    let mut tracer = setup_tracer();
    tracer.set_next_span_seq(u64::MAX);

    let (span_id1, _) = tracer.start_span("span_max_seq", None, None, None);
    assert_eq!(span_id1.0, u64::MAX, "Span ID should be u64::MAX");

    let (span_id2, _) = tracer.start_span("span_after_wrap", None, None, None);
    assert_eq!(span_id2.0, 0, "Span ID should be 0 after wrap");
}

#[test]
fn test_add_attributes_and_events_example() {
    let mut tracer = setup_tracer();
    let (span_id, _) = tracer.start_span("user_request_processing", None, None, None);

    tracer.add_attr("http.method", text("GET"));
    tracer.add_attr("http.url", Ele::Text("/users/123".to_string()));
    tracer.add_attr("user.id", Ele::I32(123));
    tracer.add_attr("request.size_bytes", Ele::I64(1024));
    tracer.add_attr("cache.hit_ratio", Ele::F32(0.75f32.to_bits()));
    tracer.add_attr("processing.time_ms", Ele::F64(123.456f64.to_bits()));
    tracer.add_attr("custom.info", Ele::Text("important_detail".to_string()));

    tracer.add_event(
        "cache_lookup",
        Some(vec![attr("cache.key", text("user_123_data")), attr("cache.hit", Ele::BOOL(true))]),
    );

    let started = std::time::Instant::now();
    while started.elapsed() < std::time::Duration::from_millis(5) {}

    tracer.add_event("validation_complete", None);

    {
        let span = tracer.get_span(span_id).expect("Span not found");
        let attributes = span.attributes.as_ref().expect("Attributes should exist");
        assert_eq!(attributes.len(), 7, "Expected 7 attributes on the span");
        assert_eq!(attributes[0], attr("http.method", text("GET")));
        assert_eq!(attributes[1], attr("http.url", Ele::Text("/users/123".to_string())));

        assert_eq!(span.events.len(), 2, "Expected 2 events in the span");
        assert_eq!(span.events[0].name, Some("cache_lookup".to_string()));
        assert!(
            span.events[0].timestamp.0 > span.start_time.0,
            "Event timestamp should be after span start"
        );
        let event1_attrs = span.events[0].attributes.as_ref().unwrap();
        assert_eq!(event1_attrs.len(), 2);
        assert_eq!(event1_attrs[0], attr("cache.key", text("user_123_data")));
        assert_eq!(event1_attrs[1], attr("cache.hit", Ele::BOOL(true)));

        assert_eq!(span.events[1].name, Some("validation_complete".to_string()));
        assert!(
            span.events[1].timestamp.0 > span.events[0].timestamp.0,
            "Second event should be later"
        );
        assert!(span.events[1].attributes.is_none());
    }
    tracer.end_span(SpanStatus::Close);

    let span = tracer.get_span(span_id).expect("Span not found");
    let attributes_count_before_add_after_close = span.attributes.as_ref().map_or(0, |a| a.len());
    let events_len_before_add_after_close = span.events.len();

    tracer.add_attr("attempt_after_close", text("should_not_be_added"));
    tracer.add_event("event_after_close", None);

    let span_after_close_attempt = tracer.get_span(span_id).expect("Span not found after close");
    assert_eq!(
        span_after_close_attempt.attributes.as_ref().map_or(0, |a| a.len()),
        attributes_count_before_add_after_close,
        "Attributes should not be added to a closed span."
    );
    assert_eq!(
        span_after_close_attempt.events.len(),
        events_len_before_add_after_close,
        "Events should not be added to a closed span."
    );
}

#[test]
fn test_add_attribute_and_event_to_non_existent_span_example() {
    let mut tracer = setup_tracer();

    tracer.add_attr("key_no_span", text("value_no_span"));
    tracer.add_event("event_no_span", None);

    assert!(tracer.span_count() == 0, "No spans should exist if none were started.");
}

#[test]
fn test_retrieve_active_and_all_spans_example() {
    let mut tracer = setup_tracer();

    assert!(tracer.active_spans().is_empty(), "No active spans initially.");
    assert!(tracer.all_spans().is_empty(), "No spans recorded initially.");

    let (s1_id, _) = tracer.start_span("service_call", None, None, None);
    let (s2_id, _) = tracer.start_span("internal_processing", None, None, None);

    let (s3_id, _) = tracer.start_span("another_root_task", None, None, None);
    tracer.end_span(SpanStatus::Close);

    let active = tracer.active_spans();
    assert_eq!(active.len(), 2, "Expected s1 and s2 to be active on the stack.");
    assert_eq!(active[0].span_id, s1_id, "s1 should be the first active span on stack.");
    assert_eq!(active[1].span_id, s2_id, "s2 should be the second (current) active span on stack.");
    assert_eq!(tracer.active_id(), Some(s2_id), "s2 should be the current active_id");

    let all = tracer.all_spans();
    assert_eq!(all.len(), 3, "Expected s1, s2, and s3 to be in all_spans.");
    assert!(all.iter().any(|s| s.span_id == s1_id), "s1 should be in all_spans.");
    assert!(all.iter().any(|s| s.span_id == s2_id), "s2 should be in all_spans.");
    assert!(all.iter().any(|s| s.span_id == s3_id), "s3 should be in all_spans.");

    let s3_span = all.iter().find(|s| s.span_id == s3_id).unwrap();
    assert_eq!(s3_span.status, SpanStatus::Close, "s3 should be marked as Close.");

    tracer.end_span(SpanStatus::Close);
    tracer.end_span(SpanStatus::Close);
}

#[test]
fn spans_at_given_times_record_those_times() {
    let mut tracer = setup_tracer();
    let (id, _) = tracer.start_span_at("work", None, None, None, 1_000);
    tracer.add_event_at("tick", None, 1_500);
    tracer.end_span_at(SpanStatus::Close, 4_000);
    let span = tracer.get_span(id).unwrap();
    assert_eq!(span.start_time, Timestamp(1_000));
    assert_eq!(span.end_time, Some(Timestamp(4_000)));
    assert_eq!(span.events[0].timestamp, Timestamp(1_500));
    assert_eq!(span.duration(), Some(std::time::Duration::from_nanos(3_000)));
}

#[test]
fn trace_id_carries_the_tracer_id_in_its_top_bits() {
    let mut tracer = LocalSpanManager::with_sequences(0xabcd, 7, 0);
    let (_, trace) = tracer.start_span("x", None, None, None);
    assert_eq!(trace.0 >> TRACE_ID_PREFIX_SHIFT, 0xabcd);
    assert_eq!(trace.0 & MAX_TRACE_SEQ, 7);
}

#[test]
fn time_between_stamps_is_zero_when_not_later() {
    let a = Timestamp(10);
    let b = Timestamp(25);
    assert_eq!(b.nanos_since(a), 15);
    assert_eq!(a.nanos_since(b), 0);
    assert_eq!(b.duration_since(a), std::time::Duration::from_nanos(15));
}
