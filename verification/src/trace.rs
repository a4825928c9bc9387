//! The tracing calls a thread makes on its own tracer. The tracer is handed in
//! by the caller, who keeps one per thread behind a lock; a poisoned lock is
//! the one way these calls fail.
use vstd::prelude::*;

use crate::tracing::{
    Attribute, Ele, LocalSpanManager, Span, SpanId, SpanStatus, SpanStatusView, TraceId, ended_spans, event_at,
    opt_attrs_view, span_with_event,
};

verus! {

/// Why a tracing call failed.
#[derive(Debug, Clone, Copy, PartialEq, Eq, Structural)]
pub enum TraceError {
    /// A thread panicked while it held the tracer's lock.
    LockPoisoned,
}

/// Begins a span on `tracer` (see `LocalSpanManager::start_span`) and returns
/// its id and the id of its trace.
pub fn begin_span(
    tracer: &mut LocalSpanManager,
    name: &str,
    kind: Option<&str>,
    code_path: Option<&str>,
    initial_attributes: Option<Vec<Attribute>>,
) -> (r: Result<(SpanId, TraceId), TraceError>)
    requires
        old(tracer).wf(),
    ensures
        final(tracer).wf(),
        r matches Ok(ids) && ids.0.0 == old(tracer).spec_next_span_seq() && final(tracer).stack()
            == old(tracer).stack().push(ids.0.0),
{
    Ok(tracer.start_span(name, kind, code_path, initial_attributes))
}

/// Ends the active span of `tracer` as closed normally; without an active span
/// nothing changes.
pub fn end_span(tracer: &mut LocalSpanManager) -> (r: Result<(), TraceError>)
    requires
        old(tracer).wf(),
    ensures
        final(tracer).wf(),
        r is Ok,
        old(tracer).stack().len() == 0 ==> final(tracer).stack() == old(tracer).stack()
            && final(tracer).spans() == old(tracer).spans(),
        old(tracer).stack().len() > 0 ==> final(tracer).stack() == old(tracer).stack().drop_last()
            && exists|now: u128|
            final(tracer).spans() == #[trigger] ended_spans(
                old(tracer).spans(),
                old(tracer).stack(),
                now,
                SpanStatusView::Close,
            ),
{
    tracer.end_span(SpanStatus::Close);
    Ok(())
}

/// Ends the active span of `tracer` with `status`; without an active span
/// nothing changes.
pub fn end_span_with_status(tracer: &mut LocalSpanManager, status: SpanStatus) -> (r: Result<(), TraceError>)
    requires
        old(tracer).wf(),
    ensures
        final(tracer).wf(),
        r is Ok,
        old(tracer).stack().len() == 0 ==> final(tracer).stack() == old(tracer).stack()
            && final(tracer).spans() == old(tracer).spans(),
        old(tracer).stack().len() > 0 ==> final(tracer).stack() == old(tracer).stack().drop_last()
            && exists|now: u128|
            final(tracer).spans() == #[trigger] ended_spans(
                old(tracer).spans(),
                old(tracer).stack(),
                now,
                status@,
            ),
{
    tracer.end_span(status);
    Ok(())
}

/// Adds the attribute `key` = `value` to the active span of `tracer` (see
/// `LocalSpanManager::add_attr`).
pub fn add_attr(tracer: &mut LocalSpanManager, key: &str, value: Ele) -> (r: Result<(), TraceError>)
    requires
        old(tracer).wf(),
    ensures
        final(tracer).wf(),
        r is Ok,
        final(tracer).stack() == old(tracer).stack(),
        old(tracer).stack().len() == 0 ==> final(tracer).spans() == old(tracer).spans(),
        old(tracer).stack().len() > 0 ==> {
            let id = old(tracer).stack().last();
            final(tracer).spans() == old(tracer).spans().insert(
                id,
                crate::tracing::span_with_attr(old(tracer).spans()[id], (key@, value@)),
            )
        },
{
    tracer.add_attr(key, value);
    Ok(())
}

/// Adds an event named `name` to the active span of `tracer` (see
/// `LocalSpanManager::add_event`).
pub fn add_event(tracer: &mut LocalSpanManager, name: &str, attributes: Option<Vec<Attribute>>) -> (r: Result<
    (),
    TraceError,
>)
    requires
        old(tracer).wf(),
    ensures
        final(tracer).wf(),
        r is Ok,
        final(tracer).stack() == old(tracer).stack(),
        old(tracer).stack().len() == 0 ==> final(tracer).spans() == old(tracer).spans(),
        old(tracer).stack().len() > 0 ==> exists|now: u128|
            final(tracer).spans() == old(tracer).spans().insert(
                old(tracer).stack().last(),
                span_with_event(
                    old(tracer).spans()[old(tracer).stack().last()],
                    #[trigger] event_at(name@, now, opt_attrs_view(attributes)),
                ),
            ),
{
    tracer.add_event(name, attributes);
    Ok(())
}

/// A copy of the active span of `tracer`, if there is one.
pub fn current_span(tracer: &LocalSpanManager) -> (r: Result<Option<Span>, TraceError>)
    requires
        tracer.wf(),
    ensures
        r matches Ok(o) && match o {
            Some(s) => tracer.stack().len() > 0 && s@ == tracer.spans()[tracer.stack().last()],
            None => tracer.stack().len() == 0,
        },
{
    Ok(tracer.current_span())
}

/// Copies of the spans open on `tracer`, the most recently started last.
pub fn list_spans(tracer: &LocalSpanManager) -> (r: Result<Vec<Span>, TraceError>)
    requires
        tracer.wf(),
    ensures
        r matches Ok(v) && v@.len() == tracer.stack().len() && (forall|i: int|
            0 <= i < v@.len() ==> #[trigger] v@[i]@ == tracer.spans()[tracer.stack()[i]]) && (forall|i: int|
            0 <= i < v@.len() ==> (#[trigger] v@[i]).span_id.0 == tracer.stack()[i]),
{
    Ok(tracer.list_spans())
}

} // verus!
