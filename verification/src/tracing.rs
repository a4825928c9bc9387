//! Span tracing on one thread: a stack of open spans, each with its trace,
//! parent, attributes, events and status.
use vstd::prelude::*;
use vstd::string::*;

use crate::clock::{duration_from_nanos, duration_of_nanos, unix_now_nanos};
use crate::keyed::{distinct_keys, has_key, keyed_map, lemma_keyed_at, lemma_keyed_push, lemma_keyed_update};
use crate::text::{str_eq, to_owned_string};

verus! {

/// Identifier of a trace: 16 bits of tracer id above 112 bits of sequence.
#[derive(Debug, Clone, Copy, PartialEq, Eq, Structural, Hash)]
pub struct TraceId(pub u128);

/// Identifier of a span within its tracer.
#[derive(Debug, Clone, Copy, PartialEq, Eq, Structural, Hash)]
pub struct SpanId(pub u64);

/// Nanoseconds since the Unix epoch.
#[derive(Debug, Clone, Copy, PartialEq, Eq, Structural, PartialOrd, Ord)]
pub struct Timestamp(pub u128);

/// Bits below the tracer id in a trace id.
pub const TRACE_ID_PREFIX_SHIFT: u32 = 112;

/// Largest sequence number a trace id holds.
pub const MAX_TRACE_SEQ: u128 = 0xffff_ffff_ffff_ffff_ffff_ffff_ffffu128;

/// Nanoseconds from `earlier` to `later`, kept to their low 64 bits; 0 when
/// `earlier` is not earlier.
pub open spec fn nanos_between(later: u128, earlier: u128) -> u64 {
    if later > earlier {
        ((later - earlier) % 0x1_0000_0000_0000_0000) as u64
    } else {
        0
    }
}

impl Timestamp {
    /// The current time by the system clock.
    pub fn now() -> (r: Timestamp) {
        Timestamp(unix_now_nanos())
    }

    /// Nanoseconds since `earlier`, kept to their low 64 bits; 0 when `earlier`
    /// is not earlier.
    pub fn nanos_since(&self, earlier: Timestamp) -> (r: u64)
        ensures
            r == nanos_between(self.0, earlier.0),
    {
        if self.0 > earlier.0 {
            let d: u128 = self.0 - earlier.0;
            let low = (d % 0x1_0000_0000_0000_0000u128) as u64;
            low
        } else {
            0
        }
    }

    /// The time since `earlier`, zero when `earlier` is not earlier.
    pub fn duration_since(&self, earlier: Timestamp) -> (r: std::time::Duration)
        ensures
            r == duration_of_nanos(nanos_between(self.0, earlier.0)),
    {
        let n = self.nanos_since(earlier);
        duration_from_nanos(n)
    }
}

/// A value that an attribute carries. Floating-point values are kept as their
/// IEEE-754 bit patterns.
#[derive(Debug, Clone)]
pub enum Ele {
    Nil,
    BOOL(bool),
    I32(i32),
    I64(i64),
    F32(u32),
    F64(u64),
    Text(String),
    Url(String),
    DataTime(u64),
}

/// The value of an [`Ele`].
pub enum EleView {
    Nil,
    BOOL(bool),
    I32(i32),
    I64(i64),
    F32(u32),
    F64(u64),
    Text(Seq<char>),
    Url(Seq<char>),
    DataTime(u64),
}

impl View for Ele {
    type V = EleView;

    open spec fn view(&self) -> EleView {
        match self {
            Ele::Nil => EleView::Nil,
            Ele::BOOL(b) => EleView::BOOL(*b),
            Ele::I32(x) => EleView::I32(*x),
            Ele::I64(x) => EleView::I64(*x),
            Ele::F32(x) => EleView::F32(*x),
            Ele::F64(x) => EleView::F64(*x),
            Ele::Text(s) => EleView::Text(s@),
            Ele::Url(s) => EleView::Url(s@),
            Ele::DataTime(x) => EleView::DataTime(*x),
        }
    }
}

impl Ele {
    /// A copy of this value.
    pub fn duplicate(&self) -> (r: Ele)
        ensures
            r@ == self@,
    {
        match self {
            Ele::Nil => Ele::Nil,
            Ele::BOOL(b) => Ele::BOOL(*b),
            Ele::I32(x) => Ele::I32(*x),
            Ele::I64(x) => Ele::I64(*x),
            Ele::F32(x) => Ele::F32(*x),
            Ele::F64(x) => Ele::F64(*x),
            Ele::Text(s) => Ele::Text(s.clone()),
            Ele::Url(s) => Ele::Url(s.clone()),
            Ele::DataTime(x) => Ele::DataTime(*x),
        }
    }
}

impl PartialEq for Ele {
    fn eq(&self, other: &Self) -> (r: bool) {
        match (self, other) {
            (Ele::Nil, Ele::Nil) => true,
            (Ele::BOOL(a), Ele::BOOL(b)) => *a == *b,
            (Ele::I32(a), Ele::I32(b)) => *a == *b,
            (Ele::I64(a), Ele::I64(b)) => *a == *b,
            (Ele::F32(a), Ele::F32(b)) => *a == *b,
            (Ele::F64(a), Ele::F64(b)) => *a == *b,
            (Ele::Text(a), Ele::Text(b)) => str_eq(a.as_str(), b.as_str()),
            (Ele::Url(a), Ele::Url(b)) => str_eq(a.as_str(), b.as_str()),
            (Ele::DataTime(a), Ele::DataTime(b)) => *a == *b,
            _ => false,
        }
    }
}

impl vstd::std_specs::cmp::PartialEqSpecImpl for Ele {
    open spec fn obeys_eq_spec() -> bool {
        true
    }

    open spec fn eq_spec(&self, other: &Ele) -> bool {
        self@ == other@
    }
}

/// A key and its value.
#[derive(Debug, Clone)]
pub struct Attribute(pub String, pub Ele);

impl View for Attribute {
    type V = (Seq<char>, EleView);

    open spec fn view(&self) -> (Seq<char>, EleView) {
        (self.0@, self.1@)
    }
}

impl PartialEq for Attribute {
    fn eq(&self, other: &Self) -> (r: bool) {
        str_eq(self.0.as_str(), other.0.as_str()) && self.1.eq(&other.1)
    }
}

impl vstd::std_specs::cmp::PartialEqSpecImpl for Attribute {
    open spec fn obeys_eq_spec() -> bool {
        true
    }

    open spec fn eq_spec(&self, other: &Attribute) -> bool {
        self@ == other@
    }
}

impl Attribute {
    /// A copy of this attribute.
    pub fn duplicate(&self) -> (r: Attribute)
        ensures
            r@ == self@,
    {
        Attribute(self.0.clone(), self.1.duplicate())
    }
}

/// An attribute with key `key` and value `value`.
pub fn attr(key: &str, value: Ele) -> (r: Attribute)
    ensures
        r@ == (key@, value@),
{
    Attribute(to_owned_string(key), value)
}

/// The values of a list of attributes.
pub open spec fn attrs_view(v: Seq<Attribute>) -> Seq<(Seq<char>, EleView)> {
    v.map_values(|a: Attribute| a@)
}

/// The values of an optional list of attributes.
pub open spec fn opt_attrs_view(v: Option<Vec<Attribute>>) -> Option<Seq<(Seq<char>, EleView)>> {
    match v {
        Some(a) => Some(attrs_view(a@)),
        None => None,
    }
}

/// A copy of a list of attributes.
pub fn duplicate_attrs(v: &Vec<Attribute>) -> (r: Vec<Attribute>)
    ensures
        attrs_view(r@) == attrs_view(v@),
{
    let mut r: Vec<Attribute> = Vec::new();
    let mut i: usize = 0;
    while i < v.len()
        invariant
            i <= v.len(),
            r@.len() == i,
            forall|j: int| 0 <= j < i ==> #[trigger] r@[j]@ == v@[j]@,
        decreases v.len() - i,
    {
        r.push(v[i].duplicate());
        i = i + 1;
    }
    assert(attrs_view(r@) =~= attrs_view(v@));
    r
}

/// A copy of an optional list of attributes.
pub fn duplicate_opt_attrs(v: &Option<Vec<Attribute>>) -> (r: Option<Vec<Attribute>>)
    ensures
        opt_attrs_view(r) == opt_attrs_view(*v),
{
    match v {
        Some(a) => Some(duplicate_attrs(a)),
        None => None,
    }
}

/// Where in the code a span or an event comes from.
#[derive(Debug, Clone)]
pub enum Location {
    KnownLocation(u64),
    UnknownLocation(String),
}

/// The value of a [`Location`].
pub enum LocationView {
    KnownLocation(u64),
    UnknownLocation(Seq<char>),
}

impl View for Location {
    type V = LocationView;

    open spec fn view(&self) -> LocationView {
        match self {
            Location::KnownLocation(x) => LocationView::KnownLocation(*x),
            Location::UnknownLocation(s) => LocationView::UnknownLocation(s@),
        }
    }
}

impl PartialEq for Location {
    fn eq(&self, other: &Self) -> (r: bool) {
        match (self, other) {
            (Location::KnownLocation(a), Location::KnownLocation(b)) => *a == *b,
            (Location::UnknownLocation(a), Location::UnknownLocation(b)) => str_eq(a.as_str(), b.as_str()),
            _ => false,
        }
    }
}

impl vstd::std_specs::cmp::PartialEqSpecImpl for Location {
    open spec fn obeys_eq_spec() -> bool {
        true
    }

    open spec fn eq_spec(&self, other: &Location) -> bool {
        self@ == other@
    }
}

/// The value of an optional location.
pub open spec fn opt_location_view(l: Option<Location>) -> Option<LocationView> {
    match l {
        Some(x) => Some(x@),
        None => None,
    }
}

fn duplicate_opt_location(l: &Option<Location>) -> (r: Option<Location>)
    ensures
        opt_location_view(r) == opt_location_view(*l),
{
    match l {
        Some(Location::KnownLocation(x)) => Some(Location::KnownLocation(*x)),
        Some(Location::UnknownLocation(s)) => Some(Location::UnknownLocation(s.clone())),
        None => None,
    }
}

/// The value of an optional text.
pub open spec fn opt_str_view(s: Option<String>) -> Option<Seq<char>> {
    match s {
        Some(x) => Some(x@),
        None => None,
    }
}

fn duplicate_opt_string(s: &Option<String>) -> (r: Option<String>)
    ensures
        opt_str_view(r) == opt_str_view(*s),
{
    match s {
        Some(x) => Some(x.clone()),
        None => None,
    }
}

/// Something that happened during a span, at a point in time.
#[derive(Debug, Clone)]
pub struct Event {
    pub name: Option<String>,
    pub location: Option<Location>,
    pub timestamp: Timestamp,
    pub attributes: Option<Vec<Attribute>>,
}

/// The value of an [`Event`].
pub struct EventView {
    pub name: Option<Seq<char>>,
    pub location: Option<LocationView>,
    pub timestamp: u128,
    pub attributes: Option<Seq<(Seq<char>, EleView)>>,
}

impl View for Event {
    type V = EventView;

    open spec fn view(&self) -> EventView {
        EventView {
            name: opt_str_view(self.name),
            location: opt_location_view(self.location),
            timestamp: self.timestamp.0,
            attributes: opt_attrs_view(self.attributes),
        }
    }
}

impl Event {
    /// A copy of this event.
    pub fn duplicate(&self) -> (r: Event)
        ensures
            r@ == self@,
    {
        Event {
            name: duplicate_opt_string(&self.name),
            location: duplicate_opt_location(&self.location),
            timestamp: self.timestamp,
            attributes: duplicate_opt_attrs(&self.attributes),
        }
    }
}

/// The values of a list of events.
pub open spec fn events_view(v: Seq<Event>) -> Seq<EventView> {
    v.map_values(|e: Event| e@)
}

fn duplicate_events(v: &Vec<Event>) -> (r: Vec<Event>)
    ensures
        events_view(r@) == events_view(v@),
{
    let mut r: Vec<Event> = Vec::new();
    let mut i: usize = 0;
    while i < v.len()
        invariant
            i <= v.len(),
            r@.len() == i,
            forall|j: int| 0 <= j < i ==> #[trigger] r@[j]@ == v@[j]@,
        decreases v.len() - i,
    {
        r.push(v[i].duplicate());
        i = i + 1;
    }
    assert(events_view(r@) =~= events_view(v@));
    r
}

/// The state of a span.
#[derive(Debug, Clone)]
pub enum SpanStatus {
    /// The span is the active one of its thread.
    Running,
    /// The span is open, but one of its children is running.
    Open,
    /// The span has completed successfully.
    Close,
    /// The span has completed with an error.
    Error(Option<String>),
}

/// The value of a [`SpanStatus`].
pub enum SpanStatusView {
    Running,
    Open,
    Close,
    Error(Option<Seq<char>>),
}

impl View for SpanStatus {
    type V = SpanStatusView;

    open spec fn view(&self) -> SpanStatusView {
        match self {
            SpanStatus::Running => SpanStatusView::Running,
            SpanStatus::Open => SpanStatusView::Open,
            SpanStatus::Close => SpanStatusView::Close,
            SpanStatus::Error(m) => SpanStatusView::Error(opt_str_view(*m)),
        }
    }
}

impl PartialEq for SpanStatus {
    fn eq(&self, other: &Self) -> (r: bool) {
        match (self, other) {
            (SpanStatus::Running, SpanStatus::Running) => true,
            (SpanStatus::Open, SpanStatus::Open) => true,
            (SpanStatus::Close, SpanStatus::Close) => true,
            (SpanStatus::Error(a), SpanStatus::Error(b)) => match (a, b) {
                (Some(x), Some(y)) => str_eq(x.as_str(), y.as_str()),
                (None, None) => true,
                _ => false,
            },
            _ => false,
        }
    }
}

impl vstd::std_specs::cmp::PartialEqSpecImpl for SpanStatus {
    open spec fn obeys_eq_spec() -> bool {
        true
    }

    open spec fn eq_spec(&self, other: &SpanStatus) -> bool {
        self@ == other@
    }
}

impl SpanStatus {
    /// A copy of this status.
    pub fn duplicate(&self) -> (r: SpanStatus)
        ensures
            r@ == self@,
    {
        match self {
            SpanStatus::Running => SpanStatus::Running,
            SpanStatus::Open => SpanStatus::Open,
            SpanStatus::Close => SpanStatus::Close,
            SpanStatus::Error(m) => SpanStatus::Error(duplicate_opt_string(m)),
        }
    }

    /// The status a new span starts with.
    pub fn default() -> (r: SpanStatus)
        ensures
            r@ == SpanStatusView::Running,
    {
        SpanStatus::Running
    }
}

/// A unit of traced work.
#[derive(Debug, Clone)]
pub struct Span {
    pub trace_id: TraceId,
    pub span_id: SpanId,
    pub parent_span_id: Option<SpanId>,
    pub name: String,
    pub kind: Option<String>,
    pub location: Option<Location>,
    pub start_time: Timestamp,
    pub end_time: Option<Timestamp>,
    pub attributes: Option<Vec<Attribute>>,
    pub events: Vec<Event>,
    pub status: SpanStatus,
}

/// The value of a [`Span`].
pub struct SpanView {
    pub trace_id: u128,
    pub span_id: u64,
    pub parent_span_id: Option<u64>,
    pub name: Seq<char>,
    pub kind: Option<Seq<char>>,
    pub location: Option<LocationView>,
    pub start_time: u128,
    pub end_time: Option<u128>,
    pub attributes: Option<Seq<(Seq<char>, EleView)>>,
    pub events: Seq<EventView>,
    pub status: SpanStatusView,
}

impl View for Span {
    type V = SpanView;

    open spec fn view(&self) -> SpanView {
        SpanView {
            trace_id: self.trace_id.0,
            span_id: self.span_id.0,
            parent_span_id: match self.parent_span_id {
                Some(p) => Some(p.0),
                None => None,
            },
            name: self.name@,
            kind: opt_str_view(self.kind),
            location: opt_location_view(self.location),
            start_time: self.start_time.0,
            end_time: match self.end_time {
                Some(t) => Some(t.0),
                None => None,
            },
            attributes: opt_attrs_view(self.attributes),
            events: events_view(self.events@),
            status: self.status@,
        }
    }
}

impl Span {
    /// A copy of this span.
    pub fn duplicate(&self) -> (r: Span)
        ensures
            r@ == self@,
    {
        Span {
            trace_id: self.trace_id,
            span_id: self.span_id,
            parent_span_id: self.parent_span_id,
            name: self.name.clone(),
            kind: duplicate_opt_string(&self.kind),
            location: duplicate_opt_location(&self.location),
            start_time: self.start_time,
            end_time: self.end_time,
            attributes: duplicate_opt_attrs(&self.attributes),
            events: duplicate_events(&self.events),
            status: self.status.duplicate(),
        }
    }

    /// How long the span lasted, once it has ended.
    pub fn duration(&self) -> (r: Option<std::time::Duration>)
        ensures
            match self.end_time {
                Some(t) => r == Some(duration_of_nanos(nanos_between(t.0, self.start_time.0))),
                None => r is None,
            },
    {
        match self.end_time {
            Some(t) => Some(t.duration_since(self.start_time)),
            None => None,
        }
    }
}

/// The trace id of a tracer's trace with sequence number `seq`.
pub open spec fn trace_id_for(tracer_id: u16, seq: u64) -> u128 {
    ((tracer_id as u128) << 112u128) | ((seq as u128) & MAX_TRACE_SEQ)
}

/// The tracer id sits above the sequence number, which is kept whole.
pub proof fn law_trace_id_layout(tracer_id: u16, seq: u64)
    ensures
        trace_id_for(tracer_id, seq) == tracer_id as u128 * 0x1_0000_0000_0000_0000_0000_0000_0000u128
            + seq as u128,
        trace_id_for(tracer_id, seq) >> 112u128 == tracer_id as u128,
        trace_id_for(tracer_id, seq) & MAX_TRACE_SEQ == seq as u128,
{
    let t = tracer_id as u128;
    let s = seq as u128;
    assert(t < 0x10000 && s < 0x1_0000_0000_0000_0000);
    assert(((t << 112u128) | (s & 0xffff_ffff_ffff_ffff_ffff_ffff_ffffu128)) == t
        * 0x1_0000_0000_0000_0000_0000_0000_0000u128 + s) by (bit_vector)
        requires
            t < 0x10000,
            s < 0x1_0000_0000_0000_0000,
    ;
    assert((((t << 112u128) | (s & 0xffff_ffff_ffff_ffff_ffff_ffff_ffffu128)) >> 112u128) == t)
        by (bit_vector)
        requires
            t < 0x10000,
            s < 0x1_0000_0000_0000_0000,
    ;
    assert((((t << 112u128) | (s & 0xffff_ffff_ffff_ffff_ffff_ffff_ffffu128))
        & 0xffff_ffff_ffff_ffff_ffff_ffff_ffffu128) == s) by (bit_vector)
        requires
            t < 0x10000,
            s < 0x1_0000_0000_0000_0000,
    ;
}

/// Adding one in 64-bit wrapping arithmetic.
pub open spec fn next_seq(x: u64) -> u64 {
    if x == u64::MAX {
        0
    } else {
        (x + 1) as u64
    }
}

/// A parent whose child starts: a running parent becomes open.
pub open spec fn parent_opened(s: SpanView) -> SpanView {
    if s.status == SpanStatusView::Running {
        SpanView { status: SpanStatusView::Open, ..s }
    } else {
        s
    }
}

/// A parent whose child ends: an open parent runs again.
pub open spec fn parent_resumed(s: SpanView) -> SpanView {
    if s.status == SpanStatusView::Open {
        SpanView { status: SpanStatusView::Running, ..s }
    } else {
        s
    }
}

/// A span that ends at `now` with status `status`.
pub open spec fn span_closed(s: SpanView, now: u128, status: SpanStatusView) -> SpanView {
    SpanView { end_time: Some(now), status, ..s }
}

/// A span that has not ended gets the attribute appended; an ended one stays.
pub open spec fn span_with_attr(s: SpanView, a: (Seq<char>, EleView)) -> SpanView {
    if s.end_time is None {
        SpanView {
            attributes: Some(
                match s.attributes {
                    Some(v) => v.push(a),
                    None => seq![a],
                },
            ),
            ..s
        }
    } else {
        s
    }
}

/// A span that has not ended gets the event appended; an ended one stays.
pub open spec fn span_with_event(s: SpanView, e: EventView) -> SpanView {
    if s.end_time is None {
        SpanView { events: s.events.push(e), ..s }
    } else {
        s
    }
}

/// The trace and span bookkeeping of one thread.
#[derive(Debug)]
pub struct LocalSpanManager {
    tracer_id: u16,
    next_trace_seq: u64,
    next_span_seq: u64,
    span_stack: Vec<SpanId>,
    spans: Vec<Span>,
}

impl LocalSpanManager {
    /// The tracer id, which prefixes the tracer's trace ids.
    pub closed spec fn spec_tracer_id(&self) -> u16 {
        self.tracer_id
    }

    /// The sequence number of the next trace.
    pub closed spec fn spec_next_trace_seq(&self) -> u64 {
        self.next_trace_seq
    }

    /// The sequence number of the next span.
    pub closed spec fn spec_next_span_seq(&self) -> u64 {
        self.next_span_seq
    }

    /// The ids of the active span and its open ancestors, oldest first.
    pub closed spec fn stack(&self) -> Seq<u64> {
        self.span_stack@.map_values(|s: SpanId| s.0)
    }

    /// The stored spans as (id, value) pairs.
    pub closed spec fn span_pairs(&self) -> Seq<(u64, SpanView)> {
        self.spans@.map_values(|s: Span| (s.span_id.0, s@))
    }

    /// Every span the tracer has recorded, by id.
    pub open spec fn spans(&self) -> Map<u64, SpanView> {
        keyed_map(self.span_pairs())
    }

    /// Span ids are stored once, and every id on the stack is stored.
    pub open spec fn wf(&self) -> bool {
        &&& distinct_keys(self.span_pairs())
        &&& forall|i: int| 0 <= i < self.stack().len() ==> self.spans().dom().contains(#[trigger] self.stack()[i])
    }

    /// A tracer with id `tracer_id` and no spans.
    pub fn new(tracer_id: u16) -> (r: Self)
        ensures
            r.wf(),
            r.spec_tracer_id() == tracer_id,
            r.spec_next_trace_seq() == 0,
            r.spec_next_span_seq() == 0,
            r.stack() == Seq::<u64>::empty(),
            r.spans() == Map::<u64, SpanView>::empty(),
    {
        Self::with_sequences(tracer_id, 0, 0)
    }

    /// A tracer with id `tracer_id`, no spans, and the given next sequence numbers.
    pub fn with_sequences(tracer_id: u16, next_trace_seq: u64, next_span_seq: u64) -> (r: Self)
        ensures
            r.wf(),
            r.spec_tracer_id() == tracer_id,
            r.spec_next_trace_seq() == next_trace_seq,
            r.spec_next_span_seq() == next_span_seq,
            r.stack() == Seq::<u64>::empty(),
            r.spans() == Map::<u64, SpanView>::empty(),
    {
        let r = LocalSpanManager {
            tracer_id,
            next_trace_seq,
            next_span_seq,
            span_stack: Vec::new(),
            spans: Vec::new(),
        };
        assert(r.stack() =~= Seq::<u64>::empty());
        assert(r.spans() =~= Map::<u64, SpanView>::empty());
        r
    }

    /// The tracer id.
    pub fn tracer_id(&self) -> (r: u16)
        ensures
            r == self.spec_tracer_id(),
    {
        self.tracer_id
    }

    /// Sets the sequence number of the next trace.
    pub fn set_next_trace_seq(&mut self, seq: u64)
        ensures
            final(self).spec_next_trace_seq() == seq,
            final(self).spec_next_span_seq() == old(self).spec_next_span_seq(),
            final(self).spec_tracer_id() == old(self).spec_tracer_id(),
            final(self).stack() == old(self).stack(),
            final(self).spans() == old(self).spans(),
            final(self).wf() == old(self).wf(),
    {
        self.next_trace_seq = seq;
    }

    /// Sets the sequence number of the next span.
    pub fn set_next_span_seq(&mut self, seq: u64)
        ensures
            final(self).spec_next_span_seq() == seq,
            final(self).spec_next_trace_seq() == old(self).spec_next_trace_seq(),
            final(self).spec_tracer_id() == old(self).spec_tracer_id(),
            final(self).stack() == old(self).stack(),
            final(self).spans() == old(self).spans(),
            final(self).wf() == old(self).wf(),
    {
        self.next_span_seq = seq;
    }

    /// The ids of the active span and its open ancestors, oldest first.
    pub fn span_stack(&self) -> (r: &Vec<SpanId>)
        ensures
            r@.map_values(|s: SpanId| s.0) == self.stack(),
    {
        &self.span_stack
    }

    /// Where the span `id` is stored, if it is.
    fn find_index(&self, id: u64) -> (r: Option<usize>)
        ensures
            match r {
                Some(i) => i < self.spans@.len() && self.span_pairs()[i as int].0 == id,
                None => !has_key(self.span_pairs(), id),
            },
    {
        let mut i: usize = 0;
        while i < self.spans.len()
            invariant
                i <= self.spans@.len(),
                forall|j: int| 0 <= j < i ==> #[trigger] self.span_pairs()[j].0 != id,
            decreases self.spans.len() - i,
        {
            assert(self.span_pairs()[i as int].0 == self.spans@[i as int].span_id.0);
            if self.spans[i].span_id.0 == id {
                return Some(i);
            }
            i = i + 1;
        }
        None
    }

    /// The span with id `id`, if the tracer has recorded one.
    pub fn get_span(&self, id: SpanId) -> (r: Option<&Span>)
        requires
            self.wf(),
        ensures
            match r {
                Some(s) => self.spans().dom().contains(id.0) && self.spans()[id.0] == s@,
                None => !self.spans().dom().contains(id.0),
            },
    {
        match self.find_index(id.0) {
            Some(i) => {
                proof {
                    lemma_keyed_at(self.span_pairs(), i as int);
                }
                Some(&self.spans[i])
            },
            None => None,
        }
    }

    /// Number of spans recorded.
    pub fn span_count(&self) -> (r: usize)
        requires
            self.wf(),
        ensures
            r == self.spans().dom().len(),
    {
        proof {
            crate::keyed::lemma_keyed_len(self.span_pairs());
        }
        self.spans.len()
    }

    /// Stores `span` under its id, replacing a span with the same id.
    fn put_span(&mut self, span: Span)
        requires
            distinct_keys(old(self).span_pairs()),
        ensures
            distinct_keys(final(self).span_pairs()),
            final(self).spans() == old(self).spans().insert(span.span_id.0, span@),
            final(self).stack() == old(self).stack(),
            final(self).spec_tracer_id() == old(self).spec_tracer_id(),
            final(self).spec_next_trace_seq() == old(self).spec_next_trace_seq(),
            final(self).spec_next_span_seq() == old(self).spec_next_span_seq(),
    {
        let ghost sv = span@;
        let ghost id = span.span_id.0;
        match self.find_index(span.span_id.0) {
            Some(i) => {
                let ghost before = self.span_pairs();
                self.spans.set(i, span);
                proof {
                    assert(self.span_pairs() =~= before.update(i as int, (before[i as int].0, sv)));
                    lemma_keyed_update(before, i as int, sv);
                }
            },
            None => {
                let ghost before = self.span_pairs();
                self.spans.push(span);
                proof {
                    assert(self.span_pairs() =~= before.push((id, sv)));
                    lemma_keyed_push(before, id, sv);
                }
            },
        }
    }

    /// Starts a span at time `now` (nanoseconds since the epoch). It becomes
    /// the active span: a child of the previously active span, in its trace,
    /// or, when no span is active, the root of a new trace.
    pub fn start_span_at(
        &mut self,
        name: &str,
        kind: Option<&str>,
        code_path: Option<&str>,
        initial_attributes: Option<Vec<Attribute>>,
        now: u128,
    ) -> (r: (SpanId, TraceId))
        requires
            old(self).wf(),
        ensures
            final(self).wf(),
            r.0.0 == old(self).spec_next_span_seq(),
            final(self).spec_next_span_seq() == next_seq(old(self).spec_next_span_seq()),
            final(self).spec_tracer_id() == old(self).spec_tracer_id(),
            final(self).stack() == old(self).stack().push(r.0.0),
            old(self).stack().len() > 0 ==> r.1.0 == old(self).spans()[old(self).stack().last()].trace_id
                && final(self).spec_next_trace_seq() == old(self).spec_next_trace_seq(),
            old(self).stack().len() == 0 ==> r.1.0 == trace_id_for(
                old(self).spec_tracer_id(),
                old(self).spec_next_trace_seq(),
            ) && final(self).spec_next_trace_seq() == next_seq(old(self).spec_next_trace_seq()),
            final(self).spans() == started_spans(
                old(self).spans(),
                old(self).stack(),
                r.0.0,
                new_span_view(
                    r.1.0,
                    r.0.0,
                    stack_top(old(self).stack()),
                    name@,
                    kind,
                    code_path,
                    now,
                    opt_attrs_view(initial_attributes),
                ),
            ),
    {
        let span_seq = self.next_span_seq;
        self.next_span_seq = self.next_span_seq.wrapping_add(1);
        let span_id = SpanId(span_seq);
        let ghost s0 = self.spans();
        let (trace_id, parent) = if self.span_stack.len() > 0 {
            let pid = self.span_stack[self.span_stack.len() - 1];
            proof {
                assert(self.stack()[self.stack().len() - 1] == pid.0);
                assert(s0.dom().contains(pid.0));
            }
            let i = match self.find_index(pid.0) {
                Some(i) => i,
                None => {
                    proof {
                        let j = choose|j: int| 0 <= j < self.span_pairs().len() && self.span_pairs()[j].0 == pid.0;
                        assert(false);
                    }
                    0
                },
            };
            proof {
                lemma_keyed_at(self.span_pairs(), i as int);
            }
            let mut parent_span = self.spans[i].duplicate();
            let tid = parent_span.trace_id;
            if matches!(parent_span.status, SpanStatus::Running) {
                parent_span.status = SpanStatus::Open;
            }
            assert(parent_span@ == parent_opened(s0[pid.0]));
            self.put_span(parent_span);
            (tid, Some(pid))
        } else {
            let seq = self.next_trace_seq;
            self.next_trace_seq = self.next_trace_seq.wrapping_add(1);
            let tid = ((self.tracer_id as u128) << 112u128) | ((seq as u128) & MAX_TRACE_SEQ);
            (TraceId(tid), None)
        };
        let location = match code_path {
            Some(cp) => Some(Location::UnknownLocation(to_owned_string(cp))),
            None => None,
        };
        let kind_owned = match kind {
            Some(k) => Some(to_owned_string(k)),
            None => None,
        };
        let span = Span {
            trace_id,
            span_id,
            parent_span_id: parent,
            name: to_owned_string(name),
            kind: kind_owned,
            location,
            start_time: Timestamp(now),
            end_time: None,
            attributes: initial_attributes,
            events: Vec::new(),
            status: SpanStatus::Running,
        };
        assert(span@.events =~= Seq::<EventView>::empty());
        self.put_span(span);
        self.span_stack.push(span_id);
        proof {
            assert(self.stack() =~= old(self).stack().push(span_seq));
            assert forall|i: int| 0 <= i < self.stack().len() implies self.spans().dom().contains(
                #[trigger] self.stack()[i],
            ) by {
                if i < old(self).stack().len() {
                    assert(self.stack()[i] == old(self).stack()[i]);
                }
            }
        }
        (span_id, trace_id)
    }

    /// Starts a span at the current time (see `start_span_at`).
    pub fn start_span(
        &mut self,
        name: &str,
        kind: Option<&str>,
        code_path: Option<&str>,
        initial_attributes: Option<Vec<Attribute>>,
    ) -> (r: (SpanId, TraceId))
        requires
            old(self).wf(),
        ensures
            final(self).wf(),
            r.0.0 == old(self).spec_next_span_seq(),
            final(self).spec_next_span_seq() == next_seq(old(self).spec_next_span_seq()),
            final(self).spec_tracer_id() == old(self).spec_tracer_id(),
            final(self).stack() == old(self).stack().push(r.0.0),
            old(self).stack().len() > 0 ==> r.1.0 == old(self).spans()[old(self).stack().last()].trace_id
                && final(self).spec_next_trace_seq() == old(self).spec_next_trace_seq(),
            old(self).stack().len() == 0 ==> r.1.0 == trace_id_for(
                old(self).spec_tracer_id(),
                old(self).spec_next_trace_seq(),
            ) && final(self).spec_next_trace_seq() == next_seq(old(self).spec_next_trace_seq()),
            exists|now: u128|
                final(self).spans() == started_spans(
                    old(self).spans(),
                    old(self).stack(),
                    r.0.0,
                    #[trigger] new_span_view(
                    r.1.0,
                    r.0.0,
                    stack_top(old(self).stack()),
                    name@,
                    kind,
                    code_path,
                    now,
                    opt_attrs_view(initial_attributes),
                    ),
                ),
    {
        let now = Timestamp::now();
        let ghost attrs = opt_attrs_view(initial_attributes);
        let r = self.start_span_at(name, kind, code_path, initial_attributes, now.0);
        assert(self.spans() == started_spans(old(self).spans(), old(self).stack(), r.0.0, new_span_view(
            r.1.0,
            r.0.0,
            stack_top(old(self).stack()),
            name@,
            kind,
            code_path,
            now.0,
            attrs,
        )));
        r
    }

    /// The id of the active span.
    pub fn active_id(&self) -> (r: Option<SpanId>)
        ensures
            match r {
                Some(id) => self.stack().len() > 0 && id.0 == self.stack().last(),
                None => self.stack().len() == 0,
            },
    {
        if self.span_stack.len() > 0 {
            Some(self.span_stack[self.span_stack.len() - 1])
        } else {
            None
        }
    }

    /// Adds an attribute to the active span, unless it has ended. Without an
    /// active span nothing changes.
    pub fn add_attr(&mut self, key: &str, value: Ele)
        requires
            old(self).wf(),
        ensures
            final(self).wf(),
            final(self).stack() == old(self).stack(),
            final(self).spec_tracer_id() == old(self).spec_tracer_id(),
            final(self).spec_next_trace_seq() == old(self).spec_next_trace_seq(),
            final(self).spec_next_span_seq() == old(self).spec_next_span_seq(),
            old(self).stack().len() == 0 ==> final(self).spans() == old(self).spans(),
            old(self).stack().len() > 0 ==> {
                let id = old(self).stack().last();
                final(self).spans() == old(self).spans().insert(
                    id,
                    span_with_attr(old(self).spans()[id], (key@, value@)),
                )
            },
    {
        if self.span_stack.len() == 0 {
            return;
        }
        let id = self.span_stack[self.span_stack.len() - 1];
        proof {
            assert(self.stack()[self.stack().len() - 1] == id.0);
        }
        let i = self.index_of_stacked(id);
        let mut span = self.spans[i].duplicate();
        if span.end_time.is_none() {
            let a = attr(key, value);
            let ghost av = a@;
            let attrs = match span.attributes {
                Some(v) => {
                    let mut v = v;
                    let ghost before = attrs_view(v@);
                    v.push(a);
                    assert(attrs_view(v@) =~= before.push(av));
                    v
                },
                None => {
                    let mut v: Vec<Attribute> = Vec::new();
                    v.push(a);
                    assert(attrs_view(v@) =~= seq![av]);
                    v
                },
            };
            span.attributes = Some(attrs);
            self.put_span(span);
        } else {
            self.put_span(span);
        }
        proof {
            self.lemma_stack_kept(*old(self));
        }
    }

    /// Adds an event named `name` at time `now` to the active span, unless it
    /// has ended. Without an active span nothing changes.
    pub fn add_event_at(&mut self, name: &str, attributes: Option<Vec<Attribute>>, now: u128)
        requires
            old(self).wf(),
        ensures
            final(self).wf(),
            final(self).stack() == old(self).stack(),
            final(self).spec_tracer_id() == old(self).spec_tracer_id(),
            final(self).spec_next_trace_seq() == old(self).spec_next_trace_seq(),
            final(self).spec_next_span_seq() == old(self).spec_next_span_seq(),
            old(self).stack().len() == 0 ==> final(self).spans() == old(self).spans(),
            old(self).stack().len() > 0 ==> {
                let id = old(self).stack().last();
                final(self).spans() == old(self).spans().insert(
                    id,
                    span_with_event(
                        old(self).spans()[id],
                        EventView {
                            name: Some(name@),
                            location: None,
                            timestamp: now,
                            attributes: opt_attrs_view(attributes),
                        },
                    ),
                )
            },
    {
        if self.span_stack.len() == 0 {
            return;
        }
        let id = self.span_stack[self.span_stack.len() - 1];
        proof {
            assert(self.stack()[self.stack().len() - 1] == id.0);
        }
        let i = self.index_of_stacked(id);
        let mut span = self.spans[i].duplicate();
        if span.end_time.is_none() {
            let ev = Event {
                name: Some(to_owned_string(name)),
                location: None,
                timestamp: Timestamp(now),
                attributes,
            };
            let ghost evv = ev@;
            let ghost before = events_view(span.events@);
            span.events.push(ev);
            assert(events_view(span.events@) =~= before.push(evv));
            self.put_span(span);
        } else {
            self.put_span(span);
        }
        proof {
            self.lemma_stack_kept(*old(self));
        }
    }

    /// Adds an event at the current time (see `add_event_at`).
    pub fn add_event(&mut self, name: &str, attributes: Option<Vec<Attribute>>)
        requires
            old(self).wf(),
        ensures
            final(self).wf(),
            final(self).stack() == old(self).stack(),
            final(self).spec_next_trace_seq() == old(self).spec_next_trace_seq(),
            final(self).spec_next_span_seq() == old(self).spec_next_span_seq(),
            old(self).stack().len() == 0 ==> final(self).spans() == old(self).spans(),
            old(self).stack().len() > 0 ==> exists|now: u128|
                final(self).spans() == old(self).spans().insert(
                    old(self).stack().last(),
                    span_with_event(
                        old(self).spans()[old(self).stack().last()],
                        #[trigger] event_at(name@, now, opt_attrs_view(attributes)),
                    ),
                ),
    {
        let now = Timestamp::now();
        let ghost attrs = opt_attrs_view(attributes);
        self.add_event_at(name, attributes, now.0);
        assert(event_at(name@, now.0, attrs) == EventView {
            name: Some(name@),
            location: None,
            timestamp: now.0,
            attributes: attrs,
        });
    }

    /// Ends the active span at time `now` with status `final_status`; its
    /// parent, if open, runs again. Without an active span nothing changes.
    pub fn end_span_at(&mut self, final_status: SpanStatus, now: u128)
        requires
            old(self).wf(),
        ensures
            final(self).wf(),
            final(self).spec_tracer_id() == old(self).spec_tracer_id(),
            final(self).spec_next_trace_seq() == old(self).spec_next_trace_seq(),
            final(self).spec_next_span_seq() == old(self).spec_next_span_seq(),
            old(self).stack().len() == 0 ==> final(self).stack() == old(self).stack() && final(self).spans() == old(self).spans(),
            old(self).stack().len() > 0 ==> final(self).stack() == old(self).stack().drop_last()
                && final(self).spans() == ended_spans(
                old(self).spans(),
                old(self).stack(),
                now,
                final_status@,
            ),
    {
        if self.span_stack.len() == 0 {
            return;
        }
        let ghost old_stack = self.stack();
        let id = self.span_stack.pop().unwrap();
        proof {
            assert(old_stack.last() == id.0);
            assert(self.stack() =~= old_stack.drop_last());
        }
        let i = match self.find_index(id.0) {
            Some(i) => i,
            None => {
                proof {
                    assert(old(self).stack()[old(self).stack().len() - 1] == id.0);
                    let j = choose|j: int| 0 <= j < self.span_pairs().len() && self.span_pairs()[j].0 == id.0;
                    assert(false);
                }
                0
            },
        };
        proof {
            lemma_keyed_at(self.span_pairs(), i as int);
        }
        let mut ended = self.spans[i].duplicate();
        ended.end_time = Some(Timestamp(now));
        ended.status = final_status;
        self.put_span(ended);
        let ghost s1 = self.spans();
        if self.span_stack.len() > 0 {
            let pid = self.span_stack[self.span_stack.len() - 1];
            proof {
                assert(self.stack()[self.stack().len() - 1] == pid.0);
                assert(old_stack[old_stack.len() - 2] == pid.0);
                assert(old(self).spans().dom().contains(old_stack[old_stack.len() - 2]));
            }
            let j = self.index_of_stacked(pid);
            let mut parent = self.spans[j].duplicate();
            if matches!(parent.status, SpanStatus::Open) {
                parent.status = SpanStatus::Running;
            }
            assert(parent@ == parent_resumed(s1[pid.0]));
            self.put_span(parent);
        }
        proof {
            assert forall|k: int| 0 <= k < self.stack().len() implies self.spans().dom().contains(
                #[trigger] self.stack()[k],
            ) by {
                assert(self.stack()[k] == old_stack[k]);
                assert(old(self).spans().dom().contains(old_stack[k]));
            }
        }
    }

    /// Ends the active span at the current time (see `end_span_at`).
    pub fn end_span(&mut self, final_status: SpanStatus)
        requires
            old(self).wf(),
        ensures
            final(self).wf(),
            final(self).spec_next_trace_seq() == old(self).spec_next_trace_seq(),
            final(self).spec_next_span_seq() == old(self).spec_next_span_seq(),
            old(self).stack().len() == 0 ==> final(self).stack() == old(self).stack() && final(self).spans() == old(self).spans(),
            old(self).stack().len() > 0 ==> final(self).stack() == old(self).stack().drop_last()
                && exists|now: u128|
                final(self).spans() == #[trigger] ended_spans(
                    old(self).spans(),
                    old(self).stack(),
                    now,
                    final_status@,
                ),
    {
        let now = Timestamp::now();
        let ghost st = final_status@;
        self.end_span_at(final_status, now.0);
        proof {
            if old(self).stack().len() > 0 {
                assert(self.spans() == ended_spans(old(self).spans(), old(self).stack(), now.0, st));
            }
        }
    }

    /// Where an id of the stack is stored.
    fn index_of_stacked(&self, id: SpanId) -> (r: usize)
        requires
            distinct_keys(self.span_pairs()),
            self.spans().dom().contains(id.0),
        ensures
            r < self.spans@.len(),
            self.span_pairs()[r as int].0 == id.0,
            self.spans()[id.0] == self.spans@[r as int]@,
    {
        match self.find_index(id.0) {
            Some(i) => {
                proof {
                    lemma_keyed_at(self.span_pairs(), i as int);
                }
                i
            },
            None => {
                proof {
                    let j = choose|j: int| 0 <= j < self.span_pairs().len() && self.span_pairs()[j].0 == id.0;
                    assert(false);
                }
                0
            },
        }
    }

    /// Storing spans keeps the stack covered when the keys only grow.
    proof fn lemma_stack_kept(&self, before: Self)
        requires
            before.wf(),
            distinct_keys(self.span_pairs()),
            self.stack() == before.stack(),
            before.spans().dom().subset_of(self.spans().dom()),
        ensures
            self.wf(),
    {
        assert forall|i: int| 0 <= i < self.stack().len() implies self.spans().dom().contains(
            #[trigger] self.stack()[i],
        ) by {
            assert(before.spans().dom().contains(before.stack()[i]));
        }
    }

    /// Copies of the active span and its open ancestors, oldest first.
    pub fn active_spans(&self) -> (r: Vec<Span>)
        requires
            self.wf(),
        ensures
            r@.len() == self.stack().len(),
            forall|i: int| 0 <= i < r@.len() ==> #[trigger] r@[i]@ == self.spans()[self.stack()[i]],
    {
        let mut r: Vec<Span> = Vec::new();
        let mut k: usize = 0;
        while k < self.span_stack.len()
            invariant
                self.wf(),
                k <= self.span_stack@.len(),
                r@.len() == k,
                forall|i: int| 0 <= i < k ==> #[trigger] r@[i]@ == self.spans()[self.stack()[i]],
            decreases self.span_stack.len() - k,
        {
            let id = self.span_stack[k];
            proof {
                assert(self.stack()[k as int] == id.0);
            }
            let i = self.index_of_stacked(id);
            r.push(self.spans[i].duplicate());
            k = k + 1;
        }
        r
    }

    /// Copies of every recorded span.
    pub fn all_spans(&self) -> (r: Vec<Span>)
        requires
            self.wf(),
        ensures
            r@.len() == self.spans().dom().len(),
            forall|i: int|
                0 <= i < r@.len() ==> self.spans().dom().contains((#[trigger] r@[i])@.span_id)
                    && self.spans()[r@[i]@.span_id] == r@[i]@,
            forall|id: u64| #[trigger]
                self.spans().dom().contains(id) ==> exists|i: int| 0 <= i < r@.len() && r@[i]@.span_id == id,
    {
        proof {
            crate::keyed::lemma_keyed_len(self.span_pairs());
        }
        let mut r: Vec<Span> = Vec::new();
        let mut k: usize = 0;
        while k < self.spans.len()
            invariant
                self.wf(),
                k <= self.spans@.len(),
                r@.len() == k,
                forall|i: int| 0 <= i < k ==> (#[trigger] r@[i])@ == self.span_pairs()[i].1 && r@[i]@.span_id == self.span_pairs()[i].0,
            decreases self.spans.len() - k,
        {
            r.push(self.spans[k].duplicate());
            k = k + 1;
        }
        proof {
            assert forall|i: int| 0 <= i < r@.len() implies self.spans().dom().contains(
                (#[trigger] r@[i])@.span_id,
            ) && self.spans()[r@[i]@.span_id] == r@[i]@ by {
                assert(r@[i]@ == self.span_pairs()[i].1);
                lemma_keyed_at(self.span_pairs(), i);
            }
            assert forall|id: u64| #[trigger] self.spans().dom().contains(id) implies exists|i: int|
                0 <= i < r@.len() && r@[i]@.span_id == id by {
                let j = choose|j: int| 0 <= j < self.span_pairs().len() && self.span_pairs()[j].0 == id;
                assert(r@[j]@ == self.span_pairs()[j].1);
            }
        }
        r
    }

    /// A copy of the active span, if there is one.
    pub fn current_span(&self) -> (r: Option<Span>)
        requires
            self.wf(),
        ensures
            match r {
                Some(s) => self.stack().len() > 0 && s@ == self.spans()[self.stack().last()],
                None => self.stack().len() == 0,
            },
    {
        if self.span_stack.len() == 0 {
            return None;
        }
        let id = self.span_stack[self.span_stack.len() - 1];
        proof {
            assert(self.stack()[self.stack().len() - 1] == id.0);
        }
        let i = self.index_of_stacked(id);
        Some(self.spans[i].duplicate())
    }

    /// Copies of the active span and its open ancestors, oldest first.
    pub fn list_spans(&self) -> (r: Vec<Span>)
        requires
            self.wf(),
        ensures
            r@.len() == self.stack().len(),
            forall|i: int| 0 <= i < r@.len() ==> #[trigger] r@[i]@ == self.spans()[self.stack()[i]],
            forall|i: int| 0 <= i < r@.len() ==> (#[trigger] r@[i]).span_id.0 == self.stack()[i],
    {
        let r = self.active_spans();
        proof {
            assert forall|i: int| 0 <= i < r@.len() implies (#[trigger] r@[i]).span_id.0 == self.stack()[i] by {
                let k = self.stack()[i];
                assert(self.spans().dom().contains(k));
                let j = choose|j: int| 0 <= j < self.span_pairs().len() && self.span_pairs()[j].0 == k;
                lemma_keyed_at(self.span_pairs(), j);
                assert(self.span_pairs()[j] == (self.spans@[j].span_id.0, self.spans@[j]@));
                assert(self.spans()[k].span_id == k);
                assert(r@[i]@ == self.spans()[k]);
                assert(r@[i]@.span_id == r@[i].span_id.0);
            }
        }
        r
    }
}

/// The value of a span that starts now.
pub open spec fn new_span_view(
    trace_id: u128,
    span_id: u64,
    parent: Option<u64>,
    name: Seq<char>,
    kind: Option<&str>,
    code_path: Option<&str>,
    now: u128,
    attributes: Option<Seq<(Seq<char>, EleView)>>,
) -> SpanView {
    SpanView {
        trace_id,
        span_id,
        parent_span_id: parent,
        name,
        kind: match kind {
            Some(k) => Some(k@),
            None => None,
        },
        location: match code_path {
            Some(c) => Some(LocationView::UnknownLocation(c@)),
            None => None,
        },
        start_time: now,
        end_time: None,
        attributes,
        events: Seq::empty(),
        status: SpanStatusView::Running,
    }
}

/// An event with a name, at a time, without a location.
pub open spec fn event_at(name: Seq<char>, now: u128, attributes: Option<Seq<(Seq<char>, EleView)>>) -> EventView {
    EventView { name: Some(name), location: None, timestamp: now, attributes }
}

/// The spans after the top of `stack` ends at `now` with `status` and its
/// parent, if open, runs again.
pub open spec fn ended_spans(spans: Map<u64, SpanView>, stack: Seq<u64>, now: u128, status: SpanStatusView) -> Map<u64, SpanView> {
    let id = stack.last();
    let s1 = spans.insert(id, span_closed(spans[id], now, status));
    if stack.len() >= 2 {
        let p = stack[stack.len() - 2];
        s1.insert(p, parent_resumed(s1[p]))
    } else {
        s1
    }
}

/// The spans after a span `v` with id `id` starts on top of `stack`: the
/// previous top, if running, becomes open.
pub open spec fn started_spans(spans: Map<u64, SpanView>, stack: Seq<u64>, id: u64, v: SpanView) -> Map<u64, SpanView> {
    if stack.len() > 0 {
        spans.insert(stack.last(), parent_opened(spans[stack.last()])).insert(id, v)
    } else {
        spans.insert(id, v)
    }
}

/// The stack holds distinct ids, its top span runs and every span below it is
/// open.
pub open spec fn nested(spans: Map<u64, SpanView>, stack: Seq<u64>) -> bool {
    &&& forall|i: int, j: int| 0 <= i < j < stack.len() ==> #[trigger] stack[i] != #[trigger] stack[j]
    &&& forall|i: int| 0 <= i < stack.len() ==> spans.dom().contains(#[trigger] stack[i])
    &&& forall|i: int| 0 <= i < stack.len() - 1 ==> #[trigger] spans[stack[i]].status == SpanStatusView::Open
    &&& stack.len() > 0 ==> spans[stack.last()].status == SpanStatusView::Running
}

/// Starting a span with an id not on the stack keeps the stack nested: the new
/// span runs and the previous top is open.
pub proof fn law_start_span_keeps_nesting(spans: Map<u64, SpanView>, stack: Seq<u64>, id: u64, v: SpanView)
    requires
        nested(spans, stack),
        !stack.contains(id),
        v.status == SpanStatusView::Running,
    ensures
        nested(started_spans(spans, stack, id, v), stack.push(id)),
{
    let s2 = started_spans(spans, stack, id, v);
    let st2 = stack.push(id);
    assert forall|i: int, j: int| 0 <= i < j < st2.len() implies #[trigger] st2[i] != #[trigger] st2[j] by {
        if j == stack.len() {
            assert(stack[i] == st2[i]);
            if stack[i] == id {
                assert(stack.contains(id));
            }
        } else {
            assert(st2[i] == stack[i] && st2[j] == stack[j]);
        }
    }
    assert forall|i: int| 0 <= i < st2.len() - 1 implies #[trigger] s2[st2[i]].status == SpanStatusView::Open by {
        assert(st2[i] == stack[i]);
        if stack[i] == id {
            assert(stack.contains(id));
        }
        if i < stack.len() - 1 {
            assert(stack[i] != stack.last()) by {
                assert(stack[i] != stack[stack.len() - 1]);
            }
        }
    }
    assert forall|i: int| 0 <= i < st2.len() implies s2.dom().contains(#[trigger] st2[i]) by {
        if i < stack.len() {
            assert(st2[i] == stack[i]);
        }
    }
}

/// Ending the top span keeps the stack nested: its parent runs again.
pub proof fn law_end_span_keeps_nesting(spans: Map<u64, SpanView>, stack: Seq<u64>, now: u128, status: SpanStatusView)
    requires
        nested(spans, stack),
        stack.len() > 0,
    ensures
        nested(ended_spans(spans, stack, now, status), stack.drop_last()),
{
    let s2 = ended_spans(spans, stack, now, status);
    let st2 = stack.drop_last();
    assert forall|i: int, j: int| 0 <= i < j < st2.len() implies #[trigger] st2[i] != #[trigger] st2[j] by {
        assert(st2[i] == stack[i] && st2[j] == stack[j]);
    }
    assert forall|i: int| 0 <= i < st2.len() implies s2.dom().contains(#[trigger] st2[i]) by {
        assert(st2[i] == stack[i]);
    }
    assert forall|i: int| 0 <= i < st2.len() - 1 implies #[trigger] s2[st2[i]].status == SpanStatusView::Open by {
        assert(st2[i] == stack[i]);
        assert(stack[i] != stack[stack.len() - 1]);
        assert(stack[i] != stack[stack.len() - 2]);
    }
    if st2.len() > 0 {
        assert(st2.last() == stack[stack.len() - 2]);
        assert(stack[stack.len() - 2] != stack[stack.len() - 1]);
        assert(spans[stack[stack.len() - 2]].status == SpanStatusView::Open);
    }
}

/// Starting a span and then ending it gives back the stack as it was.
pub proof fn law_start_then_end_restores_stack(stack: Seq<u64>, id: u64)
    ensures
        stack.push(id).drop_last() == stack,
        stack.push(id).last() == id,
{
    assert(stack.push(id).drop_last() =~= stack);
}

/// An ended span takes no more attributes or events.
pub proof fn law_ended_span_is_frozen(s: SpanView, a: (Seq<char>, EleView), e: EventView)
    requires
        s.end_time is Some,
    ensures
        span_with_attr(s, a) == s,
        span_with_event(s, e) == s,
{
}

/// The top of a stack, if any.
pub open spec fn stack_top(s: Seq<u64>) -> Option<u64> {
    if s.len() > 0 {
        Some(s.last())
    } else {
        None
    }
}

} // verus!
