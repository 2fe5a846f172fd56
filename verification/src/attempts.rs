//! Request attempts: the state of each step of a session, and the samples that settled attempts
//! leave behind.

use crate::fields::{
    clone_route, route_at, step_key, timestamp_at, Route, RouteView, StepKey, TimestampMs,
};
use crate::json::{Json, JsonTree};
use crate::text::same_text;
use crate::usage::{stream_usage, usage_at, usage_from_value, ParsedUsage};
use crate::{fields, json, text, usage};
use std::collections::HashMap;
use vstd::prelude::*;

verus! {

broadcast use vstd::std_specs::hash::group_hash_axioms;

/// The current attempt of a step.
#[derive(Debug)]
pub struct AttemptState {
    pub index: u32,
    pub timestamp: TimestampMs,
    pub usage: Option<ParsedUsage>,
    pub route: Option<Route>,
    pub closed: bool,
}

/// The model of an [`AttemptState`].
pub struct AttemptView {
    pub index: u32,
    pub timestamp: TimestampMs,
    pub usage: Option<ParsedUsage>,
    pub route: Option<RouteView>,
    pub closed: bool,
}

impl View for AttemptState {
    type V = AttemptView;

    open spec fn view(&self) -> AttemptView {
        AttemptView {
            index: self.index,
            timestamp: self.timestamp,
            usage: self.usage,
            route: fields::route_view(self.route),
            closed: self.closed,
        }
    }
}

/// A settled attempt that reported its usage.
#[derive(Debug)]
pub struct AttemptSample {
    pub key: StepKey,
    pub index: u32,
    pub timestamp: TimestampMs,
    pub usage: ParsedUsage,
    pub route: Option<Route>,
}

/// The model of an [`AttemptSample`].
pub struct SampleView {
    pub key: StepKey,
    pub index: u32,
    pub timestamp: TimestampMs,
    pub usage: ParsedUsage,
    pub route: Option<RouteView>,
}

impl View for AttemptSample {
    type V = SampleView;

    open spec fn view(&self) -> SampleView {
        SampleView {
            key: self.key,
            index: self.index,
            timestamp: self.timestamp,
            usage: self.usage,
            route: fields::route_view(self.route),
        }
    }
}

/// The models of a sequence of samples.
pub open spec fn sample_views(samples: Seq<AttemptSample>) -> Seq<SampleView> {
    Seq::new(samples.len(), |i: int| samples[i]@)
}

/// The number under which a step is kept.
pub open spec fn step_code(key: StepKey) -> u128 {
    (key.turn * 0x1_0000_0000_0000_0000 + key.step) as u128
}

fn code_of_step(key: StepKey) -> (r: u128)
    ensures
        r == step_code(key),
{
    (key.turn as u128) * 0x1_0000_0000_0000_0000 + (key.step as u128)
}

/// The current attempt of each step that is under way.
#[derive(Debug)]
pub struct StepTable {
    entries: HashMap<u128, AttemptState>,
}

impl View for StepTable {
    type V = Map<StepKey, AttemptView>;

    closed spec fn view(&self) -> Map<StepKey, AttemptView> {
        Map::new(
            |key: StepKey| self.entries@.contains_key(step_code(key)),
            |key: StepKey| self.entries@[step_code(key)]@,
        )
    }
}

impl StepTable {
    /// A table without steps.
    pub fn new() -> (r: StepTable)
        ensures
            r@ == Map::<StepKey, AttemptView>::empty(),
    {
        let r = StepTable { entries: HashMap::new() };
        assert(r@ =~= Map::<StepKey, AttemptView>::empty());
        r
    }

    /// Takes the attempt of a step out of the table.
    pub fn take(&mut self, key: StepKey) -> (r: Option<AttemptState>)
        ensures
            match r {
                Some(state) => old(self)@.contains_key(key) && state@ == old(self)@[key],
                None => !old(self)@.contains_key(key),
            },
            final(self)@ == old(self)@.remove(key),
    {
        let code = code_of_step(key);
        let r = self.entries.remove(&code);
        assert(self@ =~= old(self)@.remove(key));
        r
    }

    /// Makes `state` the attempt of a step.
    pub fn put(&mut self, key: StepKey, state: AttemptState)
        ensures
            final(self)@ == old(self)@.insert(key, state@),
    {
        let code = code_of_step(key);
        self.entries.insert(code, state);
        assert(self@ =~= old(self)@.insert(key, state@));
    }

    /// The index of the attempt of a step.
    pub fn index_of(&self, key: StepKey) -> (r: Option<u32>)
        ensures
            r == if self@.contains_key(key) {
                Some(self@[key].index)
            } else {
                None
            },
    {
        let code = code_of_step(key);
        match self.entries.get(&code) {
            Some(state) => Some(state.index),
            None => None,
        }
    }
}

// ---------------------------------------------------------------------------------------------
// The ledger of a session
// ---------------------------------------------------------------------------------------------

/// What the records read so far amount to: the route in force, the steps under way, and the
/// samples of settled attempts, oldest first.
#[derive(Debug)]
pub struct Ledger {
    pub route: Option<Route>,
    pub states: StepTable,
    pub samples: Vec<AttemptSample>,
}

/// The model of a [`Ledger`].
pub struct LedgerView {
    pub route: Option<RouteView>,
    pub states: Map<StepKey, AttemptView>,
    pub samples: Seq<SampleView>,
}

impl View for Ledger {
    type V = LedgerView;

    open spec fn view(&self) -> LedgerView {
        LedgerView {
            route: fields::route_view(self.route),
            states: self.states@,
            samples: sample_views(self.samples@),
        }
    }
}

/// The kinds of records that bear on usage.
#[derive(Clone, Copy, Debug, PartialEq, Eq, Structural)]
pub enum EventKind {
    RequestHeader,
    RequestContext,
    StepStart,
    RetryStarted,
    Chunk,
    Attempt,
    Message,
    Retry,
    StepEnd,
    Other,
}

/// The kind that a record's `type` names.
pub open spec fn kind_of(name: Seq<char>) -> EventKind {
    if name == "request/header"@ {
        EventKind::RequestHeader
    } else if name == "request/context"@ {
        EventKind::RequestContext
    } else if name == "step/start"@ {
        EventKind::StepStart
    } else if name == "llm/retry-started"@ {
        EventKind::RetryStarted
    } else if name == "assistant/chunk"@ {
        EventKind::Chunk
    } else if name == "assistant/attempt"@ {
        EventKind::Attempt
    } else if name == "assistant/message"@ {
        EventKind::Message
    } else if name == "llm/retry"@ {
        EventKind::Retry
    } else if name == "step/end"@ {
        EventKind::StepEnd
    } else {
        EventKind::Other
    }
}

/// An attempt that has reported nothing yet.
pub open spec fn fresh_attempt(
    index: u32,
    timestamp: TimestampMs,
    route: Option<RouteView>,
) -> AttemptView {
    AttemptView { index, timestamp, usage: None, route, closed: false }
}

/// `first`, or `second` where there is no `first`.
pub open spec fn or_else<T>(first: Option<T>, second: Option<T>) -> Option<T> {
    if first is Some {
        first
    } else {
        second
    }
}

/// The index of the attempt after the one that `states` holds for `key`.
pub open spec fn next_index(states: Map<StepKey, AttemptView>, key: StepKey) -> u32 {
    if states.contains_key(key) {
        if states[key].index < u32::MAX {
            (states[key].index + 1) as u32
        } else {
            u32::MAX
        }
    } else {
        0
    }
}

impl LedgerView {
    /// The attempt of a step; one that was never started starts now.
    pub open spec fn attempt(
        self,
        key: StepKey,
        time: TimestampMs,
        route: Option<RouteView>,
    ) -> AttemptView {
        if self.states.contains_key(key) {
            self.states[key]
        } else {
            fresh_attempt(0, time, route)
        }
    }

    /// The ledger in which `state` is the attempt of a step.
    pub open spec fn with_attempt(self, key: StepKey, state: AttemptView) -> LedgerView {
        LedgerView { states: self.states.insert(key, state), ..self }
    }

    /// Starts an attempt of a step in place of the one before.
    pub open spec fn started(self, key: StepKey, index: u32, time: TimestampMs) -> LedgerView {
        self.with_attempt(key, fresh_attempt(index, time, self.route))
    }

    /// Notes usage that was streamed. It counts only if nothing replaces it before the attempt
    /// settles, and not at all after.
    pub open spec fn streamed(
        self,
        key: StepKey,
        time: TimestampMs,
        usage: ParsedUsage,
    ) -> LedgerView {
        let state = self.attempt(key, time, self.route);
        if state.closed {
            self
        } else {
            self.with_attempt(key, AttemptView { usage: Some(usage), ..state })
        }
    }

    /// Forgets the usage that the attempt of a step has reported, if the step is under way.
    pub open spec fn discarded(self, key: StepKey) -> LedgerView {
        if self.states.contains_key(key) {
            self.with_attempt(key, AttemptView { usage: None, ..self.states[key] })
        } else {
            self
        }
    }

    /// Settles the attempt of a step, once: `usage` and `route` replace what the attempt had, and
    /// an attempt with usage leaves a sample.
    pub open spec fn settled(
        self,
        key: StepKey,
        time: TimestampMs,
        usage: Option<ParsedUsage>,
        route: Option<RouteView>,
    ) -> LedgerView {
        let state = self.attempt(key, time, route);
        if state.closed {
            self
        } else {
            let last = AttemptView {
                usage: or_else(usage, state.usage),
                route: or_else(route, state.route),
                closed: true,
                ..state
            };
            LedgerView {
                states: self.states.insert(key, last),
                samples: match last.usage {
                    Some(usage) => self.samples.push(
                        SampleView {
                            key,
                            index: last.index,
                            timestamp: last.timestamp,
                            usage,
                            route: last.route,
                        },
                    ),
                    None => self.samples,
                },
                ..self
            }
        }
    }

    /// Settles the attempt of a step with its final message. Usage that the message states itself
    /// replaces any other, also where it is invalid: then the attempt has none.
    pub open spec fn answered(self, key: StepKey, data: JsonTree, time: TimestampMs) -> LedgerView {
        let route = or_else(fields::route_of(data, seq!["message"@, "source"@]), self.route);
        match data.member("usage"@) {
            Some(stated) => match usage::usage_of(Some(stated)) {
                Some(usage) => self.settled(key, time, Some(usage), route),
                None => self.discarded(key).settled(key, time, None, route),
            },
            None => self.settled(
                key,
                time,
                usage::last_usage_in(data.member("stream"@)),
                route,
            ),
        }
    }

    /// The ledger after a record of the given kind on a step.
    pub open spec fn after_step_event(
        self,
        kind: EventKind,
        key: StepKey,
        data: JsonTree,
        time: TimestampMs,
    ) -> LedgerView {
        match kind {
            EventKind::StepStart => self.started(key, 0, time),
            EventKind::RetryStarted => self.started(key, next_index(self.states, key), time),
            EventKind::Chunk => match usage::usage_at_path(data, seq!["chunk"@]) {
                Some(usage) => self.streamed(key, time, usage),
                None => self,
            },
            EventKind::Attempt => self.settled(
                key,
                time,
                usage::last_usage_in(data.member("stream"@)),
                self.route,
            ),
            EventKind::Message => self.answered(key, data, time),
            EventKind::Retry => self.settled(key, time, None, self.route),
            EventKind::StepEnd => {
                let done = self.settled(key, time, None, self.route);
                LedgerView { states: done.states.remove(key), ..done }
            },
            _ => self,
        }
    }

    /// The ledger after a record of the given kind.
    pub open spec fn after_event(
        self,
        kind: EventKind,
        data: JsonTree,
        time: TimestampMs,
    ) -> LedgerView {
        match kind {
            EventKind::RequestHeader => LedgerView {
                route: fields::route_of(data, seq!["header"@, "config"@]),
                ..self
            },
            EventKind::RequestContext => LedgerView {
                route: fields::route_of(data, Seq::empty()),
                ..self
            },
            _ => match fields::key_of(data) {
                Some(key) => self.after_step_event(kind, key, data, time),
                None => self,
            },
        }
    }

    /// The ledger after a record. A record without a time of its own counts from `created_at`;
    /// one without `type` or `data` changes nothing.
    pub open spec fn after_record(self, record: JsonTree, created_at: TimestampMs) -> LedgerView {
        match (record.member_text("type"@), record.member("data"@)) {
            (Some(name), Some(data)) => {
                let time = match fields::time_at(record, seq!["time"@]) {
                    Some(time) => time,
                    None => created_at,
                };
                self.after_event(kind_of(name), data, time)
            },
            _ => self,
        }
    }

    /// The ledger after a sequence of records.
    pub open spec fn after_records(
        self,
        records: Seq<JsonTree>,
        created_at: TimestampMs,
    ) -> LedgerView
        decreases records.len(),
    {
        if records.len() == 0 {
            self
        } else {
            self.after_records(records.drop_last(), created_at).after_record(
                records.last(),
                created_at,
            )
        }
    }
}

/// The ledger before any record.
pub open spec fn empty_ledger() -> LedgerView {
    LedgerView { route: None, states: Map::empty(), samples: Seq::empty() }
}

fn event_kind(name: &str) -> (r: EventKind)
    ensures
        r == kind_of(name@),
{
    if same_text(name, "request/header") {
        EventKind::RequestHeader
    } else if same_text(name, "request/context") {
        EventKind::RequestContext
    } else if same_text(name, "step/start") {
        EventKind::StepStart
    } else if same_text(name, "llm/retry-started") {
        EventKind::RetryStarted
    } else if same_text(name, "assistant/chunk") {
        EventKind::Chunk
    } else if same_text(name, "assistant/attempt") {
        EventKind::Attempt
    } else if same_text(name, "assistant/message") {
        EventKind::Message
    } else if same_text(name, "llm/retry") {
        EventKind::Retry
    } else if same_text(name, "step/end") {
        EventKind::StepEnd
    } else {
        EventKind::Other
    }
}

impl Ledger {
    /// The ledger before any record.
    pub fn new() -> (r: Ledger)
        ensures
            r@ == empty_ledger(),
    {
        let r = Ledger { route: None, states: StepTable::new(), samples: Vec::new() };
        assert(r@.samples =~= Seq::empty());
        r
    }

    /// Starts an attempt of a step in place of the one before.
    fn start(&mut self, key: StepKey, index: u32, time: TimestampMs)
        ensures
            final(self)@ == old(self)@.started(key, index, time),
    {
        let route = clone_route(&self.route);
        self.states.put(
            key,
            AttemptState { index, timestamp: time, usage: None, route, closed: false },
        );
    }

    /// Takes the attempt of a step; one that was never started starts now.
    fn take_attempt(&mut self, key: StepKey, time: TimestampMs, route: &Option<Route>) -> (r:
        AttemptState)
        ensures
            r@ == old(self)@.attempt(key, time, fields::route_view(*route)),
            final(self)@ == (LedgerView { states: old(self)@.states.remove(key), ..old(self)@ }),
    {
        match self.states.take(key) {
            Some(state) => state,
            None => AttemptState {
                index: 0,
                timestamp: time,
                usage: None,
                route: clone_route(route),
                closed: false,
            },
        }
    }

    /// Notes usage that was streamed.
    fn stream(&mut self, key: StepKey, time: TimestampMs, usage: ParsedUsage)
        ensures
            final(self)@ == old(self)@.streamed(key, time, usage),
    {
        let route = clone_route(&self.route);
        let mut state = self.take_attempt(key, time, &route);
        if !state.closed {
            state.usage = Some(usage);
        }
        self.states.put(key, state);
        assert(self@.states =~= old(self)@.streamed(key, time, usage).states);
    }

    /// Forgets the usage that the attempt of a step has reported.
    fn discard(&mut self, key: StepKey)
        ensures
            final(self)@ == old(self)@.discarded(key),
    {
        if let Some(state) = self.states.take(key) {
            let mut state = state;
            state.usage = None;
            self.states.put(key, state);
        }
        assert(self@.states =~= old(self)@.discarded(key).states);
    }

    /// Settles the attempt of a step, once: `usage` and `route` replace what the attempt had, and
    /// an attempt with usage leaves a sample.
    pub fn close_attempt(
        &mut self,
        key: StepKey,
        time: TimestampMs,
        usage: Option<ParsedUsage>,
        route: Option<Route>,
    )
        ensures
            final(self)@ == old(self)@.settled(key, time, usage, fields::route_view(route)),
    {
        let ghost goal = old(self)@.settled(key, time, usage, fields::route_view(route));
        let mut state = self.take_attempt(key, time, &route);
        if !state.closed {
            if usage.is_some() {
                state.usage = usage;
            }
            if route.is_some() {
                state.route = route;
            }
            if let Some(usage) = state.usage {
                self.samples.push(
                    AttemptSample {
                        key,
                        index: state.index,
                        timestamp: state.timestamp,
                        usage,
                        route: clone_route(&state.route),
                    },
                );
            }
            state.closed = true;
        }
        self.states.put(key, state);
        assert(self@.states =~= goal.states);
        assert(self@.samples =~= goal.samples);
    }

    /// Settles the attempt of a step with its final message.
    fn answer(&mut self, key: StepKey, data: &Json, time: TimestampMs)
        ensures
            final(self)@ == old(self)@.answered(key, data@, time),
    {
        let source: &[&str] = &["message", "source"];
        assert(fields::names(source@) =~= seq!["message"@, "source"@]);
        let route = match route_at(data, source) {
            Some(route) => Some(route),
            None => clone_route(&self.route),
        };
        match data.get("usage") {
            Some(stated) => {
                let usage = usage_from_value(Some(stated));
                if usage.is_none() {
                    self.discard(key);
                }
                self.close_attempt(key, time, usage, route);
            },
            None => {
                let usage = stream_usage(data.get("stream"));
                self.close_attempt(key, time, usage, route);
            },
        }
    }

    /// Applies a record of the given kind on a step.
    fn apply_step_event(&mut self, kind: EventKind, key: StepKey, data: &Json, time: TimestampMs)
        ensures
            final(self)@ == old(self)@.after_step_event(kind, key, data@, time),
    {
        match kind {
            EventKind::StepStart => {
                self.start(key, 0, time);
            },
            EventKind::RetryStarted => {
                let next = match self.states.index_of(key) {
                    Some(index) => index.saturating_add(1),
                    None => 0,
                };
                self.start(key, next, time);
            },
            EventKind::Chunk => {
                let chunk: &[&str] = &["chunk"];
                assert(fields::names(chunk@) =~= seq!["chunk"@]);
                if let Some(usage) = usage_at(data, chunk) {
                    self.stream(key, time, usage);
                }
            },
            EventKind::Attempt => {
                let usage = stream_usage(data.get("stream"));
                let route = clone_route(&self.route);
                self.close_attempt(key, time, usage, route);
            },
            EventKind::Message => {
                self.answer(key, data, time);
            },
            EventKind::Retry => {
                let route = clone_route(&self.route);
                self.close_attempt(key, time, None, route);
            },
            EventKind::StepEnd => {
                let route = clone_route(&self.route);
                self.close_attempt(key, time, None, route);
                let _ = self.states.take(key);
            },
            _ => {},
        }
    }

    /// Applies a record.
    pub fn apply_record(&mut self, record: &Json, created_at: TimestampMs)
        ensures
            final(self)@ == old(self)@.after_record(record@, created_at),
    {
        let kind = match record.get("type") {
            Some(name) => match name.as_str() {
                Some(name) => event_kind(name),
                None => return,
            },
            None => return,
        };
        let data = match record.get("data") {
            Some(data) => data,
            None => return,
        };
        let time_path: &[&str] = &["time"];
        assert(fields::names(time_path@) =~= seq!["time"@]);
        let time = match timestamp_at(record, time_path) {
            Some(time) => time,
            None => created_at,
        };
        match kind {
            EventKind::RequestHeader => {
                let config: &[&str] = &["header", "config"];
                assert(fields::names(config@) =~= seq!["header"@, "config"@]);
                self.route = route_at(data, config);
            },
            EventKind::RequestContext => {
                let here: &[&str] = &[];
                assert(fields::names(here@) =~= Seq::empty());
                self.route = route_at(data, here);
            },
            _ => {
                if let Some(key) = step_key(data) {
                    self.apply_step_event(kind, key, data, time);
                }
            },
        }
    }
}

// ---------------------------------------------------------------------------------------------
// Laws
// ---------------------------------------------------------------------------------------------

/// Whether the attempt of a step has settled.
pub open spec fn has_settled(ledger: LedgerView, key: StepKey) -> bool {
    ledger.states.contains_key(key) && ledger.states[key].closed
}

/// Whether the samples of `after` are those of `before`, with one more at most.
spec fn grows(before: LedgerView, after: LedgerView) -> bool {
    before.samples.is_prefix_of(after.samples) && after.samples.len() <= before.samples.len() + 1
}

proof fn lemma_settling_grows(
    before: LedgerView,
    ledger: LedgerView,
    key: StepKey,
    time: TimestampMs,
    usage: Option<ParsedUsage>,
    route: Option<RouteView>,
)
    requires
        ledger.samples == before.samples,
    ensures
        grows(before, ledger.settled(key, time, usage, route)),
{
    let after = ledger.settled(key, time, usage, route);
    assert(after.samples.take(before.samples.len() as int) =~= before.samples);
}

proof fn lemma_step_event_grows(
    ledger: LedgerView,
    kind: EventKind,
    key: StepKey,
    data: JsonTree,
    time: TimestampMs,
)
    ensures
        grows(ledger, ledger.after_step_event(kind, key, data, time)),
{
    assert(ledger.samples.take(ledger.samples.len() as int) =~= ledger.samples);
    let in_stream = usage::last_usage_in(data.member("stream"@));
    match kind {
        EventKind::Attempt => {
            lemma_settling_grows(ledger, ledger, key, time, in_stream, ledger.route);
        },
        EventKind::Message => {
            let route = or_else(fields::route_of(data, seq!["message"@, "source"@]), ledger.route);
            let stated = usage::usage_of(data.member("usage"@));
            lemma_settling_grows(ledger, ledger, key, time, stated, route);
            lemma_settling_grows(ledger, ledger.discarded(key), key, time, None, route);
            lemma_settling_grows(ledger, ledger, key, time, in_stream, route);
        },
        EventKind::Retry | EventKind::StepEnd => {
            lemma_settling_grows(ledger, ledger, key, time, None, ledger.route);
        },
        _ => {},
    }
}

/// A sample is never changed or withdrawn, and a record adds one at most.
pub proof fn law_samples_only_grow(ledger: LedgerView, record: JsonTree, created_at: TimestampMs)
    ensures
        ledger.samples.is_prefix_of(ledger.after_record(record, created_at).samples),
        ledger.after_record(record, created_at).samples.len() <= ledger.samples.len() + 1,
{
    let after = ledger.after_record(record, created_at);
    assert(ledger.samples.take(ledger.samples.len() as int) =~= ledger.samples);
    if let (Some(name), Some(data)) = (record.member_text("type"@), record.member("data"@)) {
        let time = match fields::time_at(record, seq!["time"@]) {
            Some(time) => time,
            None => created_at,
        };
        if let Some(key) = fields::key_of(data) {
            lemma_step_event_grows(ledger, kind_of(name), key, data, time);
        }
        assert(grows(ledger, ledger.after_event(kind_of(name), data, time)));
    }
    assert(grows(ledger, after));
}

/// What more records add comes after what the records before them left.
pub proof fn law_more_records_add_samples(
    ledger: LedgerView,
    records: Seq<JsonTree>,
    more: Seq<JsonTree>,
    created_at: TimestampMs,
)
    ensures
        ledger.after_records(records + more, created_at) == ledger.after_records(
            records,
            created_at,
        ).after_records(more, created_at),
        ledger.after_records(records, created_at).samples.is_prefix_of(
            ledger.after_records(records + more, created_at).samples,
        ),
    decreases more.len(),
{
    let all = records + more;
    if more.len() == 0 {
        assert(all =~= records);
        let samples = ledger.after_records(records, created_at).samples;
        assert(samples.is_prefix_of(samples));
    } else {
        let shorter = more.drop_last();
        law_more_records_add_samples(ledger, records, shorter, created_at);
        assert(all.drop_last() =~= records + shorter);
        let a = ledger.after_records(records, created_at).samples;
        let b = ledger.after_records(records + shorter, created_at).samples;
        let c = ledger.after_records(all, created_at).samples;
        law_samples_only_grow(
            ledger.after_records(records + shorter, created_at),
            more.last(),
            created_at,
        );
        assert(c.take(a.len() as int) =~= b.take(a.len() as int));
    }
}

/// An attempt settles once: settling it again changes nothing.
pub proof fn law_attempt_settles_once(
    ledger: LedgerView,
    key: StepKey,
    time: TimestampMs,
    usage: Option<ParsedUsage>,
    route: Option<RouteView>,
    later: TimestampMs,
    later_usage: Option<ParsedUsage>,
    later_route: Option<RouteView>,
)
    ensures
        has_settled(ledger.settled(key, time, usage, route), key),
        ledger.settled(key, time, usage, route).settled(key, later, later_usage, later_route)
            == ledger.settled(key, time, usage, route),
{
}

/// After an attempt has settled, no record on its step adds a sample, and it stays settled until
/// another attempt starts or the step ends.
pub proof fn law_settled_attempt_counts_no_more(
    ledger: LedgerView,
    kind: EventKind,
    key: StepKey,
    data: JsonTree,
    time: TimestampMs,
)
    requires
        has_settled(ledger, key),
    ensures
        ledger.after_step_event(kind, key, data, time).samples == ledger.samples,
        kind != EventKind::StepStart && kind != EventKind::RetryStarted && kind
            != EventKind::StepEnd ==> has_settled(
            ledger.after_step_event(kind, key, data, time),
            key,
        ),
{
}

/// The usage that a final message states replaces what the attempt had streamed, and is counted
/// alone, also where the message carries a stream of its own. Invalid usage replaces it too: then
/// nothing is counted.
pub proof fn law_message_replaces_streamed_usage(
    ledger: LedgerView,
    key: StepKey,
    data: JsonTree,
    time: TimestampMs,
)
    requires
        !has_settled(ledger, key),
        data.member("usage"@) is Some,
    ensures
        ({
            let after = ledger.after_step_event(EventKind::Message, key, data, time);
            &&& has_settled(after, key)
            &&& match usage::usage_of(data.member("usage"@)) {
                Some(stated) => {
                    &&& after.samples.len() == ledger.samples.len() + 1
                    &&& after.samples.drop_last() == ledger.samples
                    &&& after.samples.last().key == key
                    &&& after.samples.last().usage == stated
                },
                None => after.samples == ledger.samples,
            }
        }),
{
    let after = ledger.after_step_event(EventKind::Message, key, data, time);
    if usage::usage_of(data.member("usage"@)) is Some {
        assert(after.samples.drop_last() =~= ledger.samples);
    }
}

/// The usage that an attempt has reported so far.
pub open spec fn reported(ledger: LedgerView, key: StepKey) -> Option<ParsedUsage> {
    if ledger.states.contains_key(key) {
        ledger.states[key].usage
    } else {
        None
    }
}

/// Of what an attempt streams, the last usage is what it has reported.
pub proof fn law_last_streamed_usage_is_reported(
    ledger: LedgerView,
    key: StepKey,
    time: TimestampMs,
    usage: ParsedUsage,
)
    requires
        !has_settled(ledger, key),
    ensures
        !has_settled(ledger.streamed(key, time, usage), key),
        reported(ledger.streamed(key, time, usage), key) == Some(usage),
        ledger.streamed(key, time, usage).samples == ledger.samples,
{
}

/// Where the final message states no usage, the last usage of its stream counts, or else what the
/// attempt had reported before; an attempt that reported nothing is not counted.
pub proof fn law_streamed_usage_counts_without_stated_usage(
    ledger: LedgerView,
    key: StepKey,
    data: JsonTree,
    time: TimestampMs,
)
    requires
        !has_settled(ledger, key),
        data.member("usage"@) is None,
    ensures
        ({
            let after = ledger.after_step_event(EventKind::Message, key, data, time);
            let in_stream = usage::last_usage_in(data.member("stream"@));
            &&& has_settled(after, key)
            &&& match or_else(in_stream, reported(ledger, key)) {
                Some(usage) => {
                    &&& after.samples.len() == ledger.samples.len() + 1
                    &&& after.samples.drop_last() == ledger.samples
                    &&& after.samples.last().key == key
                    &&& after.samples.last().usage == usage
                },
                None => after.samples == ledger.samples,
            }
        }),
{
    let after = ledger.after_step_event(EventKind::Message, key, data, time);
    let in_stream = usage::last_usage_in(data.member("stream"@));
    if or_else(in_stream, reported(ledger, key)) is Some {
        assert(after.samples.drop_last() =~= ledger.samples);
    }
}

/// A retried attempt and the one that follows it are counted each with its own usage, and the
/// index of the later one is the next.
pub proof fn law_retry_is_counted_separately(
    ledger: LedgerView,
    key: StepKey,
    time: TimestampMs,
    usage: ParsedUsage,
    route: Option<RouteView>,
    data: JsonTree,
    started: TimestampMs,
    later: TimestampMs,
    later_usage: ParsedUsage,
    later_route: Option<RouteView>,
)
    requires
        !has_settled(ledger, key),
    ensures
        ({
            let retried = ledger.settled(key, time, Some(usage), route);
            let after = retried.after_step_event(
                EventKind::RetryStarted,
                key,
                data,
                started,
            ).settled(key, later, Some(later_usage), later_route);
            let n = ledger.samples.len() as int;
            &&& after.samples.len() == n + 2
            &&& after.samples.take(n) == ledger.samples
            &&& after.samples[n].key == key && after.samples[n].usage == usage
            &&& after.samples[n + 1].key == key && after.samples[n + 1].usage == later_usage
            &&& after.samples[n].index < u32::MAX ==> after.samples[n + 1].index
                == after.samples[n].index + 1
        }),
{
    let retried = ledger.settled(key, time, Some(usage), route);
    let after = retried.after_step_event(EventKind::RetryStarted, key, data, started).settled(
        key,
        later,
        Some(later_usage),
        later_route,
    );
    assert(after.samples.take(ledger.samples.len() as int) =~= ledger.samples);
}

/// A record on one step leaves the attempts of all others as they are.
pub proof fn law_steps_are_independent(
    ledger: LedgerView,
    kind: EventKind,
    key: StepKey,
    data: JsonTree,
    time: TimestampMs,
    other: StepKey,
)
    requires
        other != key,
    ensures
        ledger.after_step_event(kind, key, data, time).states.contains_key(other)
            == ledger.states.contains_key(other),
        ledger.states.contains_key(other) ==> ledger.after_step_event(
            kind,
            key,
            data,
            time,
        ).states[other] == ledger.states[other],
{
}

// ---------------------------------------------------------------------------------------------
// Laws on records
// ---------------------------------------------------------------------------------------------

/// Whether a record is of the type `name` and carries `data`.
pub open spec fn is_event(record: JsonTree, name: Seq<char>, data: JsonTree) -> bool {
    record.member("type"@) == Some(JsonTree::Text(name)) && record.member("data"@) == Some(data)
}

/// Whether `data` names a step by its counters `turn` and `step`.
pub open spec fn names_step(data: JsonTree, key: StepKey) -> bool {
    &&& data.member("turn"@) matches Some(JsonTree::Number { unsigned: Some(turn), .. }) && turn
        == key.turn
    &&& data.member("step"@) matches Some(JsonTree::Number { unsigned: Some(step), .. }) && step
        == key.step
}

/// Whether the time of a record is `time`: a positive integer that it states, or else the time at
/// which the session was created.
pub open spec fn happens_at(record: JsonTree, created_at: TimestampMs, time: TimestampMs) -> bool {
    match record.member("time"@) {
        Some(JsonTree::Number { signed: Some(millis), .. }) if millis > 0 => time.millis == millis,
        _ => time == created_at,
    }
}

proof fn lemma_event_names()
    ensures
        kind_of("request/header"@) == EventKind::RequestHeader,
        kind_of("request/context"@) == EventKind::RequestContext,
        kind_of("step/start"@) == EventKind::StepStart,
        kind_of("llm/retry-started"@) == EventKind::RetryStarted,
        kind_of("assistant/chunk"@) == EventKind::Chunk,
        kind_of("assistant/attempt"@) == EventKind::Attempt,
        kind_of("assistant/message"@) == EventKind::Message,
        kind_of("llm/retry"@) == EventKind::Retry,
        kind_of("step/end"@) == EventKind::StepEnd,
{
    reveal_strlit("request/header");
    reveal_strlit("request/context");
    reveal_strlit("step/start");
    reveal_strlit("llm/retry-started");
    reveal_strlit("assistant/chunk");
    reveal_strlit("assistant/attempt");
    reveal_strlit("assistant/message");
    reveal_strlit("llm/retry");
    reveal_strlit("step/end");
    assert("request/header"@.len() == 14);
    assert("request/context"@.len() == 15);
    assert("step/start"@.len() == 10);
    assert("llm/retry-started"@.len() == 17);
    assert("assistant/chunk"@.len() == 15);
    assert("assistant/attempt"@.len() == 17);
    assert("assistant/message"@.len() == 17);
    assert("llm/retry"@.len() == 9);
    assert("step/end"@.len() == 8);
    assert("request/context"@[0] != "assistant/chunk"@[0]);
    assert("llm/retry-started"@[0] != "assistant/attempt"@[0]);
    assert("llm/retry-started"@[0] != "assistant/message"@[0]);
    assert("assistant/attempt"@[10] != "assistant/message"@[10]);
}

proof fn lemma_step_record(
    ledger: LedgerView,
    record: JsonTree,
    name: Seq<char>,
    data: JsonTree,
    key: StepKey,
    created_at: TimestampMs,
    time: TimestampMs,
)
    requires
        is_event(record, name, data),
        names_step(data, key),
        happens_at(record, created_at, time),
        kind_of(name) != EventKind::RequestHeader,
        kind_of(name) != EventKind::RequestContext,
    ensures
        ledger.after_record(record, created_at) == ledger.after_step_event(
            kind_of(name),
            key,
            data,
            time,
        ),
{
    fields::law_steps_are_named_by_turn_and_step(data);
    json::law_paths_lead_on(record, "time"@, Seq::empty(), Seq::empty());
    fields::law_times_are_positive(record, seq!["time"@]);
}

/// Whether `after` is what settling the attempt of a step makes of `before`: an attempt with usage
/// leaves one sample behind the others, which has the index and the time of the attempt.
pub open spec fn leaves_sample(
    before: LedgerView,
    after: LedgerView,
    key: StepKey,
    time: TimestampMs,
    usage: Option<ParsedUsage>,
    route: Option<RouteView>,
) -> bool {
    &&& after.route == before.route
    &&& match usage {
        Some(usage) => {
            &&& after.samples.len() == before.samples.len() + 1
            &&& after.samples.drop_last() == before.samples
            &&& after.samples.last().key == key
            &&& after.samples.last().usage == usage
            &&& after.samples.last().route == route
            &&& before.states.contains_key(key) ==> {
                &&& after.samples.last().index == before.states[key].index
                &&& after.samples.last().timestamp == before.states[key].timestamp
            }
            &&& !before.states.contains_key(key) ==> {
                &&& after.samples.last().index == 0
                &&& after.samples.last().timestamp == time
            }
        },
        None => after.samples == before.samples,
    }
}

/// Whether the attempt of a step has settled in `after` as the attempt that it was in `before`.
pub open spec fn settled_as_it_was(before: LedgerView, after: LedgerView, key: StepKey) -> bool {
    &&& has_settled(after, key)
    &&& before.states.contains_key(key) ==> after.states[key].index == before.states[key].index
        && after.states[key].timestamp == before.states[key].timestamp
    &&& !before.states.contains_key(key) ==> after.states[key].index == 0
}

/// The route that was noted when the attempt of a step started.
pub open spec fn noted_route(ledger: LedgerView, key: StepKey) -> Option<RouteView> {
    if ledger.states.contains_key(key) {
        ledger.states[key].route
    } else {
        None
    }
}

/// A retry and the end of a step settle the attempt that is under way: what it had reported before
/// is counted, once, with its own index, and for the route in force or else the one that was noted
/// when it started. An attempt that had reported nothing is not counted. The end of the step
/// forgets the step.
pub proof fn law_retry_and_end_count_what_was_reported(
    ledger: LedgerView,
    record: JsonTree,
    data: JsonTree,
    key: StepKey,
    created_at: TimestampMs,
    time: TimestampMs,
)
    requires
        is_event(record, "llm/retry"@, data) || is_event(record, "step/end"@, data),
        names_step(data, key),
        happens_at(record, created_at, time),
        !has_settled(ledger, key),
    ensures
        ({
            let after = ledger.after_record(record, created_at);
            let route = match ledger.route {
                Some(route) => Some(route),
                None => noted_route(ledger, key),
            };
            &&& leaves_sample(ledger, after, key, time, reported(ledger, key), route)
            &&& is_event(record, "llm/retry"@, data) ==> settled_as_it_was(ledger, after, key)
            &&& is_event(record, "step/end"@, data) ==> !after.states.contains_key(key)
        }),
{
    lemma_event_names();
    let after = ledger.after_record(record, created_at);
    if is_event(record, "llm/retry"@, data) {
        lemma_step_record(ledger, record, "llm/retry"@, data, key, created_at, time);
    } else {
        lemma_step_record(ledger, record, "step/end"@, data, key, created_at, time);
    }
    if reported(ledger, key) is Some {
        assert(after.samples.drop_last() =~= ledger.samples);
    }
}

/// A step that has settled is left as it is by a retry, and forgotten at its end; neither counts
/// anything.
pub proof fn law_retry_and_end_of_a_settled_attempt_count_nothing(
    ledger: LedgerView,
    record: JsonTree,
    data: JsonTree,
    key: StepKey,
    created_at: TimestampMs,
    time: TimestampMs,
)
    requires
        is_event(record, "llm/retry"@, data) || is_event(record, "step/end"@, data),
        names_step(data, key),
        happens_at(record, created_at, time),
        has_settled(ledger, key),
    ensures
        is_event(record, "llm/retry"@, data) ==> ledger.after_record(record, created_at) == ledger,
        is_event(record, "step/end"@, data) ==> {
            let after = ledger.after_record(record, created_at);
            &&& after.samples == ledger.samples
            &&& after.route == ledger.route
            &&& after.states == ledger.states.remove(key)
        },
{
    lemma_event_names();
    if is_event(record, "llm/retry"@, data) {
        lemma_step_record(ledger, record, "llm/retry"@, data, key, created_at, time);
    } else {
        lemma_step_record(ledger, record, "step/end"@, data, key, created_at, time);
    }
}

/// What an attempt had reported before it was retried is among the samples when the next attempt
/// starts, and the next attempt has the next index and has reported nothing.
pub proof fn law_retried_usage_is_kept(
    ledger: LedgerView,
    retry: JsonTree,
    retry_data: JsonTree,
    started: JsonTree,
    started_data: JsonTree,
    key: StepKey,
    created_at: TimestampMs,
    retry_time: TimestampMs,
    started_time: TimestampMs,
)
    requires
        is_event(retry, "llm/retry"@, retry_data),
        names_step(retry_data, key),
        happens_at(retry, created_at, retry_time),
        is_event(started, "llm/retry-started"@, started_data),
        names_step(started_data, key),
        happens_at(started, created_at, started_time),
        !has_settled(ledger, key),
        reported(ledger, key) is Some,
    ensures
        ({
            let after = ledger.after_records(seq![retry, started], created_at);
            let n = ledger.samples.len() as int;
            let index = ledger.states[key].index;
            &&& after.samples.len() == n + 1
            &&& after.samples.take(n) == ledger.samples
            &&& after.samples[n].key == key
            &&& after.samples[n].index == index
            &&& Some(after.samples[n].usage) == reported(ledger, key)
            &&& !has_settled(after, key)
            &&& reported(after, key) is None
            &&& after.states.contains_key(key)
            &&& index < u32::MAX ==> after.states[key].index == index + 1
        }),
{
    law_retry_and_end_count_what_was_reported(
        ledger,
        retry,
        retry_data,
        key,
        created_at,
        retry_time,
    );
    law_records_apply_in_order(ledger, retry, started, created_at);
    let retried = ledger.after_record(retry, created_at);
    law_retry_starts_the_next_attempt(
        retried,
        started,
        started_data,
        key,
        created_at,
        started_time,
    );
    assert(retried.samples.take(ledger.samples.len() as int) =~= ledger.samples);
}

/// The start of a step starts its first attempt, at the time of the record and on the route in
/// force. What the step had before is forgotten, and nothing is counted.
pub proof fn law_step_starts_its_first_attempt(
    ledger: LedgerView,
    record: JsonTree,
    data: JsonTree,
    key: StepKey,
    created_at: TimestampMs,
    time: TimestampMs,
)
    requires
        is_event(record, "step/start"@, data),
        names_step(data, key),
        happens_at(record, created_at, time),
    ensures
        ({
            let after = ledger.after_record(record, created_at);
            let attempt = after.states[key];
            &&& after.samples == ledger.samples
            &&& after.route == ledger.route
            &&& after.states.dom() == ledger.states.dom().insert(key)
            &&& attempt.index == 0
            &&& attempt.timestamp == time
            &&& attempt.usage is None
            &&& attempt.route == ledger.route
            &&& !attempt.closed
        }),
{
    lemma_event_names();
    lemma_step_record(ledger, record, "step/start"@, data, key, created_at, time);
    assert(ledger.after_record(record, created_at).states.dom() =~= ledger.states.dom().insert(
        key,
    ));
}

/// A retry that starts is the next attempt of its step, or the first where none is under way. It
/// starts at the time of the record and on the route in force, and nothing is counted.
pub proof fn law_retry_starts_the_next_attempt(
    ledger: LedgerView,
    record: JsonTree,
    data: JsonTree,
    key: StepKey,
    created_at: TimestampMs,
    time: TimestampMs,
)
    requires
        is_event(record, "llm/retry-started"@, data),
        names_step(data, key),
        happens_at(record, created_at, time),
    ensures
        ({
            let after = ledger.after_record(record, created_at);
            let attempt = after.states[key];
            &&& after.samples == ledger.samples
            &&& after.route == ledger.route
            &&& after.states.dom() == ledger.states.dom().insert(key)
            &&& !ledger.states.contains_key(key) ==> attempt.index == 0
            &&& ledger.states.contains_key(key) && ledger.states[key].index < u32::MAX
                ==> attempt.index == ledger.states[key].index + 1
            &&& ledger.states.contains_key(key) && ledger.states[key].index == u32::MAX
                ==> attempt.index == u32::MAX
            &&& attempt.timestamp == time
            &&& attempt.usage is None
            &&& attempt.route == ledger.route
            &&& !attempt.closed
        }),
{
    lemma_event_names();
    lemma_step_record(ledger, record, "llm/retry-started"@, data, key, created_at, time);
    assert(ledger.after_record(record, created_at).states.dom() =~= ledger.states.dom().insert(
        key,
    ));
}

/// A chunk with valid usage is noted as what the attempt has reported, in place of what it had
/// reported before; the rest of the attempt stays, and nothing is counted. An attempt that was
/// never started starts with it.
pub proof fn law_chunk_is_noted(
    ledger: LedgerView,
    record: JsonTree,
    data: JsonTree,
    chunk: JsonTree,
    usage: ParsedUsage,
    key: StepKey,
    created_at: TimestampMs,
    time: TimestampMs,
)
    requires
        is_event(record, "assistant/chunk"@, data),
        names_step(data, key),
        happens_at(record, created_at, time),
        data.member("chunk"@) == Some(chunk),
        chunk.member("type"@) == Some(JsonTree::Text("usage"@)),
        usage::usage_of(chunk.member("usage"@)) == Some(usage),
        !has_settled(ledger, key),
    ensures
        ({
            let after = ledger.after_record(record, created_at);
            let attempt = after.states[key];
            &&& after.samples == ledger.samples
            &&& after.route == ledger.route
            &&& after.states.dom() == ledger.states.dom().insert(key)
            &&& attempt.usage == Some(usage)
            &&& !attempt.closed
            &&& ledger.states.contains_key(key) ==> {
                &&& attempt.index == ledger.states[key].index
                &&& attempt.timestamp == ledger.states[key].timestamp
                &&& attempt.route == ledger.states[key].route
            }
            &&& !ledger.states.contains_key(key) ==> {
                &&& attempt.index == 0
                &&& attempt.timestamp == time
                &&& attempt.route == ledger.route
            }
        }),
{
    lemma_event_names();
    lemma_step_record(ledger, record, "assistant/chunk"@, data, key, created_at, time);
    json::law_paths_lead_on(data, "chunk"@, Seq::empty(), Seq::empty());
    usage::law_usage_is_carried_by_type(chunk);
    assert(ledger.after_record(record, created_at).states.dom() =~= ledger.states.dom().insert(
        key,
    ));
}

/// A chunk changes nothing where it carries no valid usage, or where the attempt has settled.
pub proof fn law_other_chunks_change_nothing(
    ledger: LedgerView,
    record: JsonTree,
    data: JsonTree,
    key: StepKey,
    created_at: TimestampMs,
)
    requires
        is_event(record, "assistant/chunk"@, data),
        names_step(data, key),
        has_settled(ledger, key) || match data.member("chunk"@) {
            Some(chunk) => chunk.member("type"@) != Some(JsonTree::Text("usage"@))
                || usage::usage_of(chunk.member("usage"@)) is None,
            None => true,
        },
    ensures
        ledger.after_record(record, created_at) == ledger,
{
    lemma_event_names();
    let time = match fields::time_at(record, seq!["time"@]) {
        Some(time) => time,
        None => created_at,
    };
    json::law_paths_lead_on(record, "time"@, Seq::empty(), Seq::empty());
    fields::law_times_are_positive(record, seq!["time"@]);
    lemma_step_record(ledger, record, "assistant/chunk"@, data, key, created_at, time);
    json::law_paths_lead_on(data, "chunk"@, Seq::empty(), Seq::empty());
    if let Some(chunk) = data.member("chunk"@) {
        usage::law_usage_is_carried_by_type(chunk);
    }
}

/// A failed attempt settles with the last usage of its stream, or else with what it had reported,
/// for the route in force or else the one that was noted when it started.
pub proof fn law_failed_attempt_counts_its_stream(
    ledger: LedgerView,
    record: JsonTree,
    data: JsonTree,
    key: StepKey,
    created_at: TimestampMs,
    time: TimestampMs,
)
    requires
        is_event(record, "assistant/attempt"@, data),
        names_step(data, key),
        happens_at(record, created_at, time),
        !has_settled(ledger, key),
    ensures
        ({
            let after = ledger.after_record(record, created_at);
            let usage = match data.member("stream"@) {
                Some(stream) if usage::last_usage(stream) is Some => usage::last_usage(stream),
                _ => reported(ledger, key),
            };
            let route = match ledger.route {
                Some(route) => Some(route),
                None => noted_route(ledger, key),
            };
            &&& leaves_sample(ledger, after, key, time, usage, route)
            &&& settled_as_it_was(ledger, after, key)
        }),
{
    lemma_event_names();
    lemma_step_record(ledger, record, "assistant/attempt"@, data, key, created_at, time);
    let after = ledger.after_record(record, created_at);
    if after.samples.len() > ledger.samples.len() {
        assert(after.samples.drop_last() =~= ledger.samples);
    }
}

/// The route that counts for a final message: the one at its `message.source`, or else the one in
/// force, or else the one that was noted when the attempt started.
pub open spec fn answering_route(
    ledger: LedgerView,
    data: JsonTree,
    key: StepKey,
) -> Option<RouteView> {
    match fields::route_of(data, seq!["message"@, "source"@]) {
        Some(route) => Some(route),
        None => match ledger.route {
            Some(route) => Some(route),
            None => noted_route(ledger, key),
        },
    }
}

/// A final message settles the attempt with the usage that it states; where it states none, with
/// the last usage of its stream, or else with what the attempt had reported. Stated usage that is
/// invalid leaves the attempt without any. The sample is for the route that the message names as
/// its source, before any other.
pub proof fn law_message_settles_the_attempt(
    ledger: LedgerView,
    record: JsonTree,
    data: JsonTree,
    key: StepKey,
    created_at: TimestampMs,
    time: TimestampMs,
)
    requires
        is_event(record, "assistant/message"@, data),
        names_step(data, key),
        happens_at(record, created_at, time),
        !has_settled(ledger, key),
    ensures
        ({
            let after = ledger.after_record(record, created_at);
            let usage = match (data.member("usage"@), data.member("stream"@)) {
                (Some(stated), _) => usage::usage_of(Some(stated)),
                (None, Some(stream)) if usage::last_usage(stream) is Some => usage::last_usage(
                    stream,
                ),
                (None, _) => reported(ledger, key),
            };
            &&& leaves_sample(ledger, after, key, time, usage, answering_route(ledger, data, key))
            &&& settled_as_it_was(ledger, after, key)
        }),
{
    lemma_event_names();
    lemma_step_record(ledger, record, "assistant/message"@, data, key, created_at, time);
    let after = ledger.after_record(record, created_at);
    if after.samples.len() > ledger.samples.len() {
        assert(after.samples.drop_last() =~= ledger.samples);
    }
}

/// The source of a message is read through its members: where `message` is there with a `source`
/// that has the texts `provider` and `model`, those name the route.
pub proof fn law_message_names_its_source(
    data: JsonTree,
    message: JsonTree,
    source: JsonTree,
    provider: Seq<char>,
    model: Seq<char>,
)
    requires
        data.member("message"@) == Some(message),
        message.member("source"@) == Some(source),
        source.member("provider"@) == Some(JsonTree::Text(provider)),
        source.member("model"@) == Some(JsonTree::Text(model)),
        text::trimmed(provider).len() > 0,
        text::trimmed(model).len() > 0,
    ensures
        fields::route_of(data, seq!["message"@, "source"@]) == Some(
            RouteView { provider: text::trimmed(provider), model: text::trimmed(model) },
        ),
{
    let path = seq!["message"@, "source"@];
    assert(path =~= seq!["message"@] + seq!["source"@]);
    json::law_paths_lead_on(data, "message"@, seq!["message"@], seq!["source"@]);
    json::law_paths_lead_on(message, "source"@, Seq::empty(), Seq::empty());
    fields::law_routes_have_provider_and_model(data, path);
}

/// A message or a failed attempt on a step that has settled counts nothing.
pub proof fn law_late_answers_count_nothing(
    ledger: LedgerView,
    record: JsonTree,
    data: JsonTree,
    key: StepKey,
    created_at: TimestampMs,
    time: TimestampMs,
)
    requires
        is_event(record, "assistant/message"@, data) || is_event(
            record,
            "assistant/attempt"@,
            data,
        ),
        names_step(data, key),
        happens_at(record, created_at, time),
        has_settled(ledger, key),
    ensures
        ({
            let after = ledger.after_record(record, created_at);
            &&& after.samples == ledger.samples
            &&& after.route == ledger.route
            &&& after.states.dom() == ledger.states.dom()
            &&& settled_as_it_was(ledger, after, key)
        }),
{
    lemma_event_names();
    if is_event(record, "assistant/message"@, data) {
        lemma_step_record(ledger, record, "assistant/message"@, data, key, created_at, time);
    } else {
        lemma_step_record(ledger, record, "assistant/attempt"@, data, key, created_at, time);
    }
    assert(ledger.after_record(record, created_at).states.dom() =~= ledger.states.dom());
}

/// A request puts its route in force, in place of the one before, also where it names none. It
/// leaves attempts and samples as they are.
pub proof fn law_requests_put_their_route_in_force(
    ledger: LedgerView,
    record: JsonTree,
    data: JsonTree,
    created_at: TimestampMs,
)
    ensures
        is_event(record, "request/context"@, data) ==> {
            let after = ledger.after_record(record, created_at);
            &&& after.route == fields::route_of(data, Seq::empty())
            &&& after.states == ledger.states
            &&& after.samples == ledger.samples
        },
        is_event(record, "request/header"@, data) ==> {
            let after = ledger.after_record(record, created_at);
            &&& after.states == ledger.states
            &&& after.samples == ledger.samples
            &&& after.route == match data.member("header"@) {
                Some(header) => fields::route_of(header, seq!["config"@]),
                None => None,
            }
        },
{
    lemma_event_names();
    let path = seq!["header"@, "config"@];
    assert(path =~= seq!["header"@] + seq!["config"@]);
    json::law_paths_lead_on(data, "header"@, seq!["header"@], seq!["config"@]);
}

/// A record changes nothing where its type is none of those that bear on usage, where it has no
/// type or no data, or where it is on a step and its data names none.
pub proof fn law_other_records_change_nothing(
    ledger: LedgerView,
    record: JsonTree,
    created_at: TimestampMs,
)
    requires
        match (record.member("type"@), record.member("data"@)) {
            (Some(JsonTree::Text(name)), Some(data)) => {
                ||| name != "request/header"@ && name != "request/context"@ && name
                    != "step/start"@ && name != "llm/retry-started"@ && name != "assistant/chunk"@
                    && name != "assistant/attempt"@ && name != "assistant/message"@ && name
                    != "llm/retry"@ && name != "step/end"@
                ||| name != "request/header"@ && name != "request/context"@ && forall|
                    key: StepKey,
                |
                    !names_step(data, key)
            },
            _ => true,
        },
    ensures
        ledger.after_record(record, created_at) == ledger,
{
    if let (Some(JsonTree::Text(name)), Some(data)) = (
        record.member("type"@),
        record.member("data"@),
    ) {
        fields::law_steps_are_named_by_turn_and_step(data);
        if let Some(key) = fields::key_of(data) {
            assert(names_step(data, key));
        }
    }
}

/// A record whose data does not name a step leaves the attempt of that step as it is, and counts
/// nothing for it.
pub proof fn law_records_leave_other_steps_alone(
    ledger: LedgerView,
    record: JsonTree,
    created_at: TimestampMs,
    other: StepKey,
)
    requires
        record.member("data"@) matches Some(data) ==> !names_step(data, other),
    ensures
        ({
            let after = ledger.after_record(record, created_at);
            &&& after.states.contains_key(other) == ledger.states.contains_key(other)
            &&& ledger.states.contains_key(other) ==> after.states[other] == ledger.states[other]
            &&& forall|i: int|
                ledger.samples.len() <= i < after.samples.len() ==> (#[trigger] after.samples[i]).key
                    != other
        }),
{
    if let (Some(name), Some(data)) = (record.member_text("type"@), record.member("data"@)) {
        let time = match fields::time_at(record, seq!["time"@]) {
            Some(time) => time,
            None => created_at,
        };
        fields::law_steps_are_named_by_turn_and_step(data);
        if let Some(key) = fields::key_of(data) {
            assert(names_step(data, key));
            law_steps_are_independent(ledger, kind_of(name), key, data, time, other);
        }
    }
}

/// Records apply one after the other.
pub proof fn law_records_apply_in_order(
    ledger: LedgerView,
    first: JsonTree,
    second: JsonTree,
    created_at: TimestampMs,
)
    ensures
        ledger.after_records(Seq::empty(), created_at) == ledger,
        ledger.after_records(seq![first], created_at) == ledger.after_record(first, created_at),
        ledger.after_records(seq![first, second], created_at) == ledger.after_record(
            first,
            created_at,
        ).after_record(second, created_at),
{
    reveal_with_fuel(LedgerView::after_records, 3);
    assert(seq![first].drop_last() =~= Seq::empty());
    assert(seq![first, second].drop_last() =~= seq![first]);
}

/// Before any record no route is in force, no step is under way and nothing is counted.
pub proof fn law_ledgers_start_empty(key: StepKey)
    ensures
        empty_ledger().route is None,
        !empty_ledger().states.contains_key(key),
        empty_ledger().samples.len() == 0,
{
}

/// The model of a sample or of an attempt keeps each of its parts.
pub proof fn law_models_keep_their_parts(sample: AttemptSample, state: AttemptState)
    ensures
        sample@.key == sample.key,
        sample@.index == sample.index,
        sample@.timestamp == sample.timestamp,
        sample@.usage == sample.usage,
        sample@.route == fields::route_view(sample.route),
        state@.index == state.index,
        state@.timestamp == state.timestamp,
        state@.usage == state.usage,
        state@.route == fields::route_view(state.route),
        state@.closed == state.closed,
{
}

} // verus!
