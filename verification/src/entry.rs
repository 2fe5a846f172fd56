//! Usage entries: what a settled attempt contributes to a report, and how it is priced.

use crate::attempts::{AttemptSample, SampleView};
use crate::fields::{Route, RouteView, StepKey, TimestampMs};
use crate::order::reversed;
use crate::session::SessionLog;
use crate::text::push_decimal;
use crate::usage::{total_tokens, TokenUsageRaw};
use crate::{attempts, fields, text};
use vstd::prelude::*;

verus! {

/// How costs are reported.
#[derive(Clone, Copy, Debug, PartialEq, Eq, Structural)]
pub enum CostMode {
    Auto,
    Calculate,
    Display,
}

/// What a price list has for an attempt: an exact entry for its provider and model, an entry for
/// its model at the time of the attempt, and an entry for its model at any time.
#[derive(Clone, Copy, Debug, PartialEq, Eq, Structural)]
pub struct PricingLookup {
    pub provider_model: bool,
    pub model_at: bool,
    pub model: bool,
}

/// Which entry of the price list gives the cost of an attempt.
#[derive(Clone, Copy, Debug, PartialEq, Eq, Structural)]
pub enum CostSource {
    /// None: the cost is zero.
    Zero,
    /// The exact entry for the provider and the model.
    ProviderModel,
    /// The entry for the model at the time of the attempt.
    Model,
}

/// The time of an attempt as it is written: as a timestamp, and as a date in the report's time
/// zone.
#[derive(Debug)]
pub struct WrittenTime {
    pub timestamp: String,
    pub date: String,
}

/// The message of an entry.
#[derive(Debug)]
pub struct UsageMessage {
    pub usage: TokenUsageRaw,
    pub model: Option<String>,
    pub id: Option<String>,
}

/// The data of an entry.
#[derive(Debug)]
pub struct UsageEntry {
    pub session_id: Option<String>,
    pub timestamp: String,
    pub message: UsageMessage,
}

/// A usage entry.
#[derive(Debug)]
pub struct LoadedEntry {
    pub data: UsageEntry,
    pub timestamp: TimestampMs,
    pub date: String,
    pub project: String,
    pub session_id: String,
    pub project_path: String,
    pub cost: CostSource,
    pub extra_total_tokens: u64,
    pub message_count: Option<u64>,
    pub model: Option<String>,
    pub missing_pricing_model: Option<String>,
}

/// The model of a [`LoadedEntry`].
pub struct EntryView {
    pub data_session_id: Option<Seq<char>>,
    pub data_timestamp: Seq<char>,
    pub usage: TokenUsageRaw,
    pub message_model: Option<Seq<char>>,
    pub id: Option<Seq<char>>,
    pub timestamp: TimestampMs,
    pub date: Seq<char>,
    pub project: Seq<char>,
    pub session_id: Seq<char>,
    pub project_path: Seq<char>,
    pub cost: CostSource,
    pub extra_total_tokens: u64,
    pub message_count: Option<u64>,
    pub model: Option<Seq<char>>,
    pub missing_pricing_model: Option<Seq<char>>,
}

/// The characters of a text that may be missing.
pub open spec fn text_view(s: Option<String>) -> Option<Seq<char>> {
    match s {
        Some(s) => Some(s@),
        None => None,
    }
}

impl View for LoadedEntry {
    type V = EntryView;

    open spec fn view(&self) -> EntryView {
        EntryView {
            data_session_id: text_view(self.data.session_id),
            data_timestamp: self.data.timestamp@,
            usage: self.data.message.usage,
            message_model: text_view(self.data.message.model),
            id: text_view(self.data.message.id),
            timestamp: self.timestamp,
            date: self.date@,
            project: self.project@,
            session_id: self.session_id@,
            project_path: self.project_path@,
            cost: self.cost,
            extra_total_tokens: self.extra_total_tokens,
            message_count: self.message_count,
            model: text_view(self.model),
            missing_pricing_model: text_view(self.missing_pricing_model),
        }
    }
}

/// The name of the model that an attempt went to.
pub open spec fn model_of(route: Option<RouteView>) -> Seq<char> {
    match route {
        Some(route) => route.model,
        None => "unknown"@,
    }
}

/// The name under which a price list may have an exact entry for a route.
pub open spec fn exact_name(route: RouteView) -> Seq<char> {
    route.provider + "/"@ + route.model
}

/// Whether the price list has an exact entry for the route.
pub open spec fn has_exact_price(route: Option<RouteView>, pricing: PricingLookup) -> bool {
    route is Some && pricing.provider_model
}

/// Which entry of the price list gives the cost.
pub open spec fn cost_source(
    route: Option<RouteView>,
    mode: CostMode,
    pricing: Option<PricingLookup>,
) -> CostSource {
    match pricing {
        Some(pricing) => if mode == CostMode::Display {
            CostSource::Zero
        } else if has_exact_price(route, pricing) {
            CostSource::ProviderModel
        } else if pricing.model_at {
            CostSource::Model
        } else {
            CostSource::Zero
        },
        None => CostSource::Zero,
    }
}

/// The model that the price list lacks, where a price is wanted and there are tokens to price.
pub open spec fn unpriced_model(
    route: Option<RouteView>,
    model: Seq<char>,
    usage: TokenUsageRaw,
    mode: CostMode,
    pricing: Option<PricingLookup>,
) -> Option<Seq<char>> {
    match pricing {
        Some(pricing) => if mode != CostMode::Display && usage.sum() > 0 && !has_exact_price(
            route,
            pricing,
        ) && !pricing.model {
            Some(model)
        } else {
            None
        },
        None => None,
    }
}

/// The id of the entry of an attempt.
pub open spec fn entry_id(session_id: Seq<char>, key: StepKey, index: u32) -> Seq<char> {
    "dsh:"@ + session_id + ":"@ + text::decimal(key.turn as nat) + ":"@ + text::decimal(
        key.step as nat,
    ) + ":"@ + text::decimal(index as nat)
}

/// The entry of an attempt.
pub open spec fn entry_of(
    session_id: Seq<char>,
    project_path: Seq<char>,
    sample: SampleView,
    timestamp: Seq<char>,
    date: Seq<char>,
    mode: CostMode,
    pricing: Option<PricingLookup>,
) -> EntryView {
    let model = model_of(sample.route);
    EntryView {
        data_session_id: Some(session_id),
        data_timestamp: timestamp,
        usage: sample.usage.raw,
        message_model: Some(model),
        id: Some(entry_id(session_id, sample.key, sample.index)),
        timestamp: sample.timestamp,
        date,
        project: "dsh"@,
        session_id,
        project_path,
        cost: cost_source(sample.route, mode, pricing),
        extra_total_tokens: sample.usage.extra_total_tokens,
        message_count: Some(1),
        model: Some(model),
        missing_pricing_model: unpriced_model(
            sample.route,
            model,
            sample.usage.raw,
            mode,
            pricing,
        ),
    }
}

/// The name of the model that an attempt went to.
pub fn model_name(route: &Option<Route>) -> (r: String)
    ensures
        r@ == model_of(fields::route_view(*route)),
{
    match route {
        Some(route) => route.model.clone(),
        None => "unknown".to_string(),
    }
}

/// The name under which a price list may have an exact entry for a route.
pub fn provider_model(route: &Option<Route>) -> (r: Option<String>)
    ensures
        match *route {
            Some(route) => r matches Some(name) && name@ == exact_name(route@),
            None => r is None,
        },
{
    match route {
        Some(route) => {
            let mut name = route.provider.clone();
            name.append("/");
            name.append(route.model.as_str());
            Some(name)
        },
        None => None,
    }
}

/// Which entry of the price list gives the cost.
pub fn calculate_dsh_cost(
    route: &Option<Route>,
    mode: CostMode,
    pricing: Option<PricingLookup>,
) -> (r: CostSource)
    ensures
        r == cost_source(fields::route_view(*route), mode, pricing),
{
    if mode == CostMode::Display {
        return CostSource::Zero;
    }
    match pricing {
        Some(pricing) => if route.is_some() && pricing.provider_model {
            CostSource::ProviderModel
        } else if pricing.model_at {
            CostSource::Model
        } else {
            CostSource::Zero
        },
        None => CostSource::Zero,
    }
}

/// The model that the price list lacks, where a price is wanted and there are tokens to price.
pub fn missing_dsh_pricing(
    route: &Option<Route>,
    model: &str,
    usage: TokenUsageRaw,
    mode: CostMode,
    pricing: Option<PricingLookup>,
) -> (r: Option<String>)
    ensures
        text_view(r) == unpriced_model(fields::route_view(*route), model@, usage, mode, pricing),
{
    if mode == CostMode::Display || total_tokens(usage) == 0 {
        return None;
    }
    let pricing = pricing?;
    if (route.is_some() && pricing.provider_model) || pricing.model {
        None
    } else {
        Some(model.to_string())
    }
}

fn write_entry_id(session_id: &str, key: StepKey, index: u32) -> (r: String)
    ensures
        r@ == entry_id(session_id@, key, index),
{
    let mut id = String::new();
    id.append("dsh:");
    id.append(session_id);
    id.append(":");
    push_decimal(&mut id, key.turn);
    id.append(":");
    push_decimal(&mut id, key.step);
    id.append(":");
    push_decimal(&mut id, index as u64);
    assert(id@ =~= entry_id(session_id@, key, index));
    id
}

/// The entry of an attempt, given its time as it is written and what the price list has for it.
pub fn to_loaded_entry(
    session_id: &str,
    project_path: &str,
    sample: AttemptSample,
    written: WrittenTime,
    mode: CostMode,
    pricing: Option<PricingLookup>,
) -> (r: LoadedEntry)
    ensures
        r@ == entry_of(
            session_id@,
            project_path@,
            sample@,
            written.timestamp@,
            written.date@,
            mode,
            pricing,
        ),
{
    let model = model_name(&sample.route);
    let usage = sample.usage.raw;
    let cost = calculate_dsh_cost(&sample.route, mode, pricing);
    let missing_pricing_model = missing_dsh_pricing(
        &sample.route,
        model.as_str(),
        usage,
        mode,
        pricing,
    );
    let id = write_entry_id(session_id, sample.key, sample.index);
    LoadedEntry {
        data: UsageEntry {
            session_id: Some(session_id.to_string()),
            timestamp: written.timestamp,
            message: UsageMessage { usage, model: Some(model.clone()), id: Some(id) },
        },
        timestamp: sample.timestamp,
        date: written.date,
        project: "dsh".to_string(),
        session_id: session_id.to_string(),
        project_path: project_path.to_string(),
        cost,
        extra_total_tokens: sample.usage.extra_total_tokens,
        message_count: Some(1),
        model: Some(model),
        missing_pricing_model,
    }
}

/// What is known of an attempt besides its log: its time as it is written, and what the price list
/// has for it if there is one.
#[derive(Debug)]
pub struct AttemptFacts {
    pub written: WrittenTime,
    pub pricing: Option<PricingLookup>,
}

/// The entries of a session, one for each of its samples in their order. `facts` says of each
/// sample what is known of it besides the log.
pub fn session_entries(session: SessionLog, facts: Vec<AttemptFacts>, mode: CostMode) -> (r: Vec<
    LoadedEntry,
>)
    requires
        facts@.len() == session.samples@.len(),
    ensures
        r@.len() == session@.samples.len(),
        forall|i: int|
            0 <= i < r@.len() ==> (#[trigger] r@[i])@ == entry_of(
                session@.session_id,
                session@.project_path,
                session@.samples[i],
                facts@[i].written.timestamp@,
                facts@[i].written.date@,
                mode,
                facts@[i].pricing,
            ),
{
    let ghost samples = session.samples@;
    let ghost known = facts@;
    let ghost view = session@;
    let SessionLog { session_id, project_path, samples: rest } = session;
    let mut rest = rest;
    let mut facts = facts;
    let mut entries: Vec<LoadedEntry> = Vec::new();
    rest = reversed(rest);
    facts = reversed(facts);
    while rest.len() > 0
        invariant
            session_id@ == view.session_id,
            project_path@ == view.project_path,
            view.samples == attempts::sample_views(samples),
            known.len() == samples.len(),
            entries@.len() + rest@.len() == samples.len(),
            rest@.len() == facts@.len(),
            forall|i: int|
                0 <= i < rest@.len() ==> #[trigger] rest@[i] == samples[samples.len() - 1 - i],
            forall|i: int|
                0 <= i < facts@.len() ==> #[trigger] facts@[i] == known[known.len() - 1 - i],
            forall|i: int|
                0 <= i < entries@.len() ==> (#[trigger] entries@[i])@ == entry_of(
                    view.session_id,
                    view.project_path,
                    view.samples[i],
                    known[i].written.timestamp@,
                    known[i].written.date@,
                    mode,
                    known[i].pricing,
                ),
        decreases rest@.len(),
    {
        if let (Some(sample), Some(fact)) = (rest.pop(), facts.pop()) {
            entries.push(
                to_loaded_entry(
                    session_id.as_str(),
                    project_path.as_str(),
                    sample,
                    fact.written,
                    mode,
                    fact.pricing,
                ),
            );
        }
    }
    entries
}

// ---------------------------------------------------------------------------------------------
// Laws
// ---------------------------------------------------------------------------------------------

/// A text and a numeral behind a colon can be told apart again.
proof fn lemma_last_field(a: Seq<char>, m: nat, b: Seq<char>, n: nat)
    requires
        a + ":"@ + text::decimal(m) == b + ":"@ + text::decimal(n),
    ensures
        a == b,
        m == n,
{
    reveal_strlit(":");
    let x = a + ":"@ + text::decimal(m);
    let y = b + ":"@ + text::decimal(n);
    let p = text::decimal(m);
    let q = text::decimal(n);
    assert(x == y);
    assert(x.len() == a.len() + 1 + p.len());
    assert(y.len() == b.len() + 1 + q.len());
    assert(x[a.len() as int] == ':');
    assert(y[b.len() as int] == ':');
    if a.len() < b.len() {
        let i = b.len() - a.len() - 1;
        text::lemma_decimal_digits(m, i);
        assert(x[b.len() as int] == p[i]);
    } else if b.len() < a.len() {
        let i = a.len() - b.len() - 1;
        text::lemma_decimal_digits(n, i);
        assert(y[a.len() as int] == q[i]);
    }
    assert(a =~= x.take(a.len() as int));
    assert(b =~= y.take(b.len() as int));
    assert(p =~= x.skip(a.len() as int + 1));
    assert(q =~= y.skip(b.len() as int + 1));
    text::lemma_decimal_injective(m, n);
}

/// Different attempts have different ids: an id tells the session, the step and the index of its
/// attempt.
pub proof fn law_ids_tell_attempts_apart(
    session_id: Seq<char>,
    key: StepKey,
    index: u32,
    other_session_id: Seq<char>,
    other_key: StepKey,
    other_index: u32,
)
    requires
        entry_id(session_id, key, index) == entry_id(other_session_id, other_key, other_index),
    ensures
        session_id == other_session_id,
        key == other_key,
        index == other_index,
{
    let a = "dsh:"@ + session_id;
    let b = "dsh:"@ + other_session_id;
    let a_turn = a + ":"@ + text::decimal(key.turn as nat);
    let b_turn = b + ":"@ + text::decimal(other_key.turn as nat);
    let a_step = a_turn + ":"@ + text::decimal(key.step as nat);
    let b_step = b_turn + ":"@ + text::decimal(other_key.step as nat);
    lemma_last_field(a_step, index as nat, b_step, other_index as nat);
    lemma_last_field(a_turn, key.step as nat, b_turn, other_key.step as nat);
    lemma_last_field(a, key.turn as nat, b, other_key.turn as nat);
    reveal_strlit("dsh:");
    assert(session_id =~= a.skip(4));
    assert(other_session_id =~= b.skip(4));
}

/// Where costs are displayed as recorded, there is none and no price is missed.
pub proof fn law_display_reports_no_cost(
    route: Option<RouteView>,
    model: Seq<char>,
    usage: TokenUsageRaw,
    pricing: Option<PricingLookup>,
)
    ensures
        cost_source(route, CostMode::Display, pricing) == CostSource::Zero,
        unpriced_model(route, model, usage, CostMode::Display, pricing) is None,
{
}

/// Logs carry no cost of their own: looking for one first comes to the same as calculating it.
pub proof fn law_auto_calculates(
    route: Option<RouteView>,
    model: Seq<char>,
    usage: TokenUsageRaw,
    pricing: Option<PricingLookup>,
)
    ensures
        cost_source(route, CostMode::Auto, pricing) == cost_source(
            route,
            CostMode::Calculate,
            pricing,
        ),
        unpriced_model(route, model, usage, CostMode::Auto, pricing) == unpriced_model(
            route,
            model,
            usage,
            CostMode::Calculate,
            pricing,
        ),
{
}

/// An exact price for the provider and the model comes before any other, and with it no price is
/// missed.
pub proof fn law_exact_price_comes_first(
    route: RouteView,
    model: Seq<char>,
    usage: TokenUsageRaw,
    mode: CostMode,
    pricing: PricingLookup,
)
    requires
        mode != CostMode::Display,
        pricing.provider_model,
    ensures
        cost_source(Some(route), mode, Some(pricing)) == CostSource::ProviderModel,
        unpriced_model(Some(route), model, usage, mode, Some(pricing)) is None,
{
}

/// An entry says what its sample says: its tokens, its time, and the model of its route, or
/// `unknown` where it has none. The message has the same model, and the session and the project are
/// the given ones.
pub proof fn law_entry_says_what_its_sample_says(
    session_id: Seq<char>,
    project_path: Seq<char>,
    sample: SampleView,
    timestamp: Seq<char>,
    date: Seq<char>,
    mode: CostMode,
    pricing: Option<PricingLookup>,
)
    ensures
        ({
            let entry = entry_of(
                session_id,
                project_path,
                sample,
                timestamp,
                date,
                mode,
                pricing,
            );
            let model = match sample.route {
                Some(route) => route.model,
                None => "unknown"@,
            };
            &&& entry.usage.input_tokens == sample.usage.raw.input_tokens
            &&& entry.usage.output_tokens == sample.usage.raw.output_tokens
            &&& entry.usage.cache_creation_input_tokens
                == sample.usage.raw.cache_creation_input_tokens
            &&& entry.usage.cache_read_input_tokens == sample.usage.raw.cache_read_input_tokens
            &&& entry.extra_total_tokens == sample.usage.extra_total_tokens
            &&& entry.timestamp == sample.timestamp
            &&& entry.model == Some(model)
            &&& entry.message_model == Some(model)
            &&& entry.message_count == Some(1u64)
            &&& entry.session_id == session_id
            &&& entry.data_session_id == Some(session_id)
            &&& entry.project_path == project_path
            &&& entry.project == "dsh"@
            &&& entry.data_timestamp == timestamp
            &&& entry.date == date
        }),
{
}

/// An entry is priced by the route of its sample: in any mode but display, an exact price for
/// provider and model counts first and leaves no price missing; else the price of the model at the
/// time counts if there is one, and the model is missed where the list has it at no time and there
/// are tokens in the buckets. Without a list, or in display mode, there is no cost and nothing is
/// missed.
pub proof fn law_entry_is_priced_by_its_route(
    session_id: Seq<char>,
    project_path: Seq<char>,
    sample: SampleView,
    timestamp: Seq<char>,
    date: Seq<char>,
    mode: CostMode,
    pricing: Option<PricingLookup>,
)
    ensures
        ({
            let entry = entry_of(
                session_id,
                project_path,
                sample,
                timestamp,
                date,
                mode,
                pricing,
            );
            let raw = sample.usage.raw;
            let tokens = raw.input_tokens + raw.output_tokens + raw.cache_creation_input_tokens
                + raw.cache_read_input_tokens;
            match pricing {
                Some(list) => if mode == CostMode::Display {
                    entry.cost == CostSource::Zero && entry.missing_pricing_model is None
                } else if sample.route is Some && list.provider_model {
                    entry.cost == CostSource::ProviderModel && entry.missing_pricing_model is None
                } else {
                    &&& list.model_at ==> entry.cost == CostSource::Model
                    &&& !list.model_at ==> entry.cost == CostSource::Zero
                    &&& !list.model && tokens > 0 ==> entry.missing_pricing_model == entry.model
                    &&& list.model || tokens == 0 ==> entry.missing_pricing_model is None
                },
                None => entry.cost == CostSource::Zero && entry.missing_pricing_model is None,
            }
        }),
{
}

/// The cost and the missing model of a route follow the same rule wherever they are asked for.
pub proof fn law_prices_follow_the_route(
    route: Option<RouteView>,
    model: Seq<char>,
    usage: TokenUsageRaw,
    mode: CostMode,
    list: PricingLookup,
)
    requires
        mode != CostMode::Display,
    ensures
        cost_source(route, mode, None) == CostSource::Zero,
        unpriced_model(route, model, usage, mode, None) is None,
        route is None || !list.provider_model ==> {
            &&& cost_source(route, mode, Some(list)) == if list.model_at {
                CostSource::Model
            } else {
                CostSource::Zero
            }
            &&& unpriced_model(route, model, usage, mode, Some(list)) == if !list.model && (
            usage.input_tokens > 0 || usage.output_tokens > 0 || usage.cache_creation_input_tokens
                > 0 || usage.cache_read_input_tokens > 0) {
                Some(model)
            } else {
                None
            }
        },
{
}

/// An id spells `dsh`, the session, the turn, the step and the index, with a colon between each two.
pub proof fn law_ids_spell_their_attempt(
    session_id: Seq<char>,
    sample: SampleView,
    project_path: Seq<char>,
    timestamp: Seq<char>,
    date: Seq<char>,
    mode: CostMode,
    pricing: Option<PricingLookup>,
)
    ensures
        entry_of(session_id, project_path, sample, timestamp, date, mode, pricing).id == Some(
            text::joined(
                seq![
                    "dsh"@,
                    session_id,
                    text::decimal(sample.key.turn as nat),
                    text::decimal(sample.key.step as nat),
                    text::decimal(sample.index as nat),
                ],
                ':',
            ),
        ),
{
    reveal_strlit("dsh:");
    reveal_strlit("dsh");
    reveal_strlit(":");
    let turn = text::decimal(sample.key.turn as nat);
    let step = text::decimal(sample.key.step as nat);
    let index = text::decimal(sample.index as nat);
    let one = seq!["dsh"@];
    let two = seq!["dsh"@, session_id];
    let three = seq!["dsh"@, session_id, turn];
    let four = seq!["dsh"@, session_id, turn, step];
    let five = seq!["dsh"@, session_id, turn, step, index];
    assert(two.drop_last() =~= one);
    assert(three.drop_last() =~= two);
    assert(four.drop_last() =~= three);
    assert(five.drop_last() =~= four);
    reveal_with_fuel(text::joined, 6);
    assert(text::joined(five, ':') =~= entry_id(session_id, sample.key, sample.index));
}

/// The exact name of a route is its provider and its model with a slash between them, and the name
/// of its model is the model alone.
pub proof fn law_routes_have_two_names(route: RouteView)
    ensures
        exact_name(route) == route.provider.push('/') + route.model,
        model_of(Some(route)) == route.model,
        model_of(None) == "unknown"@,
{
    reveal_strlit("/");
    assert(exact_name(route) =~= route.provider.push('/') + route.model);
}

/// The model of an entry keeps each of its parts.
pub proof fn law_entry_models_keep_their_parts(entry: LoadedEntry)
    ensures
        entry@.data_session_id == text_view(entry.data.session_id),
        entry@.data_timestamp == entry.data.timestamp@,
        entry@.usage == entry.data.message.usage,
        entry@.message_model == text_view(entry.data.message.model),
        entry@.id == text_view(entry.data.message.id),
        entry@.timestamp == entry.timestamp,
        entry@.date == entry.date@,
        entry@.project == entry.project@,
        entry@.session_id == entry.session_id@,
        entry@.project_path == entry.project_path@,
        entry@.cost == entry.cost,
        entry@.extra_total_tokens == entry.extra_total_tokens,
        entry@.message_count == entry.message_count,
        entry@.model == text_view(entry.model),
        entry@.missing_pricing_model == text_view(entry.missing_pricing_model),
        text_view(None) is None,
        entry.data.message.id matches Some(id) ==> text_view(Some(id)) == Some(id@),
{
}

} // verus!
