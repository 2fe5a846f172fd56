//! The fields that the log's records carry: texts, counters, times, step keys and routes.

use crate::json::{Json, JsonTree};
use crate::text::trim;
use crate::{json, text};
use vstd::prelude::*;

verus! {

/// A point in time, in milliseconds since the Unix epoch.
#[derive(Clone, Copy, Debug, PartialEq, Eq, Structural)]
pub struct TimestampMs {
    pub millis: i64,
}

impl TimestampMs {
    pub fn from_millis(millis: i64) -> (r: TimestampMs)
        ensures
            r == (TimestampMs { millis }),
    {
        TimestampMs { millis }
    }
}

/// The time that is so many milliseconds after the Unix epoch, or the last that can be told.
pub open spec fn time_after_epoch(millis: u128) -> TimestampMs {
    TimestampMs {
        millis: if millis <= i64::MAX {
            millis as i64
        } else {
            i64::MAX
        },
    }
}

/// The time that counts for a file, given when it was modified and the present time.
pub open spec fn file_time(modified: Option<u128>, now: Option<u128>) -> TimestampMs {
    match modified {
        Some(millis) => time_after_epoch(millis),
        None => match now {
            Some(millis) => time_after_epoch(millis),
            None => TimestampMs { millis: 0 },
        },
    }
}

/// The time of a session file: when it was modified, or else the present time, or else the Unix
/// epoch. The times are in milliseconds after the epoch.
pub fn file_timestamp(modified: Option<u128>, now: Option<u128>) -> (r: TimestampMs)
    ensures
        r == match (modified, now) {
            (Some(millis), _) => time_after_epoch(millis),
            (None, Some(millis)) => time_after_epoch(millis),
            (None, None) => (TimestampMs { millis: 0 }),
        },
        r == file_time(modified, now),
{
    let millis: u128 = match modified {
        Some(millis) => millis,
        None => match now {
            Some(millis) => millis,
            None => 0,
        },
    };
    if millis <= 0x7fff_ffff_ffff_ffff {
        TimestampMs::from_millis(millis as i64)
    } else {
        TimestampMs::from_millis(i64::MAX)
    }
}

/// The step of a session that a record belongs to.
#[derive(Clone, Copy, Debug, PartialEq, Eq, Hash, Structural)]
pub struct StepKey {
    pub turn: u64,
    pub step: u64,
}

/// The provider and the model that a request goes to.
#[derive(Debug)]
pub struct Route {
    pub provider: String,
    pub model: String,
}

/// The model of a [`Route`].
pub struct RouteView {
    pub provider: Seq<char>,
    pub model: Seq<char>,
}

impl View for Route {
    type V = RouteView;

    open spec fn view(&self) -> RouteView {
        RouteView { provider: self.provider@, model: self.model@ }
    }
}

impl Clone for Route {
    fn clone(&self) -> (r: Route)
        ensures
            r@ == self@,
    {
        Route { provider: self.provider.clone(), model: self.model.clone() }
    }
}

/// The model of a route that may be missing.
pub open spec fn route_view(route: Option<Route>) -> Option<RouteView> {
    match route {
        Some(route) => Some(route@),
        None => None,
    }
}

/// A copy of a route that may be missing.
pub fn clone_route(route: &Option<Route>) -> (r: Option<Route>)
    ensures
        route_view(r) == route_view(*route),
{
    match route {
        Some(route) => Some(route.clone()),
        None => None,
    }
}

/// The characters of each name of a path.
pub open spec fn names(path: Seq<&str>) -> Seq<Seq<char>> {
    Seq::new(path.len(), |i: int| path[i]@)
}

/// The text at `path`, without white space at its ends, where something is left of it.
pub open spec fn text_at(tree: JsonTree, path: Seq<Seq<char>>) -> Option<Seq<char>> {
    match tree.at(path) {
        Some(value) => match value.text() {
            Some(s) => if text::trimmed(s).len() > 0 {
                Some(text::trimmed(s))
            } else {
                None
            },
            None => None,
        },
        None => None,
    }
}

/// The `u64` at `path`.
pub open spec fn count_at(tree: JsonTree, path: Seq<Seq<char>>) -> Option<u64> {
    match tree.at(path) {
        Some(value) => value.unsigned(),
        None => None,
    }
}

/// The time at `path`: a positive integer.
pub open spec fn time_at(tree: JsonTree, path: Seq<Seq<char>>) -> Option<TimestampMs> {
    match tree.at(path) {
        Some(value) => match value.signed() {
            Some(millis) => if millis > 0 {
                Some(TimestampMs { millis })
            } else {
                None
            },
            None => None,
        },
        None => None,
    }
}

/// The step that `data` names by its `turn` and `step`.
pub open spec fn key_of(data: JsonTree) -> Option<StepKey> {
    match (count_at(data, seq!["turn"@]), count_at(data, seq!["step"@])) {
        (Some(turn), Some(step)) => Some(StepKey { turn, step }),
        _ => None,
    }
}

/// The route at `path`: both its provider and its model are there.
pub open spec fn route_of(tree: JsonTree, path: Seq<Seq<char>>) -> Option<RouteView> {
    match tree.at(path) {
        Some(value) => match (text_at(value, seq!["provider"@]), text_at(value, seq!["model"@])) {
            (Some(provider), Some(model)) => Some(RouteView { provider, model }),
            _ => None,
        },
        None => None,
    }
}

/// What stands at the end of `path`.
pub fn at<'a>(value: &'a Json, path: &[&str]) -> (r: Option<&'a Json>)
    ensures
        json::tree_of(r) == value@.at(names(path@)),
{
    let ghost all = names(path@);
    let mut current: &Json = value;
    let mut i: usize = 0;
    assert(all.skip(0) =~= all);
    while i < path.len()
        invariant
            i <= path@.len(),
            all == names(path@),
            value@.at(all) == current@.at(all.skip(i as int)),
        decreases path@.len() - i,
    {
        assert(all.skip(i as int).drop_first() =~= all.skip(i + 1));
        match current.get(path[i]) {
            Some(next) => {
                current = next;
            },
            None => {
                return None;
            },
        }
        i += 1;
    }
    Some(current)
}

/// The text at `path`, without white space at its ends, where something is left of it.
pub fn string_at(value: &Json, path: &[&str]) -> (r: Option<String>)
    ensures
        match r {
            Some(s) => text_at(value@, names(path@)) == Some(s@),
            None => text_at(value@, names(path@)) is None,
        },
{
    match at(value, path) {
        Some(found) => match found.as_str() {
            Some(s) => {
                let s = trim(s);
                if s.is_empty() {
                    None
                } else {
                    Some(s.to_string())
                }
            },
            None => None,
        },
        None => None,
    }
}

/// The `u64` at `path`.
pub fn u64_at(value: &Json, path: &[&str]) -> (r: Option<u64>)
    ensures
        r == count_at(value@, names(path@)),
{
    match at(value, path) {
        Some(found) => found.as_u64(),
        None => None,
    }
}

/// The time at `path`: a positive integer.
pub fn timestamp_at(value: &Json, path: &[&str]) -> (r: Option<TimestampMs>)
    ensures
        r == time_at(value@, names(path@)),
{
    match at(value, path) {
        Some(found) => match found.as_i64() {
            Some(millis) => if millis > 0 {
                Some(TimestampMs::from_millis(millis))
            } else {
                None
            },
            None => None,
        },
        None => None,
    }
}

/// The step that `data` names by its `turn` and `step`.
pub fn step_key(data: &Json) -> (r: Option<StepKey>)
    ensures
        r == key_of(data@),
{
    let turn_path: &[&str] = &["turn"];
    let step_path: &[&str] = &["step"];
    assert(names(turn_path@) =~= seq!["turn"@]);
    assert(names(step_path@) =~= seq!["step"@]);
    let turn = u64_at(data, turn_path);
    let step = u64_at(data, step_path);
    match (turn, step) {
        (Some(turn), Some(step)) => Some(StepKey { turn, step }),
        _ => None,
    }
}

/// The route at `path`: both its provider and its model are there.
pub fn route_at(value: &Json, path: &[&str]) -> (r: Option<Route>)
    ensures
        route_view(r) == route_of(value@, names(path@)),
{
    match at(value, path) {
        Some(found) => {
            let provider_path: &[&str] = &["provider"];
            let model_path: &[&str] = &["model"];
            assert(names(provider_path@) =~= seq!["provider"@]);
            assert(names(model_path@) =~= seq!["model"@]);
            let provider = string_at(found, provider_path);
            let model = string_at(found, model_path);
            match (provider, model) {
                (Some(provider), Some(model)) => Some(Route { provider, model }),
                _ => None,
            }
        },
        None => None,
    }
}

// ---------------------------------------------------------------------------------------------
// Laws
// ---------------------------------------------------------------------------------------------


/// A text at a path is there where a text value stands that is more than white space, and is that
/// value without the white space at its ends.
pub proof fn law_texts_are_trimmed(tree: JsonTree, path: Seq<Seq<char>>)
    ensures
        match tree.at(path) {
            Some(JsonTree::Text(s)) => if text::trimmed(s).len() > 0 {
                text_at(tree, path) == Some(text::trimmed(s))
            } else {
                text_at(tree, path) is None
            },
            _ => text_at(tree, path) is None,
        },
{
}

/// A time at a path is there where a positive integer stands that an `i64` holds, and is that many
/// milliseconds after the epoch.
pub proof fn law_times_are_positive(tree: JsonTree, path: Seq<Seq<char>>)
    ensures
        match tree.at(path) {
            Some(JsonTree::Number { signed: Some(millis), .. }) => if millis > 0 {
                time_at(tree, path) == Some(TimestampMs { millis })
            } else {
                time_at(tree, path) is None
            },
            _ => time_at(tree, path) is None,
        },
{
}

/// A count at a path is the integer that stands there where a `u64` holds it, zero included.
pub proof fn law_counts_are_unsigned(tree: JsonTree, path: Seq<Seq<char>>)
    ensures
        match tree.at(path) {
            Some(JsonTree::Number { unsigned, .. }) => count_at(tree, path) == unsigned,
            _ => count_at(tree, path) is None,
        },
{
}

/// A step is named by two counters: `turn` and `step`. Both have to be there.
pub proof fn law_steps_are_named_by_turn_and_step(data: JsonTree)
    ensures
        match (data.member("turn"@), data.member("step"@)) {
            (
                Some(JsonTree::Number { unsigned: Some(turn), .. }),
                Some(JsonTree::Number { unsigned: Some(step), .. }),
            ) => key_of(data) == Some(StepKey { turn, step }),
            _ => key_of(data) is None,
        },
{
    json::law_paths_lead_on(data, "turn"@, Seq::empty(), Seq::empty());
    json::law_paths_lead_on(data, "step"@, Seq::empty(), Seq::empty());
}

/// A route at a path is made of the `provider` and the `model` there, each a text that is more than
/// white space and counts without the white space at its ends. Both have to be there.
pub proof fn law_routes_have_provider_and_model(tree: JsonTree, path: Seq<Seq<char>>)
    ensures
        route_of(tree, path) is Some ==> tree.at(path) is Some,
        tree.at(path) matches Some(value) ==> match (
            value.member("provider"@),
            value.member("model"@),
        ) {
            (Some(JsonTree::Text(p)), Some(JsonTree::Text(m))) => if text::trimmed(p).len() > 0
                && text::trimmed(m).len() > 0 {
                route_of(tree, path) == Some(
                    RouteView { provider: text::trimmed(p), model: text::trimmed(m) },
                )
            } else {
                route_of(tree, path) is None
            },
            _ => route_of(tree, path) is None,
        },
{
    if let Some(value) = tree.at(path) {
        json::law_paths_lead_on(value, "provider"@, Seq::empty(), Seq::empty());
        json::law_paths_lead_on(value, "model"@, Seq::empty(), Seq::empty());
    }
}

/// A time after the epoch counts its milliseconds, up to the last that can be told.
pub proof fn law_times_count_milliseconds(millis: u128)
    ensures
        millis <= i64::MAX ==> time_after_epoch(millis).millis == millis,
        millis > i64::MAX ==> time_after_epoch(millis).millis == i64::MAX,
{
}

/// The model of a route keeps its two names apart, and that of a missing route is missing.
pub proof fn law_route_models_keep_their_names(route: Route)
    ensures
        route_view(Some(route)) == Some(
            RouteView { provider: route.provider@, model: route.model@ },
        ),
        route_view(None) is None,
{
}

/// A file that says when it was modified counts from then, whatever the present time is; another
/// counts from the present time, or from the epoch where that is not known.
pub proof fn law_files_count_from_their_change(modified: u128, now: Option<u128>, present: u128)
    ensures
        file_time(Some(modified), now).millis == if modified <= i64::MAX {
            modified as int
        } else {
            i64::MAX as int
        },
        file_time(None, Some(present)) == file_time(Some(present), now),
        file_time(None, None).millis == 0,
{
}

} // verus!
