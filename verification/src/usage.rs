//! Token usage: the counters of one request attempt and how a record states them.

use crate::fields::at;
use crate::json::{Json, JsonTree};
use crate::text::same_text;
use crate::{fields, json};
use vstd::prelude::*;

verus! {

/// The billed token buckets; no token is in two of them.
#[derive(Clone, Copy, Debug, PartialEq, Eq, Structural)]
pub struct TokenUsageRaw {
    pub input_tokens: u64,
    pub output_tokens: u64,
    pub cache_creation_input_tokens: u64,
    pub cache_read_input_tokens: u64,
}

/// A valid usage sample: its buckets, and the tokens of its stated total that no bucket holds.
#[derive(Clone, Copy, Debug, PartialEq, Eq, Structural)]
pub struct ParsedUsage {
    pub raw: TokenUsageRaw,
    pub extra_total_tokens: u64,
}

impl TokenUsageRaw {
    /// The sum of the buckets.
    pub open spec fn sum(self) -> int {
        self.input_tokens + self.output_tokens + self.cache_creation_input_tokens
            + self.cache_read_input_tokens
    }
}

impl ParsedUsage {
    /// The sum of the buckets and of the tokens beyond them.
    pub open spec fn sum(self) -> int {
        self.raw.sum() + self.extra_total_tokens
    }
}

/// `n`, or the largest `u64` where `n` is larger.
pub open spec fn capped(n: int) -> u64 {
    if n <= u64::MAX {
        n as u64
    } else {
        u64::MAX
    }
}

/// The `u64` named `key`, which has to be there.
pub open spec fn required_count(tree: JsonTree, key: Seq<char>) -> Option<u64> {
    match tree.member(key) {
        Some(value) => value.unsigned(),
        None => None,
    }
}

/// The `u64` named `key`, which may be missing but not malformed: `None` is malformed,
/// `Some(None)` is missing.
pub open spec fn optional_count(tree: JsonTree, key: Seq<char>) -> Option<Option<u64>> {
    match tree.member(key) {
        Some(value) => match value.unsigned() {
            Some(n) => Some(Some(n)),
            None => None,
        },
        None => Some(None),
    }
}

/// What an optional counter adds to a sum.
pub open spec fn or_zero(count: Option<u64>) -> u64 {
    match count {
        Some(n) => n,
        None => 0,
    }
}

/// The usage that the counters state, where they are consistent: reasoning is part of the output,
/// the buckets together fit a `u64`, and a stated total covers them, exactly so where both cache
/// buckets are stated.
pub open spec fn usage_of_counts(
    input: u64,
    output: u64,
    cache_read: Option<u64>,
    cache_write: Option<u64>,
    reasoning: Option<u64>,
    total: Option<u64>,
) -> Option<ParsedUsage> {
    let raw = TokenUsageRaw {
        input_tokens: input,
        output_tokens: output,
        cache_creation_input_tokens: or_zero(cache_write),
        cache_read_input_tokens: or_zero(cache_read),
    };
    if or_zero(reasoning) > output || raw.sum() > u64::MAX {
        None
    } else {
        match total {
            None => Some(ParsedUsage { raw, extra_total_tokens: 0 }),
            Some(total) => if total < raw.sum() || (cache_read is Some && cache_write is Some
                && total != raw.sum()) {
                None
            } else {
                Some(ParsedUsage { raw, extra_total_tokens: (total - raw.sum()) as u64 })
            },
        }
    }
}

/// The usage that a JSON value states.
pub open spec fn usage_of(value: Option<JsonTree>) -> Option<ParsedUsage> {
    match value {
        None => None,
        Some(tree) => match (
            required_count(tree, "inputTokens"@),
            required_count(tree, "outputTokens"@),
            optional_count(tree, "cacheReadTokens"@),
            optional_count(tree, "cacheWriteTokens"@),
            optional_count(tree, "reasoningTokens"@),
            optional_count(tree, "totalTokens"@),
        ) {
            (
                Some(input),
                Some(output),
                Some(cache_read),
                Some(cache_write),
                Some(reasoning),
                Some(total),
            ) => usage_of_counts(input, output, cache_read, cache_write, reasoning, total),
            _ => None,
        },
    }
}

/// The usage that a value of type `usage` carries.
pub open spec fn chunk_usage(tree: JsonTree) -> Option<ParsedUsage> {
    if tree.member_text("type"@) == Some("usage"@) {
        usage_of(tree.member("usage"@))
    } else {
        None
    }
}

/// The usage that the value at `path` carries.
pub open spec fn usage_at_path(tree: JsonTree, path: Seq<Seq<char>>) -> Option<ParsedUsage> {
    match tree.at(path) {
        Some(value) => chunk_usage(value),
        None => None,
    }
}

/// The last usage in `tree`, where an object comes before its members.
pub open spec fn last_usage(tree: JsonTree) -> Option<ParsedUsage>
    decreases tree,
{
    match tree {
        JsonTree::Array(items) => last_usage_of_items(items),
        JsonTree::Object(members) => match last_usage_of_members(members) {
            Some(usage) => Some(usage),
            None => chunk_usage(tree),
        },
        _ => None,
    }
}

/// The last usage in a sequence of values.
pub open spec fn last_usage_of_items(items: Seq<JsonTree>) -> Option<ParsedUsage>
    decreases items,
{
    if items.len() == 0 {
        None
    } else {
        match last_usage(items[items.len() - 1]) {
            Some(usage) => Some(usage),
            None => last_usage_of_items(items.subrange(0, items.len() - 1)),
        }
    }
}

/// The last usage in a sequence of members.
pub open spec fn last_usage_of_members(members: Seq<(Seq<char>, JsonTree)>) -> Option<ParsedUsage>
    decreases members,
{
    if members.len() == 0 {
        None
    } else {
        match last_usage(members[members.len() - 1].1) {
            Some(usage) => Some(usage),
            None => last_usage_of_members(members.subrange(0, members.len() - 1)),
        }
    }
}

/// The last usage in a value that may be missing.
pub open spec fn last_usage_in(value: Option<JsonTree>) -> Option<ParsedUsage> {
    match value {
        Some(tree) => last_usage(tree),
        None => None,
    }
}

/// The sum of the buckets.
pub fn total_tokens(usage: TokenUsageRaw) -> (r: u64)
    ensures
        r == capped(usage.sum()),
{
    usage.input_tokens.saturating_add(usage.output_tokens).saturating_add(
        usage.cache_creation_input_tokens,
    ).saturating_add(usage.cache_read_input_tokens)
}

/// The sum of the buckets and of the tokens beyond them.
pub fn parsed_total_tokens(usage: ParsedUsage) -> (r: u64)
    ensures
        r == capped(usage.sum()),
{
    total_tokens(usage.raw).saturating_add(usage.extra_total_tokens)
}

/// The `u64` named `key`, which may be missing but not malformed.
pub fn optional_u64(value: &Json, key: &str) -> (r: Option<Option<u64>>)
    ensures
        r == optional_count(value@, key@),
{
    match value.get(key) {
        Some(found) => match found.as_u64() {
            Some(n) => Some(Some(n)),
            None => None,
        },
        None => Some(None),
    }
}

fn required_u64(value: &Json, key: &str) -> (r: Option<u64>)
    ensures
        r == required_count(value@, key@),
{
    match value.get(key) {
        Some(found) => found.as_u64(),
        None => None,
    }
}

fn zero_if_missing(count: Option<u64>) -> (r: u64)
    ensures
        r == or_zero(count),
{
    match count {
        Some(n) => n,
        None => 0,
    }
}

/// The usage that a JSON value states; `None` where a counter is malformed or the counters
/// contradict each other.
pub fn usage_from_value(value: Option<&Json>) -> (r: Option<ParsedUsage>)
    ensures
        r == usage_of(json::tree_of(value)),
{
    let value = value?;
    let input = required_u64(value, "inputTokens")?;
    let output = required_u64(value, "outputTokens")?;
    let cache_read = optional_u64(value, "cacheReadTokens")?;
    let cache_write = optional_u64(value, "cacheWriteTokens")?;
    let reasoning = optional_u64(value, "reasoningTokens")?;
    let stated_total = optional_u64(value, "totalTokens")?;
    if zero_if_missing(reasoning) > output {
        return None;
    }
    let known_total = input.checked_add(output)?.checked_add(
        zero_if_missing(cache_read),
    )?.checked_add(zero_if_missing(cache_write))?;
    let extra_total_tokens = if let Some(total) = stated_total {
        if total < known_total || (cache_read.is_some() && cache_write.is_some() && total
            != known_total) {
            return None;
        }
        total - known_total
    } else {
        0
    };
    Some(
        ParsedUsage {
            raw: TokenUsageRaw {
                input_tokens: input,
                output_tokens: output,
                cache_creation_input_tokens: zero_if_missing(cache_write),
                cache_read_input_tokens: zero_if_missing(cache_read),
            },
            extra_total_tokens,
        },
    )
}

/// The usage that a value of type `usage` carries.
fn usage_of_chunk(value: &Json) -> (r: Option<ParsedUsage>)
    ensures
        r == chunk_usage(value@),
{
    match value.get("type") {
        Some(kind) => match kind.as_str() {
            Some(kind) => if same_text(kind, "usage") {
                usage_from_value(value.get("usage"))
            } else {
                None
            },
            None => None,
        },
        None => None,
    }
}

/// The usage that the value at `path` carries.
pub fn usage_at(data: &Json, path: &[&str]) -> (r: Option<ParsedUsage>)
    ensures
        r == usage_at_path(data@, fields::names(path@)),
{
    match at(data, path) {
        Some(value) => usage_of_chunk(value),
        None => None,
    }
}

/// Puts the last usage in `value` into `latest`, if there is one.
fn visit(value: &Json, latest: &mut Option<ParsedUsage>)
    ensures
        *final(latest) == match last_usage(value@) {
            Some(usage) => Some(usage),
            None => *old(latest),
        },
    decreases value@,
{
    match value {
        Json::Array(items) => {
            let ghost trees = json::item_trees(items@);
            let ghost before = *latest;
            let mut i: usize = 0;
            proof {
                json::lemma_array_view(*items);
                assert(trees.take(trees.len() as int) =~= trees);
            }
            while i < items.len()
                invariant
                    i <= items@.len(),
                    value@ == JsonTree::Array(trees),
                    trees == json::item_trees(items@),
                    *latest == match last_usage_of_items(trees.take(i as int)) {
                        Some(usage) => Some(usage),
                        None => before,
                    },
                decreases items@.len() - i,
            {
                proof {
                    let next = trees.take(i + 1);
                    assert(next.subrange(0, next.len() - 1) =~= trees.take(i as int));
                    assert(next[next.len() - 1] == items@[i as int]@);
                    assert(decreases_to!(value@ => value@->Array_0[i as int]));
                }
                visit(&items[i], latest);
                i += 1;
            }
        },
        Json::Object(members) => {
            let ghost trees = json::member_trees(members@);
            proof {
                json::lemma_object_view(*members);
                assert(trees.take(trees.len() as int) =~= trees);
            }
            if let Some(usage) = usage_of_chunk(value) {
                *latest = Some(usage);
            }
            let ghost before = *latest;
            let mut i: usize = 0;
            while i < members.len()
                invariant
                    i <= members@.len(),
                    value@ == JsonTree::Object(trees),
                    trees == json::member_trees(members@),
                    *latest == match last_usage_of_members(trees.take(i as int)) {
                        Some(usage) => Some(usage),
                        None => before,
                    },
                decreases members@.len() - i,
            {
                proof {
                    let next = trees.take(i + 1);
                    assert(next.subrange(0, next.len() - 1) =~= trees.take(i as int));
                    assert(next[next.len() - 1].1 == members@[i as int].1@);
                    assert(decreases_to!(value@ => value@->Object_0[i as int].1));
                }
                visit(&members[i].1, latest);
                i += 1;
            }
        },
        _ => {},
    }
}

/// The last usage anywhere in a recorded stream.
pub fn stream_usage(value: Option<&Json>) -> (r: Option<ParsedUsage>)
    ensures
        r == last_usage_in(json::tree_of(value)),
{
    let mut latest: Option<ParsedUsage> = None;
    if let Some(value) = value {
        visit(value, &mut latest);
    }
    latest
}

// ---------------------------------------------------------------------------------------------
// Laws
// ---------------------------------------------------------------------------------------------

/// Reasoning tokens are part of the output: a sample that states them says the same as one that
/// does not.
pub proof fn law_reasoning_is_not_added(
    input: u64,
    output: u64,
    cache_read: Option<u64>,
    cache_write: Option<u64>,
    reasoning: u64,
    total: Option<u64>,
)
    requires
        reasoning <= output,
    ensures
        usage_of_counts(input, output, cache_read, cache_write, Some(reasoning), total)
            == usage_of_counts(input, output, cache_read, cache_write, None, total),
{
}

/// Each bucket of a valid sample is one stated counter, and an optional counter that is missing
/// counts as zero.
pub proof fn law_buckets_are_the_stated_counters(tree: JsonTree)
    requires
        usage_of(Some(tree)) is Some,
    ensures
        ({
            let raw = usage_of(Some(tree))->0.raw;
            &&& required_count(tree, "inputTokens"@) == Some(raw.input_tokens)
            &&& required_count(tree, "outputTokens"@) == Some(raw.output_tokens)
            &&& optional_count(tree, "cacheReadTokens"@) matches Some(count) && raw.cache_read_input_tokens
                == or_zero(count)
            &&& optional_count(tree, "cacheWriteTokens"@) matches Some(count)
                && raw.cache_creation_input_tokens == or_zero(count)
        }),
{
}

/// A stated total is no bucket of its own: the tokens of a valid sample add up to its stated total,
/// or to its buckets where it states none. The sum is never cut off.
pub proof fn law_tokens_add_up_to_the_total(tree: JsonTree)
    requires
        usage_of(Some(tree)) is Some,
    ensures
        ({
            let usage = usage_of(Some(tree))->0;
            &&& capped(usage.sum()) == usage.sum()
            &&& match optional_count(tree, "totalTokens"@) {
                Some(Some(total)) => usage.sum() == total,
                _ => usage.sum() == usage.raw.sum(),
            }
        }),
{
}

/// Whether `tree` states the counter named `key` as `count`: as a number that is a `u64`, or not at
/// all.
pub open spec fn states_count(tree: JsonTree, key: Seq<char>, count: Option<u64>) -> bool {
    match count {
        Some(n) => tree.member(key) matches Some(JsonTree::Number { unsigned: Some(m), .. }) && m
            == n,
        None => tree.member(key) is None,
    }
}

/// Every consistent sample is valid, however its counters compare otherwise, and says what it
/// states: the sum of the four buckets fits a `u64`, the reasoning is no more than the output, and a
/// total is the sum, or more than it where a cache counter is missing.
pub proof fn law_consistent_counters_are_valid(
    tree: JsonTree,
    input: u64,
    output: u64,
    cache_read: Option<u64>,
    cache_write: Option<u64>,
    reasoning: Option<u64>,
    total: Option<u64>,
)
    requires
        states_count(tree, "inputTokens"@, Some(input)),
        states_count(tree, "outputTokens"@, Some(output)),
        states_count(tree, "cacheReadTokens"@, cache_read),
        states_count(tree, "cacheWriteTokens"@, cache_write),
        states_count(tree, "reasoningTokens"@, reasoning),
        states_count(tree, "totalTokens"@, total),
    ensures
        ({
            let read = if cache_read is Some { cache_read->0 as int } else { 0 };
            let write = if cache_write is Some { cache_write->0 as int } else { 0 };
            let sum = input + output + read + write;
            let consistent = {
                &&& sum <= u64::MAX
                &&& reasoning is Some ==> reasoning->0 <= output
                &&& total is Some ==> total->0 == sum || (total->0 > sum && (cache_read is None
                    || cache_write is None))
            };
            &&& usage_of(Some(tree)) is Some <==> consistent
            &&& usage_of(Some(tree)) matches Some(usage) ==> {
                &&& usage.raw.input_tokens == input
                &&& usage.raw.output_tokens == output
                &&& usage.raw.cache_read_input_tokens == read
                &&& usage.raw.cache_creation_input_tokens == write
                &&& usage.extra_total_tokens == if total is Some { total->0 - sum } else { 0 }
            }
        }),
{
}

/// A sample with a malformed counter is not valid: input and output have to be there as `u64`, and
/// each other counter has to be one where it is there.
pub proof fn law_malformed_counters_are_refused(tree: JsonTree)
    requires
        ({
            ||| forall|n: u64| !states_count(tree, "inputTokens"@, Some(n))
            ||| forall|n: u64| !states_count(tree, "outputTokens"@, Some(n))
            ||| forall|count: Option<u64>| !states_count(tree, "cacheReadTokens"@, count)
            ||| forall|count: Option<u64>| !states_count(tree, "cacheWriteTokens"@, count)
            ||| forall|count: Option<u64>| !states_count(tree, "reasoningTokens"@, count)
            ||| forall|count: Option<u64>| !states_count(tree, "totalTokens"@, count)
        }),
    ensures
        usage_of(Some(tree)) is None,
{
    if usage_of(Some(tree)) is Some {
        let input = required_count(tree, "inputTokens"@)->0;
        let output = required_count(tree, "outputTokens"@)->0;
        assert(states_count(tree, "inputTokens"@, Some(input)));
        assert(states_count(tree, "outputTokens"@, Some(output)));
        let read = optional_count(tree, "cacheReadTokens"@)->0;
        let write = optional_count(tree, "cacheWriteTokens"@)->0;
        let reasoning = optional_count(tree, "reasoningTokens"@)->0;
        let total = optional_count(tree, "totalTokens"@)->0;
        assert(states_count(tree, "cacheReadTokens"@, read));
        assert(states_count(tree, "cacheWriteTokens"@, write));
        assert(states_count(tree, "reasoningTokens"@, reasoning));
        assert(states_count(tree, "totalTokens"@, total));
    }
}

/// A missing value states no usage.
pub proof fn law_nothing_states_no_usage()
    ensures
        usage_of(None) is None,
        last_usage_in(None) is None,
{
}

/// Only the six counters of a sample count: two values that agree in them state the same usage.
pub proof fn law_other_members_do_not_count(a: JsonTree, b: JsonTree)
    requires
        a.member("inputTokens"@) == b.member("inputTokens"@),
        a.member("outputTokens"@) == b.member("outputTokens"@),
        a.member("cacheReadTokens"@) == b.member("cacheReadTokens"@),
        a.member("cacheWriteTokens"@) == b.member("cacheWriteTokens"@),
        a.member("reasoningTokens"@) == b.member("reasoningTokens"@),
        a.member("totalTokens"@) == b.member("totalTokens"@),
    ensures
        usage_of(Some(a)) == usage_of(Some(b)),
{
}

/// The tokens of a sample are those of its four buckets and those beyond them, each once; a sum is
/// cut off only where no `u64` holds it.
pub proof fn law_totals_are_sums(usage: ParsedUsage, n: int)
    requires
        n >= 0,
    ensures
        usage.raw.sum() == usage.raw.input_tokens + usage.raw.output_tokens
            + usage.raw.cache_creation_input_tokens + usage.raw.cache_read_input_tokens,
        usage.sum() == usage.raw.sum() + usage.extra_total_tokens,
        n <= u64::MAX ==> capped(n) == n,
        n > u64::MAX ==> capped(n) == u64::MAX,
{
}

/// A value carries usage itself where its `type` is the text `usage`, and then the usage that its
/// `usage` states.
pub proof fn law_usage_is_carried_by_type(tree: JsonTree)
    ensures
        match tree.member("type"@) {
            Some(JsonTree::Text(name)) if name == "usage"@ => chunk_usage(tree) == usage_of(
                tree.member("usage"@),
            ),
            _ => chunk_usage(tree) is None,
        },
{
}

/// The usage at a path is what the value there carries itself.
pub proof fn law_usage_at_a_path(tree: JsonTree, path: Seq<Seq<char>>)
    ensures
        usage_at_path(tree, path) == match tree.at(path) {
            Some(value) => chunk_usage(value),
            None => None,
        },
{
}

proof fn lemma_items_joined(a: Seq<JsonTree>, b: Seq<JsonTree>)
    ensures
        last_usage_of_items(a + b) == match last_usage_of_items(b) {
            Some(usage) => Some(usage),
            None => last_usage_of_items(a),
        },
    decreases b.len(),
{
    if b.len() == 0 {
        assert(a + b =~= a);
    } else {
        let shorter = b.subrange(0, b.len() - 1);
        lemma_items_joined(a, shorter);
        assert((a + b).subrange(0, (a + b).len() - 1) =~= a + shorter);
    }
}

/// In a stream the later usage counts: of two streams one behind the other, what the second holds
/// counts, and what the first holds only where the second holds none.
pub proof fn law_later_usage_counts(a: Seq<JsonTree>, b: Seq<JsonTree>)
    ensures
        last_usage(JsonTree::Array(a + b)) == match last_usage(JsonTree::Array(b)) {
            Some(usage) => Some(usage),
            None => last_usage(JsonTree::Array(a)),
        },
{
    lemma_items_joined(a, b);
}

/// A stream of one item holds what the item holds, however deep; an empty one holds nothing.
pub proof fn law_item_counts_at_any_depth(item: JsonTree, items: Seq<JsonTree>)
    ensures
        last_usage(JsonTree::Array(seq![item])) == last_usage(item),
        last_usage(JsonTree::Array(Seq::empty())) is None,
        last_usage(item) matches Some(usage) ==> last_usage(JsonTree::Array(items.push(item)))
            == Some(usage),
        last_usage(item) is None ==> last_usage(JsonTree::Array(items.push(item))) == last_usage(
            JsonTree::Array(items),
        ),
{
    reveal_with_fuel(last_usage_of_items, 2);
    let one = seq![item];
    assert(one.subrange(0, one.len() - 1) =~= Seq::empty());
    assert(items.push(item) =~= items + one);
    law_later_usage_counts(items, one);
}

proof fn lemma_members_are_items(members: Seq<(Seq<char>, JsonTree)>)
    ensures
        last_usage_of_members(members) == last_usage_of_items(
            Seq::new(members.len(), |i: int| members[i].1),
        ),
    decreases members.len(),
{
    let values = Seq::new(members.len(), |i: int| members[i].1);
    if members.len() > 0 {
        let shorter = members.subrange(0, members.len() - 1);
        lemma_members_are_items(shorter);
        assert(values.subrange(0, values.len() - 1) =~= Seq::new(
            shorter.len(),
            |i: int| shorter[i].1,
        ));
    }
}

/// An object holds what the stream of its members' values holds, under whatever names, and else
/// the usage that it carries itself.
pub proof fn law_members_count_before_the_object(members: Seq<(Seq<char>, JsonTree)>)
    ensures
        ({
            let object = JsonTree::Object(members);
            let values = JsonTree::Array(Seq::new(members.len(), |i: int| members[i].1));
            last_usage(object) == match last_usage(values) {
                Some(usage) => Some(usage),
                None => chunk_usage(object),
            }
        }),
{
    lemma_members_are_items(members);
}

/// A value that is neither an array nor an object holds no usage.
pub proof fn law_plain_values_hold_no_usage(tree: JsonTree)
    requires
        !(tree is Array) && !(tree is Object),
    ensures
        last_usage(tree) is None,
{
}

/// A stream that is there holds what its value holds.
pub proof fn law_streams_hold_what_their_value_holds(tree: JsonTree)
    ensures
        last_usage_in(Some(tree)) == last_usage(tree),
{
}

} // verus!
