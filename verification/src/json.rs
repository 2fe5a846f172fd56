//! JSON documents: the library's own value type, its mathematical model, and the reading of both
//! from bytes.

use crate::text::same_text;
use vstd::prelude::*;

verus! {

/// The mathematical model of a JSON document.
///
/// A number is known by the two integer readings that it offers. An object is the sequence of its
/// members, in the order in which they are walked.
pub enum JsonTree {
    Null,
    Bool(bool),
    Number { unsigned: Option<u64>, signed: Option<i64> },
    Text(Seq<char>),
    Array(Seq<JsonTree>),
    Object(Seq<(Seq<char>, JsonTree)>),
}

/// A JSON document.
///
/// `unsigned` and `signed` of a number are its value as `u64` and as `i64`, each where the number
/// is an integer that the type can hold.
#[derive(Debug)]
pub enum Json {
    Null,
    Bool(bool),
    Number { unsigned: Option<u64>, signed: Option<i64> },
    Text(String),
    Array(Vec<Json>),
    Object(Vec<(String, Json)>),
}

impl View for Json {
    type V = JsonTree;

    open spec fn view(&self) -> JsonTree
        decreases self,
    {
        match self {
            Json::Null => JsonTree::Null,
            Json::Bool(b) => JsonTree::Bool(*b),
            Json::Number { unsigned, signed } => JsonTree::Number {
                unsigned: *unsigned,
                signed: *signed,
            },
            Json::Text(s) => JsonTree::Text(s@),
            Json::Array(v) => JsonTree::Array(
                Seq::new(
                    v@.len(),
                    |i: int|
                        if 0 <= i < v@.len() {
                            v@[i].view()
                        } else {
                            JsonTree::Null
                        },
                ),
            ),
            Json::Object(v) => JsonTree::Object(
                Seq::new(
                    v@.len(),
                    |i: int|
                        if 0 <= i < v@.len() {
                            (v@[i].0@, v@[i].1.view())
                        } else {
                            (Seq::empty(), JsonTree::Null)
                        },
                ),
            ),
        }
    }
}

/// The value of the first member named `key`.
pub open spec fn find_member(members: Seq<(Seq<char>, JsonTree)>, key: Seq<char>) -> Option<
    JsonTree,
>
    decreases members.len(),
{
    if members.len() == 0 {
        None
    } else if members[0].0 == key {
        Some(members[0].1)
    } else {
        find_member(members.drop_first(), key)
    }
}

impl JsonTree {
    /// The member named `key`; only an object has members.
    pub open spec fn member(self, key: Seq<char>) -> Option<JsonTree> {
        match self {
            JsonTree::Object(members) => find_member(members, key),
            _ => None,
        }
    }

    /// The characters of a text value.
    pub open spec fn text(self) -> Option<Seq<char>> {
        match self {
            JsonTree::Text(s) => Some(s),
            _ => None,
        }
    }

    /// The value of a number that is a `u64`.
    pub open spec fn unsigned(self) -> Option<u64> {
        match self {
            JsonTree::Number { unsigned, .. } => unsigned,
            _ => None,
        }
    }

    /// The value of a number that is an `i64`.
    pub open spec fn signed(self) -> Option<i64> {
        match self {
            JsonTree::Number { signed, .. } => signed,
            _ => None,
        }
    }

    /// The text of the member named `key`.
    pub open spec fn member_text(self, key: Seq<char>) -> Option<Seq<char>> {
        match self.member(key) {
            Some(value) => value.text(),
            None => None,
        }
    }

    /// What stands at the end of `path`, a member name for each step down.
    pub open spec fn at(self, path: Seq<Seq<char>>) -> Option<JsonTree>
        decreases path.len(),
    {
        if path.len() == 0 {
            Some(self)
        } else {
            match self.member(path[0]) {
                Some(value) => value.at(path.drop_first()),
                None => None,
            }
        }
    }
}

/// The model of a value that may be missing.
pub open spec fn tree_of(value: Option<&Json>) -> Option<JsonTree> {
    match value {
        Some(value) => Some(value@),
        None => None,
    }
}

/// The models of the items of an array.
pub open spec fn item_trees(items: Seq<Json>) -> Seq<JsonTree> {
    Seq::new(items.len(), |i: int| items[i]@)
}

/// The models of the members of an object.
pub open spec fn member_trees(members: Seq<(String, Json)>) -> Seq<(Seq<char>, JsonTree)> {
    Seq::new(members.len(), |i: int| (members[i].0@, members[i].1@))
}

/// The model of an array is the array of the models.
pub proof fn lemma_array_view(items: Vec<Json>)
    ensures
        Json::Array(items)@ == JsonTree::Array(item_trees(items@)),
{
    reveal_with_fuel(<Json as View>::view, 2);
    assert(Json::Array(items)@->Array_0 =~= item_trees(items@));
}

/// The model of an object is the object of the models.
pub proof fn lemma_object_view(members: Vec<(String, Json)>)
    ensures
        Json::Object(members)@ == JsonTree::Object(member_trees(members@)),
{
    reveal_with_fuel(<Json as View>::view, 2);
    assert(Json::Object(members)@->Object_0 =~= member_trees(members@));
}

impl Json {
    /// The member named `key`; only an object has members.
    pub fn get(&self, key: &str) -> (r: Option<&Json>)
        ensures
            tree_of(r) == self@.member(key@),
    {
        match self {
            Json::Object(members) => {
                let ghost all = member_trees(members@);
                let mut i: usize = 0;
                proof {
                    lemma_object_view(*members);
                    assert(all.skip(0) =~= all);
                }
                while i < members.len()
                    invariant
                        i <= members@.len(),
                        self@ == JsonTree::Object(all),
                        all == member_trees(members@),
                        find_member(all, key@) == find_member(all.skip(i as int), key@),
                    decreases members@.len() - i,
                {
                    let ghost rest = all.skip(i as int);
                    assert(rest[0] == (members@[i as int].0@, members@[i as int].1@));
                    assert(rest.drop_first() =~= all.skip(i + 1));
                    if same_text(members[i].0.as_str(), key) {
                        return Some(&members[i].1);
                    }
                    i += 1;
                }
                None
            },
            _ => None,
        }
    }

    /// The text of a text value.
    pub fn as_str(&self) -> (r: Option<&str>)
        ensures
            match r {
                Some(s) => self@.text() == Some(s@),
                None => self@.text() is None,
            },
    {
        match self {
            Json::Text(s) => Some(s.as_str()),
            _ => None,
        }
    }

    /// The value of a number that is a `u64`.
    pub fn as_u64(&self) -> (r: Option<u64>)
        ensures
            r == self@.unsigned(),
    {
        match self {
            Json::Number { unsigned, .. } => *unsigned,
            _ => None,
        }
    }

    /// The value of a number that is an `i64`.
    pub fn as_i64(&self) -> (r: Option<i64>)
        ensures
            r == self@.signed(),
    {
        match self {
            Json::Number { signed, .. } => *signed,
            _ => None,
        }
    }
}

// ---------------------------------------------------------------------------------------------
// Reading JSON text
// ---------------------------------------------------------------------------------------------

/// The document that `serde_json` holds; opaque but for [`value_tree`].
#[verifier::external_type_specification]
#[verifier::external_body]
pub struct ExValue(serde_json::Value);

/// The reason that `serde_json` gives for refusing a text; opaque.
#[verifier::external_type_specification]
#[verifier::external_body]
pub struct ExJsonError(serde_json::Error);

/// One level of a `serde_json` value, its parts still values of `serde_json`.
enum JsonNode {
    Null,
    Bool(bool),
    Number { unsigned: Option<u64>, signed: Option<i64> },
    Text(String),
    Array(Vec<serde_json::Value>),
    Object(Vec<(String, serde_json::Value)>),
}

/// What a `serde_json` value holds.
pub uninterp spec fn value_tree(value: serde_json::Value) -> JsonTree;

/// The document that a JSON text spells, or `None` where the bytes are not one JSON text.
pub uninterp spec fn json_document(bytes: Seq<u8>) -> Option<JsonTree>;

/// What the value that was opened into `node` holds.
closed spec fn node_tree(node: JsonNode) -> JsonTree {
    match node {
        JsonNode::Null => JsonTree::Null,
        JsonNode::Bool(b) => JsonTree::Bool(b),
        JsonNode::Number { unsigned, signed } => JsonTree::Number { unsigned, signed },
        JsonNode::Text(s) => JsonTree::Text(s@),
        JsonNode::Array(v) => JsonTree::Array(
            Seq::new(v@.len(), |i: int| value_tree(v@[i])),
        ),
        JsonNode::Object(v) => JsonTree::Object(
            Seq::new(v@.len(), |i: int| (v@[i].0@, value_tree(v@[i].1))),
        ),
    }
}

/// Calls `serde_json::from_slice` for a `serde_json::Value`: the value holds the document that the
/// bytes spell, and the call fails exactly where they spell none. Which bytes spell which document
/// depends on the bytes alone and is left to `serde_json`.
#[verifier::external_body]
fn parse_value(bytes: &[u8]) -> (r: Result<serde_json::Value, serde_json::Error>)
    ensures
        match r {
            Ok(value) => json_document(bytes@) == Some(value_tree(value)),
            Err(_) => json_document(bytes@) is None,
        },
{
    serde_json::from_slice(bytes)
}

/// Takes a `serde_json::Value` apart by one level. A number gives its `as_u64` and `as_i64`; an
/// object gives its members in the order in which its map is walked.
#[verifier::external_body]
fn open_value(value: serde_json::Value) -> (r: JsonNode)
    ensures
        value_tree(value) == node_tree(r),
{
    match value {
        serde_json::Value::Null => JsonNode::Null,
        serde_json::Value::Bool(b) => JsonNode::Bool(b),
        serde_json::Value::Number(n) => JsonNode::Number {
            unsigned: n.as_u64(),
            signed: n.as_i64(),
        },
        serde_json::Value::String(s) => JsonNode::Text(s),
        serde_json::Value::Array(v) => JsonNode::Array(v),
        serde_json::Value::Object(m) => JsonNode::Object(m.into_iter().collect()),
    }
}

/// The library's own copy of a `serde_json` value.
fn json_from_value(source: serde_json::Value) -> (r: Json)
    ensures
        r@ == value_tree(source),
    decreases value_tree(source),
{
    let ghost tree = value_tree(source);
    match open_value(source) {
        JsonNode::Null => Json::Null,
        JsonNode::Bool(b) => Json::Bool(b),
        JsonNode::Number { unsigned, signed } => Json::Number { unsigned, signed },
        JsonNode::Text(s) => Json::Text(s),
        JsonNode::Array(values) => {
            let ghost trees = tree->Array_0;
            let mut items: Vec<Json> = Vec::new();
            for value in it: values
                invariant
                    it.seq() == values@,
                    tree == value_tree(source),
                    tree == JsonTree::Array(trees),
                    trees =~= Seq::new(values@.len(), |i: int| value_tree(values@[i])),
                    items@.len() == it.index(),
                    forall|i: int| 0 <= i < items@.len() ==> (#[trigger] items@[i])@ == trees[i],
            {
                assert(value_tree(value) == trees[it.index() as int]);
                assert(decreases_to!(tree => tree->Array_0[it.index() as int]));
                items.push(json_from_value(value));
            }
            proof {
                lemma_array_view(items);
                assert(item_trees(items@) =~= trees);
            }
            Json::Array(items)
        },
        JsonNode::Object(values) => {
            let ghost trees = tree->Object_0;
            let mut members: Vec<(String, Json)> = Vec::new();
            for member in it: values
                invariant
                    it.seq() == values@,
                    tree == value_tree(source),
                    tree == JsonTree::Object(trees),
                    trees =~= Seq::new(
                        values@.len(),
                        |i: int| (values@[i].0@, value_tree(values@[i].1)),
                    ),
                    members@.len() == it.index(),
                    forall|i: int|
                        0 <= i < members@.len() ==> ((#[trigger] members@[i]).0@, members@[i].1@)
                            == trees[i],
            {
                let (name, value) = member;
                assert(value_tree(value) == trees[it.index() as int].1);
                assert(decreases_to!(tree => tree->Object_0[it.index() as int].1));
                let inner = json_from_value(value);
                members.push((name, inner));
            }
            proof {
                lemma_object_view(members);
                assert(member_trees(members@) =~= trees);
            }
            Json::Object(members)
        },
    }
}

/// Reads one JSON text; `None` where the bytes are not one.
pub fn parse_json(bytes: &[u8]) -> (r: Option<Json>)
    ensures
        match r {
            Some(json) => json_document(bytes@) == Some(json@),
            None => json_document(bytes@) is None,
        },
{
    match parse_value(bytes) {
        Ok(value) => Some(json_from_value(value)),
        Err(_) => None,
    }
}

// ---------------------------------------------------------------------------------------------
// Laws
// ---------------------------------------------------------------------------------------------


/// An object has the member that comes first under its name, and no other value has members.
pub proof fn law_first_member_counts(members: Seq<(Seq<char>, JsonTree)>, key: Seq<char>)
    ensures
        match JsonTree::Object(members).member(key) {
            Some(value) => exists|i: int|
                0 <= i < members.len() && #[trigger] members[i] == (key, value) && forall|j: int|
                    0 <= j < i ==> (#[trigger] members[j]).0 != key,
            None => forall|i: int| 0 <= i < members.len() ==> (#[trigger] members[i]).0 != key,
        },
    decreases members.len(),
{
    if members.len() > 0 && members[0].0 != key {
        let rest = members.drop_first();
        law_first_member_counts(rest, key);
        match JsonTree::Object(rest).member(key) {
            Some(value) => {
                let i = choose|i: int|
                    0 <= i < rest.len() && #[trigger] rest[i] == (key, value) && forall|j: int|
                        0 <= j < i ==> (#[trigger] rest[j]).0 != key;
                assert(members[i + 1] == (key, value));
                assert forall|j: int| 0 <= j < i + 1 implies (#[trigger] members[j]).0 != key by {
                    if j > 0 {
                        assert(rest[j - 1] == members[j]);
                    }
                }
            },
            None => {
                assert forall|i: int| 0 <= i < members.len() implies (#[trigger] members[i]).0
                    != key by {
                    if i > 0 {
                        assert(rest[i - 1] == members[i]);
                    }
                }
            },
        }
    } else if members.len() > 0 {
        assert(members[0] == (key, members[0].1));
    }
}

/// A value that is no object has no members, at no path but the empty one.
pub proof fn law_only_objects_have_members(tree: JsonTree, key: Seq<char>, path: Seq<Seq<char>>)
    requires
        !(tree is Object),
    ensures
        tree.member(key) is None,
        path.len() > 0 ==> tree.at(path) is None,
{
}

/// A path leads nowhere but to the value itself where it is empty, to a member where it has one
/// name, and on from where its first part leads.
pub proof fn law_paths_lead_on(
    tree: JsonTree,
    key: Seq<char>,
    first: Seq<Seq<char>>,
    second: Seq<Seq<char>>,
)
    ensures
        tree.at(Seq::empty()) == Some(tree),
        tree.at(seq![key]) == tree.member(key),
        tree.at(first + second) == match tree.at(first) {
            Some(value) => value.at(second),
            None => None,
        },
    decreases first.len(),
{
    assert(seq![key].drop_first() =~= Seq::empty());
    reveal_with_fuel(JsonTree::at, 2);
    if first.len() == 0 {
        assert(first + second =~= second);
    } else {
        assert((first + second).drop_first() =~= first.drop_first() + second);
        if let Some(value) = tree.member(first[0]) {
            law_paths_lead_on(value, key, first.drop_first(), second);
        }
    }
}

/// A number has its two readings, a text its characters, and nothing else has either.
pub proof fn law_values_are_read_by_kind(tree: JsonTree)
    ensures
        match tree {
            JsonTree::Number { unsigned, signed } => tree.unsigned() == unsigned && tree.signed()
                == signed && tree.text() is None,
            JsonTree::Text(s) => tree.text() == Some(s) && tree.unsigned() is None
                && tree.signed() is None,
            _ => tree.text() is None && tree.unsigned() is None && tree.signed() is None,
        },
{
}

/// The model of a document is the document, part by part.
pub proof fn law_models_mirror_documents(
    text: String,
    unsigned: Option<u64>,
    signed: Option<i64>,
    items: Vec<Json>,
    members: Vec<(String, Json)>,
)
    ensures
        Json::Text(text)@ == JsonTree::Text(text@),
        (Json::Number { unsigned, signed })@ == (JsonTree::Number { unsigned, signed }),
        Json::Array(items)@ matches JsonTree::Array(trees) && trees.len() == items@.len()
            && forall|i: int| 0 <= i < trees.len() ==> #[trigger] trees[i] == items@[i]@,
        Json::Object(members)@ matches JsonTree::Object(trees) && trees.len() == members@.len()
            && forall|i: int|
            0 <= i < trees.len() ==> #[trigger] trees[i] == (members@[i].0@, members@[i].1@),
{
    lemma_array_view(items);
    lemma_object_view(members);
}

/// The models of records keep every record in its place, and a missing value has no model.
pub proof fn law_models_keep_their_place(items: Seq<Json>, i: int)
    requires
        0 <= i < items.len(),
    ensures
        item_trees(items).len() == items.len(),
        item_trees(items)[i] == items[i]@,
        tree_of(Some(&items[i])) == Some(items[i]@),
        tree_of(None) is None,
{
}

} // verus!
