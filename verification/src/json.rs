//! JSON documents as plain values: what the dashboard reads of the output of
//! `gh` and of session files.

use vstd::prelude::*;

verus! {

/// A JSON document.
pub enum Json {
    Null,
    Bool(bool),
    /// The number as a 64-bit integer, where it is one, and as it is written.
    Number(Option<i64>, String),
    Text(String),
    Array(Vec<Json>),
    /// The members: the key, the value, and the value in compact form.
    Object(Vec<(String, Json, String)>),
}

/// What a [`Json`] document means.
pub enum JsonTree {
    Null,
    Bool(bool),
    Number(Option<i64>, Seq<char>),
    Text(Seq<char>),
    Array(Seq<JsonTree>),
    Object(Seq<(Seq<char>, JsonTree, Seq<char>)>),
}

impl View for Json {
    type V = JsonTree;

    open spec fn view(&self) -> JsonTree
        decreases self,
    {
        match self {
            Json::Null => JsonTree::Null,
            Json::Bool(b) => JsonTree::Bool(*b),
            Json::Number(whole, text) => JsonTree::Number(*whole, text@),
            Json::Text(s) => JsonTree::Text(s@),
            Json::Array(items) => JsonTree::Array(
                Seq::new(
                    items@.len(),
                    |i: int|
                        if 0 <= i < items.len() {
                            items[i].view()
                        } else {
                            JsonTree::Null
                        },
                ),
            ),
            Json::Object(members) => JsonTree::Object(
                Seq::new(
                    members@.len(),
                    |i: int|
                        if 0 <= i < members.len() {
                            (members[i].0@, members[i].1.view(), members[i].2@)
                        } else {
                            (Seq::empty(), JsonTree::Null, Seq::empty())
                        },
                ),
            ),
        }
    }
}

/// The documents that a list holds.
pub open spec fn trees(items: Seq<Json>) -> Seq<JsonTree> {
    items.map_values(|j: Json| j@)
}

/// The members that an object's list holds.
pub open spec fn member_trees(members: Seq<(String, Json, String)>) -> Seq<
    (Seq<char>, JsonTree, Seq<char>),
> {
    members.map_values(|m: (String, Json, String)| (m.0@, m.1@, m.2@))
}

/// The view of a container is made of the views of what it contains.
pub proof fn lemma_container_views(j: Json)
    ensures
        j matches Json::Array(items) ==> j@ == JsonTree::Array(trees(items@)),
        j matches Json::Object(members) ==> j@ == JsonTree::Object(member_trees(members@)),
{
    reveal_with_fuel(<Json as View>::view, 2);
    match j {
        Json::Array(items) => {
            assert(j@->Array_0 =~= trees(items@));
        },
        Json::Object(members) => {
            assert(j@->Object_0 =~= member_trees(members@));
        },
        _ => {},
    }
}

// ---------------------------------------------------------------------------
// Reading
// ---------------------------------------------------------------------------

/// `serde_json::Value`: a document as the outside parser holds it.
#[verifier::external_type_specification]
#[verifier::external_body]
pub struct ExValue(serde_json::Value);

/// The document that a `serde_json::Value` holds, with the compact form of every
/// member's value.
pub uninterp spec fn value_tree(v: serde_json::Value) -> JsonTree;

/// What `serde_json::from_str` reads a text as: `None` where it rejects the
/// text.
pub uninterp spec fn parsed(text: Seq<char>) -> Option<JsonTree>;

/// What `serde_json::to_string` writes for a document: its compact form.
pub uninterp spec fn compact(t: JsonTree) -> Seq<char>;

/// One level of a `serde_json::Value`.
enum Parts {
    Null,
    Bool(bool),
    Number(Option<i64>, String),
    Text(String),
    Array(Vec<serde_json::Value>),
    Object(Vec<(String, serde_json::Value)>),
}

/// Calls `serde_json::from_str`: the document that the text spells, or nothing
/// where the text is not one JSON document. Both depend on the text alone.
#[verifier::external_body]
fn read_value(text: &str) -> (out: Option<serde_json::Value>)
    ensures
        match out {
            Some(v) => parsed(text@) == Some(value_tree(v)),
            None => parsed(text@) is None,
        },
{
    serde_json::from_str::<serde_json::Value>(text).ok()
}

/// Takes a `serde_json::Value` apart by its variant. A number is handed out as
/// `Number::as_i64` and `Number::to_string` give it; the members of an object
/// come in the order in which its map is walked.
#[verifier::external_body]
fn value_parts(v: serde_json::Value) -> (out: Parts)
    ensures
        match out {
            Parts::Null => value_tree(v) == JsonTree::Null,
            Parts::Bool(b) => value_tree(v) == JsonTree::Bool(b),
            Parts::Number(whole, text) => value_tree(v) == JsonTree::Number(whole, text@),
            Parts::Text(s) => value_tree(v) == JsonTree::Text(s@),
            Parts::Array(items) => value_tree(v) == JsonTree::Array(
                items@.map_values(|x: serde_json::Value| value_tree(x)),
            ),
            Parts::Object(members) => value_tree(v) == JsonTree::Object(
                members@.map_values(
                    |m: (String, serde_json::Value)|
                        (m.0@, value_tree(m.1), compact(value_tree(m.1))),
                ),
            ),
        },
{
    match v {
        serde_json::Value::Null => Parts::Null,
        serde_json::Value::Bool(b) => Parts::Bool(b),
        serde_json::Value::Number(n) => Parts::Number(n.as_i64(), n.to_string()),
        serde_json::Value::String(s) => Parts::Text(s),
        serde_json::Value::Array(items) => Parts::Array(items),
        serde_json::Value::Object(members) => Parts::Object(members.into_iter().collect()),
    }
}

/// Calls `serde_json::to_string` on a `serde_json::Value`. Nothing is claimed of the
/// form but that it depends on the document alone.
#[verifier::external_body]
fn write_value(v: &serde_json::Value) -> (out: String)
    ensures
        out@ == compact(value_tree(*v)),
{
    serde_json::to_string(v).unwrap_or_default()
}

/// The document that a `serde_json::Value` holds.
pub fn json_of_value(v: serde_json::Value) -> (out: Json)
    ensures
        out@ == value_tree(v),
    decreases value_tree(v),
{
    match value_parts(v) {
        Parts::Null => Json::Null,
        Parts::Bool(b) => Json::Bool(b),
        Parts::Number(whole, text) => Json::Number(whole, text),
        Parts::Text(s) => Json::Text(s),
        Parts::Array(items) => {
            let ghost all = items@;
            let ghost whole = value_tree(v);
            let mut out: Vec<Json> = Vec::new();
            for item in it: items
                invariant
                    it.seq() == all,
                    out@.len() == it.index(),
                    forall|k: int|
                        0 <= k < out@.len() ==> (#[trigger] out@[k])@ == value_tree(all[k]),
                    whole == value_tree(v),
                    whole == JsonTree::Array(
                        all.map_values(|x: serde_json::Value| value_tree(x)),
                    ),
            {
                proof {
                    assert(decreases_to!(whole => whole->Array_0));
                    let k = it.index();
                    assert(whole->Array_0[k] == value_tree(item));
                    assert(decreases_to!(whole->Array_0 => whole->Array_0[k]));
                }
                out.push(json_of_value(item));
            }
            let doc = Json::Array(out);
            proof {
                lemma_container_views(doc);
                assert(trees(out@) =~= whole->Array_0);
            }
            doc
        },
        Parts::Object(members) => {
            let ghost all = members@;
            let ghost whole = value_tree(v);
            let mut out: Vec<(String, Json, String)> = Vec::new();
            for member in it: members
                invariant
                    it.seq() == all,
                    out@.len() == it.index(),
                    forall|k: int|
                        0 <= k < out@.len() ==> (#[trigger] out@[k]).0@ == all[k].0@ && out@[k].1@
                            == value_tree(all[k].1) && out@[k].2@ == compact(value_tree(all[k].1)),
                    whole == value_tree(v),
                    whole == JsonTree::Object(
                        all.map_values(
                            |m: (String, serde_json::Value)|
                                (m.0@, value_tree(m.1), compact(value_tree(m.1))),
                        ),
                    ),
            {
                proof {
                    assert(decreases_to!(whole => whole->Object_0));
                    let k = it.index();
                    assert(whole->Object_0[k].1 == value_tree(member.1));
                    assert(decreases_to!(whole->Object_0 => whole->Object_0[k]));
                    assert(decreases_to!(whole->Object_0[k] => whole->Object_0[k].1));
                }
                let text = write_value(&member.1);
                out.push((member.0, json_of_value(member.1), text));
            }
            let doc = Json::Object(out);
            proof {
                lemma_container_views(doc);
                assert(member_trees(out@) =~= whole->Object_0);
            }
            doc
        },
    }
}

/// The document that a text spells, as `serde_json` reads it.
pub fn parse_json(text: &str) -> (out: Option<Json>)
    ensures
        match out {
            Some(j) => parsed(text@) == Some(j@),
            None => parsed(text@) is None,
        },
{
    match read_value(text) {
        Some(v) => Some(json_of_value(v)),
        None => None,
    }
}

// ---------------------------------------------------------------------------
// Looking into a document
// ---------------------------------------------------------------------------

/// The value of the first member with the given key, and its compact form.
pub open spec fn lookup(
    members: Seq<(Seq<char>, JsonTree, Seq<char>)>,
    key: Seq<char>,
) -> Option<(JsonTree, Seq<char>)>
    decreases members.len(),
{
    if members.len() == 0 {
        None
    } else if members[0].0 == key {
        Some((members[0].1, members[0].2))
    } else {
        lookup(members.skip(1), key)
    }
}

/// The member of an object with the given key, and its compact form.
pub open spec fn member_and_text(t: JsonTree, key: Seq<char>) -> Option<(JsonTree, Seq<char>)> {
    match t {
        JsonTree::Object(members) => lookup(members, key),
        _ => None,
    }
}

/// The member of an object with the given key.
pub open spec fn member(t: JsonTree, key: Seq<char>) -> Option<JsonTree> {
    match member_and_text(t, key) {
        Some((value, _)) => Some(value),
        None => None,
    }
}

/// The compact form of the member of an object with the given key.
pub open spec fn member_text(t: JsonTree, key: Seq<char>) -> Option<Seq<char>> {
    match member_and_text(t, key) {
        Some((_, text)) => Some(text),
        None => None,
    }
}

/// The member with the given key of a document that may be missing.
pub open spec fn member_of(t: Option<JsonTree>, key: Seq<char>) -> Option<JsonTree> {
    match t {
        Some(t) => member(t, key),
        None => None,
    }
}

/// The text that a document is, where it is one.
pub open spec fn text_in(t: Option<JsonTree>) -> Option<Seq<char>> {
    match t {
        Some(JsonTree::Text(s)) => Some(s),
        _ => None,
    }
}

/// The 64-bit integer that a document is, where it is one.
pub open spec fn int_in(t: Option<JsonTree>) -> Option<i64> {
    match t {
        Some(JsonTree::Number(whole, _)) => whole,
        _ => None,
    }
}

/// The items of a document that is an array.
pub open spec fn items_in(t: Option<JsonTree>) -> Option<Seq<JsonTree>> {
    match t {
        Some(JsonTree::Array(items)) => Some(items),
        _ => None,
    }
}

/// The document behind an optional reference.
pub open spec fn opt_tree(j: Option<&Json>) -> Option<JsonTree> {
    match j {
        Some(j) => Some(j@),
        None => None,
    }
}

impl Json {
    /// The place of the first member with the given key in an object's list.
    fn find(members: &Vec<(String, Json, String)>, key: &str) -> (out: Option<usize>)
        ensures
            match out {
                Some(i) => i < members@.len() && lookup(member_trees(members@), key@) == Some(
                    (members@[i as int].1@, members@[i as int].2@),
                ),
                None => lookup(member_trees(members@), key@) is None,
            },
    {
        let wanted = key.to_owned();
        let mut i: usize = 0;
        assert(member_trees(members@).skip(0) =~= member_trees(members@));
        while i < members.len()
            invariant
                wanted@ == key@,
                i <= members@.len(),
                lookup(member_trees(members@).skip(i as int), key@) == lookup(
                    member_trees(members@),
                    key@,
                ),
            decreases members@.len() - i,
        {
            let ghost rest = member_trees(members@).skip(i as int);
            assert(rest[0] == (
                members@[i as int].0@,
                members@[i as int].1@,
                members@[i as int].2@,
            ));
            if members[i].0 == wanted {
                return Some(i);
            }
            assert(rest.skip(1) =~= member_trees(members@).skip(i + 1));
            i = i + 1;
        }
        None
    }

    /// The member of an object with the given key.
    pub fn get(&self, key: &str) -> (out: Option<&Json>)
        ensures
            opt_tree(out) == member(self@, key@),
    {
        proof {
            lemma_container_views(*self);
        }
        match self {
            Json::Object(members) => match Json::find(members, key) {
                Some(i) => Some(&members[i].1),
                None => None,
            },
            _ => None,
        }
    }

    /// The member of an object with the given key, in compact form.
    pub fn compact_at(&self, key: &str) -> (out: Option<&String>)
        ensures
            match out {
                Some(s) => member_text(self@, key@) == Some(s@),
                None => member_text(self@, key@) is None,
            },
    {
        proof {
            lemma_container_views(*self);
        }
        match self {
            Json::Object(members) => match Json::find(members, key) {
                Some(i) => Some(&members[i].2),
                None => None,
            },
            _ => None,
        }
    }

    /// The text that the document is, where it is one.
    pub fn as_text(&self) -> (out: Option<&String>)
        ensures
            match out {
                Some(s) => text_in(Some(self@)) == Some(s@),
                None => text_in(Some(self@)) is None,
            },
    {
        match self {
            Json::Text(s) => Some(s),
            _ => None,
        }
    }

    /// The items of the document, where it is an array.
    pub fn as_items(&self) -> (out: Option<&Vec<Json>>)
        ensures
            match out {
                Some(items) => items_in(Some(self@)) == Some(trees(items@)),
                None => items_in(Some(self@)) is None,
            },
    {
        proof {
            lemma_container_views(*self);
        }
        match self {
            Json::Array(items) => Some(items),
            _ => None,
        }
    }

    /// The text of a member.
    pub fn text_at(&self, key: &str) -> (out: Option<&String>)
        ensures
            match out {
                Some(s) => text_in(member(self@, key@)) == Some(s@),
                None => text_in(member(self@, key@)) is None,
            },
    {
        match self.get(key) {
            Some(j) => j.as_text(),
            None => None,
        }
    }

    /// The 64-bit integer of a member.
    pub fn int_at(&self, key: &str) -> (out: Option<i64>)
        ensures
            out == int_in(member(self@, key@)),
    {
        match self.get(key) {
            Some(Json::Number(whole, _)) => *whole,
            _ => None,
        }
    }

    /// Whether a member is `true`.
    pub fn true_at(&self, key: &str) -> (out: bool)
        ensures
            out == (member(self@, key@) == Some(JsonTree::Bool(true))),
    {
        match self.get(key) {
            Some(Json::Bool(b)) => *b,
            _ => false,
        }
    }

    /// The items of a member that is an array.
    pub fn items_at(&self, key: &str) -> (out: Option<&Vec<Json>>)
        ensures
            match out {
                Some(items) => items_in(member(self@, key@)) == Some(trees(items@)),
                None => items_in(member(self@, key@)) is None,
            },
    {
        match self.get(key) {
            Some(j) => j.as_items(),
            None => None,
        }
    }
}

// ---------------------------------------------------------------------------
// Laws
// ---------------------------------------------------------------------------

/// A member of an object is the first one with its key, by value and in compact form; an
/// object without the key has none, and nor has anything that is no object.
pub proof fn law_members_are_found(
    members: Seq<(Seq<char>, JsonTree, Seq<char>)>,
    key: Seq<char>,
    k: int,
)
    requires
        0 <= k <= members.len(),
        k < members.len() ==> members[k].0 == key,
        forall|i: int| 0 <= i < k ==> (#[trigger] members[i]).0 != key,
    ensures
        k < members.len() ==> member(JsonTree::Object(members), key) == Some(members[k].1),
        k < members.len() ==> member_text(JsonTree::Object(members), key) == Some(members[k].2),
        k == members.len() ==> member(JsonTree::Object(members), key) is None,
        k == members.len() ==> member_text(JsonTree::Object(members), key) is None,
    decreases members.len(),
{
    if k > 0 {
        let rest = members.skip(1);
        assert(members[0].0 != key);
        assert forall|i: int| 0 <= i < k - 1 implies (#[trigger] rest[i]).0 != key by {
            assert(rest[i] == members[i + 1]);
        }
        law_members_are_found(rest, key, k - 1);
    }
}

/// Only an object has members.
pub proof fn law_only_objects_have_members(t: JsonTree, key: Seq<char>)
    ensures
        !(t is Object) ==> member(t, key) is None && member_text(t, key) is None,
        member_of(Some(t), key) == member(t, key),
        member_of(None, key) is None,
{
}

} // verus!
