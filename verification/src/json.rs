//! JSON values.

use vstd::prelude::*;

use crate::text;

verus! {

/// A JSON value. An object lists its members, each key once; a number keeps its text.
#[derive(Debug)]
pub enum Json {
    Null,
    Bool(bool),
    Number(String),
    Text(String),
    Array(Vec<Json>),
    Object(Vec<(String, Json)>),
}

/// What a JSON value is.
#[verifier::ext_equal]
pub enum JsonV {
    Null,
    Bool(bool),
    Number(Seq<char>),
    Text(Seq<char>),
    Array(Seq<JsonV>),
    Object(Seq<(Seq<char>, JsonV)>),
}

/// The view of a value.
pub open spec fn json_view(j: Json) -> JsonV
    decreases j,
{
    match j {
        Json::Null => JsonV::Null,
        Json::Bool(b) => JsonV::Bool(b),
        Json::Number(n) => JsonV::Number(n@),
        Json::Text(t) => JsonV::Text(t@),
        Json::Array(items) => JsonV::Array(items_view(items@)),
        Json::Object(members) => JsonV::Object(members_view(members@)),
    }
}

/// The views of the items of an array.
pub open spec fn items_view(s: Seq<Json>) -> Seq<JsonV>
    decreases s,
{
    if s.len() == 0 {
        Seq::empty()
    } else {
        items_view(s.drop_last()).push(json_view(s.last()))
    }
}

/// The views of the members of an object.
pub open spec fn members_view(s: Seq<(String, Json)>) -> Seq<(Seq<char>, JsonV)>
    decreases s,
{
    if s.len() == 0 {
        Seq::empty()
    } else {
        members_view(s.drop_last()).push((s.last().0@, json_view(s.last().1)))
    }
}

impl View for Json {
    type V = JsonV;

    open spec fn view(&self) -> JsonV {
        json_view(*self)
    }
}

pub proof fn lemma_items_view(s: Seq<Json>)
    ensures
        items_view(s).len() == s.len(),
        forall|i: int| 0 <= i < s.len() ==> #[trigger] items_view(s)[i] == s[i]@,
    decreases s.len(),
{
    if s.len() != 0 {
        lemma_items_view(s.drop_last());
    }
}

pub proof fn lemma_members_view(s: Seq<(String, Json)>)
    ensures
        members_view(s).len() == s.len(),
        forall|i: int|
            0 <= i < s.len() ==> #[trigger] members_view(s)[i] == (s[i].0@, s[i].1@),
    decreases s.len(),
{
    if s.len() != 0 {
        lemma_members_view(s.drop_last());
    }
}

// ---------------------------------------------------------------------------
// Reading
// ---------------------------------------------------------------------------

/// The value of the first member with the key.
pub open spec fn member(members: Seq<(Seq<char>, JsonV)>, key: Seq<char>) -> Option<JsonV>
    decreases members.len(),
{
    if members.len() == 0 {
        None
    } else if members[0].0 == key {
        Some(members[0].1)
    } else {
        member(members.drop_first(), key)
    }
}

/// The member of an object; nothing for any other value.
pub open spec fn field(j: JsonV, key: Seq<char>) -> Option<JsonV> {
    match j {
        JsonV::Object(members) => member(members, key),
        _ => None,
    }
}

/// The text of a JSON string; nothing for any other value.
pub open spec fn text_of(j: Option<JsonV>) -> Option<Seq<char>> {
    match j {
        Some(JsonV::Text(t)) => Some(t),
        _ => None,
    }
}

/// The text of a member that is a string.
pub open spec fn text_field(j: JsonV, key: Seq<char>) -> Option<Seq<char>> {
    text_of(field(j, key))
}

/// The items of an array; nothing for any other value.
pub open spec fn array_of(j: Option<JsonV>) -> Option<Seq<JsonV>> {
    match j {
        Some(JsonV::Array(items)) => Some(items),
        _ => None,
    }
}

/// An optional reference, viewed.
pub open spec fn view_opt(j: Option<&Json>) -> Option<JsonV> {
    match j {
        Some(x) => Some(x@),
        None => None,
    }
}

/// An optional string, viewed.
pub open spec fn str_opt(s: Option<&String>) -> Option<Seq<char>> {
    match s {
        Some(x) => Some(x@),
        None => None,
    }
}

proof fn lemma_member_skip(members: Seq<(Seq<char>, JsonV)>, key: Seq<char>, i: int)
    requires
        0 <= i <= members.len(),
        forall|j: int| 0 <= j < i ==> (#[trigger] members[j]).0 != key,
    ensures
        member(members, key) == member(members.skip(i), key),
    decreases i,
{
    if i == 0 {
        assert(members.skip(0) =~= members);
    } else {
        assert forall|j: int| 0 <= j < i - 1 implies (#[trigger] members.drop_first()[j]).0
            != key by {
            assert(members.drop_first()[j] == members[j + 1]);
        }
        assert(members[0].0 != key);
        lemma_member_skip(members.drop_first(), key, i - 1);
        assert(members.drop_first().skip(i - 1) =~= members.skip(i));
    }
}

pub proof fn lemma_member_smaller(members: Seq<(Seq<char>, JsonV)>, key: Seq<char>)
    ensures
        member(members, key) matches Some(x) ==> decreases_to!(members => x),
    decreases members.len(),
{
    if members.len() != 0 {
        if members[0].0 == key {
            assert(decreases_to!(members => members[0]));
            assert(decreases_to!(members[0] => members[0].1));
        } else {
            lemma_member_smaller(members.drop_first(), key);
            assert(decreases_to!(members => members.subrange(1, members.len() as int)));
            assert(members.drop_first() =~= members.subrange(1, members.len() as int));
        }
    }
}

/// A member is smaller than its object.
pub proof fn lemma_field_smaller(j: JsonV, key: Seq<char>)
    ensures
        field(j, key) matches Some(x) ==> decreases_to!(j => x),
        array_of(field(j, key)) matches Some(items) ==> decreases_to!(j => items),
{
    match j {
        JsonV::Object(members) => {
            lemma_member_smaller(members, key);
            assert(decreases_to!(j => members));
            match member(members, key) {
                Some(JsonV::Array(items)) => {
                    assert(decreases_to!(JsonV::Array(items) => items));
                },
                _ => {},
            }
        },
        _ => {},
    }
}

impl Json {
    /// The member of an object.
    pub fn get(&self, key: &str) -> (r: Option<&Json>)
        ensures
            view_opt(r) == field(self@, key@),
            r matches Some(x) ==> decreases_to!(self => x),
    {
        match self {
            Json::Object(members) => {
                let n: usize = members.len();
                proof {
                    lemma_members_view(members@);
                }
                let ghost ms = members_view(members@);
                for i in 0..n
                    invariant
                        n == members@.len(),
                        *self == Json::Object(*members),
                        ms == members_view(members@),
                        ms.len() == n,
                        forall|j: int|
                            0 <= j < n ==> #[trigger] ms[j] == (members@[j].0@, members@[j].1@),
                        forall|j: int| 0 <= j < i ==> (#[trigger] ms[j]).0 != key@,
                {
                    if text::same_str(members[i].0.as_str(), key) {
                        proof {
                            lemma_member_skip(ms, key@, i as int);
                            assert(ms.skip(i as int)[0] == ms[i as int]);
                        }
                        assert(decreases_to!(self => members));
                        assert(decreases_to!(members => members@));
                        assert(decreases_to!(members@ => members@[i as int]));
                        assert(decreases_to!(members@[i as int] => members@[i as int].1));
                        return Some(&members[i].1);
                    }
                    assert(ms[i as int].0 != key@);
                }
                proof {
                    lemma_member_skip(ms, key@, n as int);
                }
                None
            },
            _ => None,
        }
    }

    /// The text of a string.
    pub fn as_text(&self) -> (r: Option<&String>)
        ensures
            str_opt(r) == text_of(Some(self@)),
    {
        match self {
            Json::Text(t) => Some(t),
            _ => None,
        }
    }

    /// The text of a member that is a string.
    pub fn get_text(&self, key: &str) -> (r: Option<&String>)
        ensures
            str_opt(r) == text_field(self@, key@),
    {
        match self.get(key) {
            Some(x) => x.as_text(),
            None => None,
        }
    }

    /// The items of an array.
    pub fn as_array(&self) -> (r: Option<&Vec<Json>>)
        ensures
            match r {
                Some(items) => array_of(Some(self@)) == Some(items_view(items@)) && decreases_to!(
                    self => items@
                ),
                None => array_of(Some(self@)) is None,
            },
    {
        match self {
            Json::Array(items) => {
                assert(decreases_to!(self => items));
                assert(decreases_to!(items => items@));
                Some(items)
            },
            _ => None,
        }
    }
}

// ---------------------------------------------------------------------------
// Parsing
// ---------------------------------------------------------------------------

/// A value of `serde_json`.
#[verifier::external_type_specification]
#[verifier::external_body]
pub struct ExValue(serde_json::Value);

/// What a value of `serde_json` holds.
pub uninterp spec fn json_contents(v: serde_json::Value) -> JsonV;

/// What `serde_json::from_str` reads from a text; nothing where it reports an error.
pub uninterp spec fn json_parsed(text: Seq<char>) -> Option<JsonV>;

/// `serde_json::from_str` for an untyped value: whether it succeeds, and what the value then
/// holds, is a function of the text.
#[verifier::external_body]
fn read_value(text: &str) -> (r: Option<serde_json::Value>)
    ensures
        json_parsed(text@) == (match r {
            Some(v) => Some(json_contents(v)),
            None => None,
        }),
{
    serde_json::from_str::<serde_json::Value>(text).ok()
}

/// The outermost layer of a value of `serde_json`.
pub enum Shape<'a> {
    Null,
    Bool(bool),
    Number(String),
    Text(&'a String),
    Array(&'a Vec<serde_json::Value>),
    Object(Vec<(&'a String, &'a serde_json::Value)>),
}

/// What a value holds that has the outermost layer.
pub open spec fn shape_contents(s: Shape) -> JsonV {
    match s {
        Shape::Null => JsonV::Null,
        Shape::Bool(b) => JsonV::Bool(b),
        Shape::Number(n) => JsonV::Number(n@),
        Shape::Text(t) => JsonV::Text(t@),
        Shape::Array(items) => JsonV::Array(
            items@.map_values(|v: serde_json::Value| json_contents(v)),
        ),
        Shape::Object(members) => JsonV::Object(
            members@.map_values(
                |m: (&String, &serde_json::Value)| (m.0@, json_contents(*m.1)),
            ),
        ),
    }
}

/// Tells the variants of a `serde_json::Value` apart. A number becomes the text that its
/// `Display` gives, an object the list of its members in the order of `serde_json::Map::iter`.
#[verifier::external_body]
fn shape_of(v: &serde_json::Value) -> (r: Shape<'_>)
    ensures
        shape_contents(r) == json_contents(*v),
{
    match v {
        serde_json::Value::Null => Shape::Null,
        serde_json::Value::Bool(b) => Shape::Bool(*b),
        serde_json::Value::Number(n) => Shape::Number(n.to_string()),
        serde_json::Value::String(s) => Shape::Text(s),
        serde_json::Value::Array(a) => Shape::Array(a),
        serde_json::Value::Object(m) => Shape::Object(m.iter().collect()),
    }
}

/// Copies a value out of `serde_json`.
fn copied(v: &serde_json::Value) -> (r: Json)
    ensures
        r@ == json_contents(*v),
    decreases json_contents(*v),
{
    match shape_of(v) {
        Shape::Null => Json::Null,
        Shape::Bool(b) => Json::Bool(b),
        Shape::Number(n) => Json::Number(n),
        Shape::Text(t) => Json::Text(t.clone()),
        Shape::Array(items) => {
            let ghost views = items@.map_values(|v: serde_json::Value| json_contents(v));
            let n: usize = items.len();
            let mut out: Vec<Json> = Vec::new();
            for i in 0..n
                invariant
                    n == items@.len() == views.len(),
                    json_contents(*v) == JsonV::Array(views),
                    forall|j: int| 0 <= j < n ==> #[trigger] views[j] == json_contents(items@[j]),
                    items_view(out@) == views.take(i as int),
            {
                assert(decreases_to!(json_contents(*v) => json_contents(*v)->Array_0));
                assert(decreases_to!(views => views[i as int]));
                let ghost before = out@;
                out.push(copied(&items[i]));
                assert(out@.drop_last() =~= before);
                assert(views.take(i as int + 1) =~= views.take(i as int).push(views[i as int]));
            }
            assert(views.take(n as int) =~= views);
            Json::Array(out)
        },
        Shape::Object(members) => {
            let ghost views = members@.map_values(
                |m: (&String, &serde_json::Value)| (m.0@, json_contents(*m.1)),
            );
            let n: usize = members.len();
            let mut out: Vec<(String, Json)> = Vec::new();
            for i in 0..n
                invariant
                    n == members@.len() == views.len(),
                    json_contents(*v) == JsonV::Object(views),
                    forall|j: int|
                        0 <= j < n ==> #[trigger] views[j] == (
                            members@[j].0@,
                            json_contents(*members@[j].1),
                        ),
                    members_view(out@) == views.take(i as int),
            {
                assert(decreases_to!(json_contents(*v) => json_contents(*v)->Object_0));
                assert(decreases_to!(views => views[i as int]));
                assert(decreases_to!(views[i as int] => views[i as int].1));
                let ghost before = out@;
                out.push((members[i].0.clone(), copied(members[i].1)));
                assert(out@.drop_last() =~= before);
                assert(views.take(i as int + 1) =~= views.take(i as int).push(views[i as int]));
            }
            assert(views.take(n as int) =~= views);
            Json::Object(out)
        },
    }
}

/// Parses a JSON text; nothing where it is not JSON.
pub fn parse(text: &str) -> (r: Option<Json>)
    ensures
        json_parsed(text@) == (match r {
            Some(j) => Some(j@),
            None => None,
        }),
{
    match read_value(text) {
        Some(v) => Some(copied(&v)),
        None => None,
    }
}

// ---------------------------------------------------------------------------
// Laws
// ---------------------------------------------------------------------------

/// The member of an object is the first one under its key.
pub proof fn the_first_member_counts(members: Seq<(Seq<char>, JsonV)>, key: Seq<char>, i: int)
    requires
        0 <= i < members.len(),
        members[i].0 == key,
        forall|j: int| 0 <= j < i ==> (#[trigger] members[j]).0 != key,
    ensures
        field(JsonV::Object(members), key) == Some(members[i].1),
{
    lemma_member_skip(members, key, i);
    assert(members.skip(i)[0] == members[i]);
}

/// An object has no member under a key that it does not hold, and nothing but an object has
/// members.
pub proof fn no_key_no_member(j: JsonV, members: Seq<(Seq<char>, JsonV)>, key: Seq<char>)
    requires
        forall|i: int| 0 <= i < members.len() ==> (#[trigger] members[i]).0 != key,
    ensures
        field(JsonV::Object(members), key) is None,
        !(j is Object) ==> field(j, key) is None,
{
    lemma_member_skip(members, key, members.len() as int);
    assert(members.skip(members.len() as int).len() == 0);
}

} // verus!
