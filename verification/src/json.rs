//! JSON values: the document model that paths select from and reports are
//! written in.

use vstd::prelude::*;

pub use crate::grammar::parse;

use crate::ratio::Ratio;
use crate::text::same;

verus! {

/// A JSON value.
///
/// Object members keep their order, and a repeated key keeps every member.
#[derive(Debug, PartialEq, Eq)]
pub enum Value {
    Null,
    Bool(bool),
    /// A number written without fraction and exponent that fits an `i64`.
    Int(i64),
    /// Any other number of a document, by its normal form.
    Float(String),
    /// A number computed as a quotient; documents hold none.
    Ratio(Ratio),
    Str(String),
    Array(Vec<Value>),
    Object(Vec<(String, Value)>),
}

/// What a [`Value`] stands for.
#[verifier::ext_equal]
pub enum Json {
    Null,
    Bool(bool),
    Int(i64),
    Float(Seq<char>),
    Ratio(nat, nat),
    Str(Seq<char>),
    Array(Seq<Json>),
    Object(Seq<(Seq<char>, Json)>),
}

/// What a value stands for.
pub open spec fn json_of(value: Value) -> Json
    decreases value,
{
    match value {
        Value::Null => Json::Null,
        Value::Bool(b) => Json::Bool(b),
        Value::Int(n) => Json::Int(n),
        Value::Float(text) => Json::Float(text@),
        Value::Ratio(r) => Json::Ratio(r.part as nat, r.whole as nat),
        Value::Str(text) => Json::Str(text@),
        Value::Array(items) => Json::Array(
            Seq::new(
                items@.len(),
                |i: int|
                    if 0 <= i < items@.len() {
                        json_of(items@[i])
                    } else {
                        Json::Null
                    },
            ),
        ),
        Value::Object(members) => Json::Object(
            Seq::new(
                members@.len(),
                |i: int|
                    if 0 <= i < members@.len() {
                        (members@[i].0@, json_of(members@[i].1))
                    } else {
                        (Seq::<char>::empty(), Json::Null)
                    },
            ),
        ),
    }
}

impl View for Value {
    type V = Json;

    open spec fn view(&self) -> Json {
        json_of(*self)
    }
}

/// What the items of an array stand for.
pub open spec fn views(items: Seq<Value>) -> Seq<Json> {
    items.map_values(|item: Value| item@)
}

/// What the members of an object stand for.
pub open spec fn member_views(members: Seq<(String, Value)>) -> Seq<(Seq<char>, Json)> {
    members.map_values(|m: (String, Value)| (m.0@, m.1@))
}

pub proof fn lemma_array_view(items: Vec<Value>)
    ensures
        Value::Array(items)@ == Json::Array(views(items@)),
{
    assert(Value::Array(items)@->Array_0 =~= views(items@));
}

pub proof fn lemma_object_view(members: Vec<(String, Value)>)
    ensures
        Value::Object(members)@ == Json::Object(member_views(members@)),
{
    assert(Value::Object(members)@->Object_0 =~= member_views(members@));
}

/// The name that reports give to the type of a value.
pub open spec fn type_of(json: Json) -> Seq<char> {
    match json {
        Json::Null => "null"@,
        Json::Bool(_) => "bool"@,
        Json::Int(_) => "int"@,
        Json::Float(_) => "float"@,
        Json::Ratio(_, _) => "float"@,
        Json::Str(_) => "string"@,
        Json::Array(_) => "array"@,
        Json::Object(_) => "object"@,
    }
}

/// How many values a value is made of, itself included.
pub open spec fn nodes(json: Json) -> nat
    decreases json,
{
    match json {
        Json::Array(items) => 1 + item_nodes(items),
        Json::Object(members) => 1 + member_nodes(members),
        _ => 1,
    }
}

/// How many values the items of an array are made of.
pub open spec fn item_nodes(items: Seq<Json>) -> nat
    decreases items,
{
    if items.len() == 0 {
        0
    } else {
        item_nodes(items.drop_last()) + nodes(items.last())
    }
}

/// How many values the members of an object are made of.
pub open spec fn member_nodes(members: Seq<(Seq<char>, Json)>) -> nat
    decreases members,
{
    if members.len() == 0 {
        0
    } else {
        member_nodes(members.drop_last()) + nodes(members.last().1)
    }
}

/// Whether a value is one that a document can hold: no computed quotient
/// occurs in it.
pub open spec fn is_plain(json: Json) -> bool
    decreases json,
{
    match json {
        Json::Ratio(_, _) => false,
        Json::Array(items) => forall|i: int|
            0 <= i < items.len() ==> is_plain(#[trigger] items[i]),
        Json::Object(members) => forall|i: int|
            0 <= i < members.len() ==> is_plain((#[trigger] members[i]).1),
        _ => true,
    }
}

/// Sizes add up.
pub proof fn lemma_item_nodes_concat(a: Seq<Json>, b: Seq<Json>)
    ensures
        item_nodes(a + b) == item_nodes(a) + item_nodes(b),
    decreases b.len(),
{
    if b.len() == 0 {
        assert(a + b =~= a);
    } else {
        assert((a + b).drop_last() =~= a + b.drop_last());
        lemma_item_nodes_concat(a, b.drop_last());
    }
}

/// Every value counts.
pub proof fn lemma_item_nodes_len(items: Seq<Json>)
    ensures
        items.len() <= item_nodes(items),
    decreases items.len(),
{
    if items.len() > 0 {
        lemma_item_nodes_len(items.drop_last());
        assert(nodes(items.last()) >= 1);
    }
}

/// An item is no larger than all items together.
pub proof fn lemma_item_nodes_at(items: Seq<Json>, i: int)
    requires
        0 <= i < items.len(),
    ensures
        nodes(items[i]) <= item_nodes(items),
    decreases items.len(),
{
    if i < items.len() - 1 {
        lemma_item_nodes_at(items.drop_last(), i);
    }
}

/// A member that is found is one of the members.
pub proof fn lemma_member(members: Seq<(Seq<char>, Json)>, key: Seq<char>)
    ensures
        member(members, key) matches Some(found) ==> exists|i: int|
            0 <= i < members.len() && (#[trigger] members[i]).0 == key && members[i].1 == found,
    decreases members.len(),
{
    if members.len() > 0 && members[0].0 != key {
        let rest = members.drop_first();
        lemma_member(rest, key);
        if let Some(found) = member(rest, key) {
            let i = choose|i: int|
                0 <= i < rest.len() && (#[trigger] rest[i]).0 == key && rest[i].1 == found;
            assert(members[i + 1] == rest[i]);
        }
    }
}

/// A member's value is no larger than all members together.
pub proof fn lemma_member_nodes_at(members: Seq<(Seq<char>, Json)>, i: int)
    requires
        0 <= i < members.len(),
    ensures
        nodes(members[i].1) <= member_nodes(members),
    decreases members.len(),
{
    if i < members.len() - 1 {
        lemma_member_nodes_at(members.drop_last(), i);
    }
}

/// Every member counts.
pub proof fn lemma_member_nodes_len(members: Seq<(Seq<char>, Json)>)
    ensures
        members.len() <= member_nodes(members),
    decreases members.len(),
{
    if members.len() > 0 {
        lemma_member_nodes_len(members.drop_last());
        assert(nodes(members.last().1) >= 1);
    }
}

/// The items of a plain array are plain.
pub proof fn lemma_plain_item(items: Seq<Json>, i: int)
    requires
        is_plain(Json::Array(items)),
        0 <= i < items.len(),
    ensures
        is_plain(items[i]),
{
    let whole = Json::Array(items);
    assert(is_plain(whole) && whole->Array_0 == items);
}

/// The values of a plain object's members are plain.
pub proof fn lemma_plain_member(members: Seq<(Seq<char>, Json)>, i: int)
    requires
        is_plain(Json::Object(members)),
        0 <= i < members.len(),
    ensures
        is_plain(members[i].1),
{
    let whole = Json::Object(members);
    assert(is_plain(whole) && whole->Object_0 == members);
}

/// The value of the first member named `key`, if there is one.
pub open spec fn member(members: Seq<(Seq<char>, Json)>, key: Seq<char>) -> Option<Json>
    decreases members.len(),
{
    if members.len() == 0 {
        None
    } else if members[0].0 == key {
        Some(members[0].1)
    } else {
        member(members.drop_first(), key)
    }
}

impl Value {
    /// The name of this value's type: `null`, `bool`, `int`, `float`,
    /// `string`, `array` or `object`.
    pub fn kind_name(&self) -> (r: &'static str)
        ensures
            r@ == type_of(self@),
    {
        match self {
            Value::Null => "null",
            Value::Bool(_) => "bool",
            Value::Int(_) => "int",
            Value::Float(_) => "float",
            Value::Ratio(_) => "float",
            Value::Str(_) => "string",
            Value::Array(_) => "array",
            Value::Object(_) => "object",
        }
    }

    /// The first member named `key`, if this is an object that has one.
    pub fn get(&self, key: &str) -> (r: Option<&Value>)
        ensures
            match (self@, r) {
                (Json::Object(members), Some(value)) => member(members, key@) == Some(value@),
                (Json::Object(members), None) => member(members, key@) is None,
                (_, r) => r is None,
            },
    {
        match self {
            Value::Object(members) => {
                let ghost all = self@->Object_0;
                let mut i: usize = 0;
                assert(all.skip(0) =~= all);
                while i < members.len()
                    invariant
                        i <= members@.len(),
                        all == self@->Object_0,
                        *self == Value::Object(*members),
                        member(all, key@) == member(all.skip(i as int), key@),
                    decreases members.len() - i,
                {
                    assert(all[i as int] == (members@[i as int].0@, members@[i as int].1@));
                    if same(members[i].0.as_str(), key) {
                        return Some(&members[i].1);
                    }
                    assert(all.skip(i as int).drop_first() =~= all.skip(i + 1));
                    i = i + 1;
                }
                None
            },
            _ => None,
        }
    }

    /// The text of a string.
    pub fn as_str(&self) -> (r: Option<&str>)
        ensures
            match (self@, r) {
                (Json::Str(s), Some(text)) => text@ == s,
                (Json::Str(_), None) => false,
                (_, r) => r is None,
            },
    {
        match self {
            Value::Str(s) => Some(s.as_str()),
            _ => None,
        }
    }

    /// The number of an [`Value::Int`].
    pub fn as_i64(&self) -> (r: Option<i64>)
        ensures
            match self@ {
                Json::Int(n) => r == Some(n),
                _ => r is None,
            },
    {
        match self {
            Value::Int(n) => Some(*n),
            _ => None,
        }
    }

    /// The quotient of a [`Value::Ratio`].
    pub fn as_ratio(&self) -> (r: Option<Ratio>)
        ensures
            match (self@, r) {
                (Json::Ratio(part, whole), Some(ratio)) => ratio@ == (part, whole),
                (Json::Ratio(_, _), None) => false,
                (_, r) => r is None,
            },
    {
        match self {
            Value::Ratio(ratio) => Some(*ratio),
            _ => None,
        }
    }

    /// The items of an array.
    pub fn as_array(&self) -> (r: Option<&[Value]>)
        ensures
            match (self@, r) {
                (Json::Array(items), Some(values)) => views(values@) == items,
                (Json::Array(_), None) => false,
                (_, r) => r is None,
            },
    {
        match self {
            Value::Array(items) => {
                proof {
                    lemma_array_view(*items);
                }
                Some(items.as_slice())
            },
            _ => None,
        }
    }

    /// The members of an object.
    pub fn as_object(&self) -> (r: Option<&[(String, Value)]>)
        ensures
            match (self@, r) {
                (Json::Object(members), Some(values)) => member_views(values@) == members,
                (Json::Object(_), None) => false,
                (_, r) => r is None,
            },
    {
        match self {
            Value::Object(members) => {
                proof {
                    lemma_object_view(*members);
                }
                Some(members.as_slice())
            },
            _ => None,
        }
    }
}

/// Every kind of value has a type name of its own; numbers that are no integers
/// share one, whether they stand in a document or are computed.
pub proof fn law_type_names_tell_kinds_apart(a: Json, b: Json)
    ensures
        type_of(a) == type_of(b) <==> match (a, b) {
            (Json::Null, Json::Null) => true,
            (Json::Bool(_), Json::Bool(_)) => true,
            (Json::Int(_), Json::Int(_)) => true,
            (Json::Float(_) | Json::Ratio(_, _), Json::Float(_) | Json::Ratio(_, _)) => true,
            (Json::Str(_), Json::Str(_)) => true,
            (Json::Array(_), Json::Array(_)) => true,
            (Json::Object(_), Json::Object(_)) => true,
            _ => false,
        },
        a is Null ==> type_of(a) == "null"@,
        a is Bool ==> type_of(a) == "bool"@,
        a is Int ==> type_of(a) == "int"@,
        a is Float ==> type_of(a) == "float"@,
        a is Str ==> type_of(a) == "string"@,
        a is Array ==> type_of(a) == "array"@,
        a is Object ==> type_of(a) == "object"@,
{
    reveal_strlit("null");
    reveal_strlit("bool");
    reveal_strlit("int");
    reveal_strlit("float");
    reveal_strlit("string");
    reveal_strlit("array");
    reveal_strlit("object");
    assert("null"@.len() == 4 && "bool"@.len() == 4 && "int"@.len() == 3);
    assert("float"@.len() == 5 && "array"@.len() == 5);
    assert("string"@.len() == 6 && "object"@.len() == 6);
    assert("null"@[0] != "bool"@[0]);
    assert("float"@[0] != "array"@[0]);
    assert("string"@[0] != "object"@[0]);
}

} // verus!
