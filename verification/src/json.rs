//! JSON documents as mathematical trees, and the reads of `serde_json` that the crate makes.
use serde_json::{Map as JsonMap, Value};
use vstd::prelude::*;

use crate::decimal;

verus! {

/// What a JSON value holds. Null, booleans and all other numbers are never read here and share
/// one variant.
pub enum Json {
    /// An object: its entries in the order in which the object is walked.
    Object(Seq<(Seq<char>, Json)>),
    /// An array.
    Array(Seq<Json>),
    /// A string.
    Text(Seq<char>),
    /// A number that is written as an integer and fits an `i64`.
    Integer(i64),
    /// Anything else.
    Other,
}

impl Json {
    /// The entries of an object; none for anything else.
    pub open spec fn entries(self) -> Seq<(Seq<char>, Json)> {
        match self {
            Json::Object(entries) => entries,
            _ => Seq::empty(),
        }
    }

    /// The items of an array; none for anything else.
    pub open spec fn items(self) -> Seq<Json> {
        match self {
            Json::Array(items) => items,
            _ => Seq::empty(),
        }
    }

    /// The part of a value that one reference token names: the member of an object under
    /// that key, or the item of an array at that index, written in decimal.
    pub open spec fn child(self, token: Seq<char>) -> Option<Json> {
        match self {
            Json::Object(entries) => member(entries, token),
            Json::Array(items) => if exists|i: int|
                0 <= i < items.len() && token == #[trigger] decimal::decimal(i) {
                Some(items[choose|i: int| 0 <= i < items.len() && token == #[trigger] decimal::decimal(i)])
            } else {
                None
            },
            _ => None,
        }
    }

    /// The value that a path of reference tokens leads to.
    pub open spec fn at(self, path: Seq<Seq<char>>) -> Option<Json>
        decreases path.len(),
    {
        if path.len() == 0 {
            Some(self)
        } else {
            match self.child(path[0]) {
                Some(child) => child.at(path.drop_first()),
                None => None,
            }
        }
    }
}

/// The value of the first entry under a key.
pub open spec fn member(entries: Seq<(Seq<char>, Json)>, key: Seq<char>) -> Option<Json>
    decreases entries.len(),
{
    if entries.len() == 0 {
        None
    } else if entries[0].0 == key {
        Some(entries[0].1)
    } else {
        member(entries.drop_first(), key)
    }
}

/// A reference token as a JSON Pointer writes it: `~` becomes `~0` and `/` becomes `~1`.
pub open spec fn escaped(token: Seq<char>) -> Seq<char>
    decreases token.len(),
{
    if token.len() == 0 {
        Seq::empty()
    } else {
        escaped(token.drop_last()) + if token.last() == '~' {
            seq!['~', '0']
        } else if token.last() == '/' {
            seq!['~', '1']
        } else {
            seq![token.last()]
        }
    }
}

/// The JSON Pointer of a path: each token behind a slash.
pub open spec fn pointer_text(path: Seq<Seq<char>>) -> Seq<char>
    decreases path.len(),
{
    if path.len() == 0 {
        Seq::empty()
    } else {
        seq!['/'] + escaped(path[0]) + pointer_text(path.drop_first())
    }
}

/// A token without `~` and `/` is written as it is.
pub(crate) proof fn lemma_plain_token(token: Seq<char>)
    requires
        forall|i: int| 0 <= i < token.len() ==> #[trigger] token[i] != '/' && token[i] != '~',
    ensures
        escaped(token) == token,
    decreases token.len(),
{
    if token.len() > 0 {
        lemma_plain_token(token.drop_last());
        assert(escaped(token) =~= token);
    }
}

/// `serde_json::Value`.
#[verifier::external_type_specification]
#[verifier::external_body]
pub struct ExValue(Value);

/// `serde_json::Map`.
#[verifier::external_type_specification]
#[verifier::external_body]
#[verifier::reject_recursive_types(K)]
#[verifier::reject_recursive_types(V)]
pub struct ExJsonMap<K, V>(JsonMap<K, V>);

/// The tree that a `serde_json::Value` holds.
pub uninterp spec fn json_of(value: Value) -> Json;

/// The entries of a `serde_json::Map`, in the order in which the map is walked.
pub uninterp spec fn entries_of(object: JsonMap<String, Value>) -> Seq<(Seq<char>, Json)>;

/// The trees of a sequence of values.
pub open spec fn jsons_of(values: Seq<Value>) -> Seq<Json> {
    Seq::new(values.len(), |i: int| json_of(values[i]))
}

/// `serde_json::Value::as_object`: the map of an object, `None` for anything else.
pub assume_specification[ Value::as_object ](value: &Value) -> (r: Option<&JsonMap<String, Value>>)
    ensures
        match r {
            Some(object) => json_of(*value) == Json::Object(entries_of(*object)),
            None => !(json_of(*value) is Object),
        },
;

/// `serde_json::Value::as_array`: the items of an array, `None` for anything else.
pub assume_specification[ Value::as_array ](value: &Value) -> (r: Option<&Vec<Value>>)
    ensures
        match r {
            Some(items) => json_of(*value) == Json::Array(jsons_of(items@)),
            None => !(json_of(*value) is Array),
        },
;

/// `serde_json::Value::as_i64`: the integer, where the value is one that fits an `i64`.
pub assume_specification[ Value::as_i64 ](value: &Value) -> (r: Option<i64>)
    ensures
        match r {
            Some(n) => json_of(*value) == Json::Integer(n),
            None => !(json_of(*value) is Integer),
        },
;

/// `serde_json::Value::as_str`: the characters of a string, `None` for anything else.
pub assume_specification[ Value::as_str ](value: &Value) -> (r: Option<&str>)
    ensures
        match r {
            Some(text) => json_of(*value) == Json::Text(text@),
            None => !(json_of(*value) is Text),
        },
;

/// `serde_json::Value::pointer`: the value that a JSON Pointer addresses, `None` where there is
/// no such value. What a text that is no JSON Pointer addresses is left unsaid.
pub assume_specification<'a>[ Value::pointer ](value: &'a Value, pointer: &str) -> (r: Option<
    &'a Value,
>)
    ensures
        forall|path: Seq<Seq<char>>|
            pointer@ == #[trigger] pointer_text(path) ==> match r {
                Some(target) => json_of(*value).at(path) == Some(json_of(*target)),
                None => json_of(*value).at(path) is None,
            },
;

/// The values of a `serde_json::Map` as `serde_json::Map::values` walks them: one for each
/// entry, in the order of the entries.
#[verifier::external_body]
pub(crate) fn object_values(object: &JsonMap<String, Value>) -> (r: Vec<&Value>)
    ensures
        r@.len() == entries_of(*object).len(),
        forall|i: int| 0 <= i < r@.len() ==> json_of(*#[trigger] r@[i]) == entries_of(*object)[i].1,
{
    object.values().collect()
}

/// The entries of an object are all it holds, as the items of an array are.
pub proof fn parts_are_whole(value: Json)
    ensures
        value matches Json::Object(entries) ==> value.entries() == entries && value.items().len()
            == 0,
        value matches Json::Array(items) ==> value.items() == items && value.entries().len() == 0,
        !(value is Object) ==> value.entries().len() == 0,
        !(value is Array) ==> value.items().len() == 0,
{
}

/// The trees of a sequence are the trees of its values, one by one.
pub proof fn trees_one_by_one(values: Seq<Value>)
    ensures
        jsons_of(values) == values.map_values(|value: Value| json_of(value)),
{
    assert(jsons_of(values) =~= values.map_values(|value: Value| json_of(value)));
}

/// A key leads to the first member under it.
pub proof fn member_found(entries: Seq<(Seq<char>, Json)>, key: Seq<char>, i: int)
    requires
        0 <= i < entries.len(),
        entries[i].0 == key,
        forall|j: int| 0 <= j < i ==> (#[trigger] entries[j]).0 != key,
    ensures
        Json::Object(entries).child(key) == Some(entries[i].1),
    decreases entries.len(),
{
    if i > 0 {
        let rest = entries.drop_first();
        assert(entries[0].0 != key);
        assert forall|j: int| 0 <= j < i - 1 implies (#[trigger] rest[j]).0 != key by {
            assert(entries[j + 1].0 != key);
        }
        member_found(rest, key, i - 1);
    }
}

/// A key without a member leads nowhere.
pub proof fn member_missing(entries: Seq<(Seq<char>, Json)>, key: Seq<char>)
    requires
        forall|j: int| 0 <= j < entries.len() ==> (#[trigger] entries[j]).0 != key,
    ensures
        Json::Object(entries).child(key) is None,
    decreases entries.len(),
{
    if entries.len() > 0 {
        let rest = entries.drop_first();
        assert(entries[0].0 != key);
        assert forall|j: int| 0 <= j < rest.len() implies (#[trigger] rest[j]).0 != key by {
            assert(entries[j + 1].0 != key);
        }
        member_missing(rest, key);
    }
}

/// An index leads to the item there, and an index behind the last item leads nowhere.
pub proof fn item_found(items: Seq<Json>, i: int)
    requires
        0 <= i,
    ensures
        i < items.len() ==> Json::Array(items).child(decimal::decimal(i)) == Some(items[i]),
        i >= items.len() ==> Json::Array(items).child(decimal::decimal(i)) is None,
{
    let token = decimal::decimal(i);
    if exists|k: int| 0 <= k < items.len() && token == #[trigger] decimal::decimal(k) {
        let k = choose|k: int| 0 <= k < items.len() && token == #[trigger] decimal::decimal(k);
        decimal::decimal_injective(i, k);
    }
}

/// Texts, numbers and the rest have no parts, and a path leads through the parts one by one.
pub proof fn path_leads_on(value: Json, token: Seq<char>, path: Seq<Seq<char>>)
    ensures
        !(value is Object) && !(value is Array) ==> value.child(token) is None,
        value.at(Seq::empty()) == Some(value),
        value.at(seq![token] + path) == (match value.child(token) {
            Some(child) => child.at(path),
            None => None,
        }),
{
    assert((seq![token] + path).drop_first() =~= path);
}

} // verus!
