//! JSON documents as plain values: the values that serde_json parses, how a
//! field or a text is read from them, and when two of them are equal.
use serde_json::Value;
use vstd::prelude::*;
use vstd::string::StringExecFns;

use crate::syntax::tree::same_text;

verus! {

/// A JSON value as serde_json parses it; an object's entries come in the order
/// of serde_json's map.
pub enum JsonValue {
    /// `null`.
    Null,
    /// `true` or `false`.
    Bool(bool),
    /// A number: its value as `u64` and as `i64` where it is an integer that fits
    /// (serde_json's `as_u64` and `as_i64`), and the text serde_json writes for it.
    Number { unsigned: Option<u64>, signed: Option<i64>, text: String },
    /// A string.
    Text(String),
    /// An array, in order.
    Array(Vec<JsonValue>),
    /// An object, as its entries.
    Object(Vec<(String, JsonValue)>),
}

/// What serde_json parses from a text: the value, or the text of its error.
pub uninterp spec fn json_of(text: Seq<char>) -> Result<JsonValue, Seq<char>>;

/// Calls `serde_json::from_str` for a `serde_json::Value` and converts the
/// result variant by variant; each element of an array or object is converted
/// by the same call on the text serde_json writes for it, which always parses
/// back (the `null` in its place is never taken). The contract names the
/// result, or the error's `Display` text.
#[verifier::external_body]
pub fn parse_json(text: &str) -> (value: Result<JsonValue, String>)
    ensures
        match value {
            Ok(v) => json_of(text@) == Ok::<JsonValue, Seq<char>>(v),
            Err(e) => json_of(text@) == Err::<JsonValue, Seq<char>>(e@),
        },
{
    let each = |v: &Value| parse_json(&v.to_string()).unwrap_or(JsonValue::Null);
    Ok(match serde_json::from_str::<Value>(text).map_err(|error| error.to_string())? {
        Value::Null => JsonValue::Null,
        Value::Bool(b) => JsonValue::Bool(b),
        Value::Number(n) => JsonValue::Number { unsigned: n.as_u64(), signed: n.as_i64(), text: n.to_string() },
        Value::String(s) => JsonValue::Text(s),
        Value::Array(a) => JsonValue::Array(a.iter().map(each).collect()),
        Value::Object(m) => JsonValue::Object(m.iter().map(|(k, v)| (k.clone(), each(v))).collect()),
    })
}

/// What serde_json parses from bytes: the value, or the text of its error.
pub uninterp spec fn json_of_bytes(bytes: Seq<u8>) -> Result<JsonValue, Seq<char>>;

/// Calls `serde_json::from_slice` for a `serde_json::Value`, and converts the
/// value by writing it as text and reading that with [`parse_json`]. The
/// contract names the result, or the error's `Display` text.
#[verifier::external_body]
pub fn parse_json_bytes(bytes: &[u8]) -> (value: Result<JsonValue, String>)
    ensures
        match value {
            Ok(v) => json_of_bytes(bytes@) == Ok::<JsonValue, Seq<char>>(v),
            Err(e) => json_of_bytes(bytes@) == Err::<JsonValue, Seq<char>>(e@),
        },
{
    let value: Value = serde_json::from_slice(bytes).map_err(|error| error.to_string())?;
    parse_json(&value.to_string())
}

/// The first index of an entry named `key`.
pub open spec fn key_index(entries: Seq<(String, JsonValue)>, key: Seq<char>) -> Option<int>
    decreases entries.len(),
{
    if entries.len() == 0 {
        None
    } else if entries.last().0@ == key && key_index(entries.drop_last(), key) is None {
        Some(entries.len() - 1)
    } else {
        key_index(entries.drop_last(), key)
    }
}

/// The first index of an entry named `key` lies among the entries and names it,
/// and no earlier entry does; without one, no entry does.
pub proof fn lemma_key_index(entries: Seq<(String, JsonValue)>, key: Seq<char>)
    ensures
        key_index(entries, key) matches Some(j) ==> 0 <= j < entries.len() && entries[j].0@ == key && forall|
            m: int,
        | 0 <= m < j ==> entries[m].0@ != key,
        key_index(entries, key) is None ==> forall|m: int| 0 <= m < entries.len() ==> entries[m].0@ != key,
    decreases entries.len(),
{
    if entries.len() > 0 {
        let init = entries.drop_last();
        lemma_key_index(init, key);
        assert forall|m: int| 0 <= m < init.len() implies init[m] == entries[m] by {}
    }
}

/// The value of the field `key` of an object; nothing for another value.
pub open spec fn field(v: JsonValue, key: Seq<char>) -> Option<JsonValue> {
    match v {
        JsonValue::Object(entries) => match key_index(entries@, key) {
            Some(j) => Some(entries@[j].1),
            None => None,
        },
        _ => None,
    }
}

/// A field of a value is smaller than the value.
pub proof fn lemma_field_decreases(v: JsonValue, key: Seq<char>)
    ensures
        field(v, key) is Some ==> decreases_to!(v => field(v, key)->0),
{
    match v {
        JsonValue::Object(entries) => {
            lemma_key_index(entries@, key);
            match key_index(entries@, key) {
                Some(j) => {
                    vstd::std_specs::vec::axiom_vec_index_decreases(entries, j);
                    assert(decreases_to!(v => v->Object_0));
                    assert(decreases_to!(v => entries@[j].1));
                },
                None => {},
            }
        },
        _ => {},
    }
}

/// The elements of an array are smaller than any value the array is smaller than.
pub proof fn lemma_elements_decrease<T>(v: T, items: Vec<JsonValue>)
    requires
        decreases_to!(v => JsonValue::Array(items)),
    ensures
        forall|i: int| 0 <= i < items@.len() ==> decreases_to!(v => #[trigger] items@[i]),
{
    assert forall|i: int| 0 <= i < items@.len() implies decreases_to!(v => #[trigger] items@[i]) by {
        vstd::std_specs::vec::axiom_vec_index_decreases(items, i);
        let a = JsonValue::Array(items);
        assert(decreases_to!(a => a->Array_0));
        assert(decreases_to!(a => items@[i]));
    }
}

/// The text of a value that is a string.
pub open spec fn as_text(v: Option<JsonValue>) -> Option<Seq<char>> {
    match v {
        Some(JsonValue::Text(s)) => Some(s@),
        _ => None,
    }
}

/// The value of a number that is an integer fitting in `u64`.
pub open spec fn as_unsigned(v: Option<JsonValue>) -> Option<u64> {
    match v {
        Some(JsonValue::Number { unsigned, .. }) => unsigned,
        _ => None,
    }
}

/// The value of a number that is an integer fitting in `i64`.
pub open spec fn as_signed(v: Option<JsonValue>) -> Option<i64> {
    match v {
        Some(JsonValue::Number { signed, .. }) => signed,
        _ => None,
    }
}

/// The text of an optional string, by its characters.
pub open spec fn text_view(text: Option<String>) -> Option<Seq<char>> {
    match text {
        Some(s) => Some(s@),
        None => None,
    }
}

/// The field `key` of a value, if it is an object that has one.
pub fn get<'a>(v: &'a JsonValue, key: &str) -> (found: Option<&'a JsonValue>)
    ensures
        match found {
            Some(x) => field(*v, key@) == Some(*x),
            None => field(*v, key@) is None,
        },
{
    match v {
        JsonValue::Object(entries) => {
            proof {
                lemma_key_index(entries@, key@);
            }
            let mut k: usize = 0;
            while k < entries.len()
                invariant
                    *v == JsonValue::Object(*entries),
                    k <= entries@.len(),
                    forall|m: int| 0 <= m < k ==> entries@[m].0@ != key@,
                decreases entries@.len() - k,
            {
                if same_text(entries[k].0.as_str(), key) {
                    proof {
                        lemma_key_index(entries@, key@);
                        match key_index(entries@, key@) {
                            Some(j) => {
                                assert(j == k);
                            },
                            None => {
                                assert(entries@[k as int].0@ != key@);
                            },
                        }
                    }
                    proof {
                        assert(field(*v, key@) == Some(entries@[k as int].1));
                    }
                    return Some(&entries[k].1);
                }
                k = k + 1;
            }
            proof {
                match key_index(entries@, key@) {
                    Some(j) => {
                        assert(entries@[j].0@ == key@);
                    },
                    None => {},
                }
            }
            None
        },
        _ => None,
    }
}

/// A copy of a string.
fn copy_text(s: &String) -> (copy: String)
    ensures
        copy@ == s@,
{
    String::from_str(s.as_str())
}

/// The text of a value that is a string.
pub fn text_at(v: Option<&JsonValue>) -> (text: Option<String>)
    ensures
        text_view(text) == as_text(
            match v {
                Some(x) => Some(*x),
                None => None,
            },
        ),
{
    match v {
        Some(JsonValue::Text(s)) => Some(copy_text(s)),
        _ => None,
    }
}

/// The value of a number that is an integer fitting in `u64`.
pub fn unsigned_at(v: Option<&JsonValue>) -> (n: Option<u64>)
    ensures
        n == as_unsigned(
            match v {
                Some(x) => Some(*x),
                None => None,
            },
        ),
{
    match v {
        Some(JsonValue::Number { unsigned, .. }) => *unsigned,
        _ => None,
    }
}

/// The value of a number that is an integer fitting in `i64`.
pub fn signed_at(v: Option<&JsonValue>) -> (n: Option<i64>)
    ensures
        n == as_signed(
            match v {
                Some(x) => Some(*x),
                None => None,
            },
        ),
{
    match v {
        Some(JsonValue::Number { signed, .. }) => *signed,
        _ => None,
    }
}

/// Whether two JSON values are equal as serde_json compares them: the same
/// variant, equal scalars, numbers equal as integers or else by their text,
/// arrays element by element, and objects entry by entry.
pub open spec fn json_same(a: JsonValue, b: JsonValue) -> bool
    decreases a,
{
    match (a, b) {
        (JsonValue::Null, JsonValue::Null) => true,
        (JsonValue::Bool(x), JsonValue::Bool(y)) => x == y,
        (
            JsonValue::Number { unsigned: u1, signed: s1, text: t1 },
            JsonValue::Number { unsigned: u2, signed: s2, text: t2 },
        ) => if u1 is Some || s1 is Some || u2 is Some || s2 is Some {
            u1 == u2 && s1 == s2
        } else {
            t1@ == t2@
        },
        (JsonValue::Text(x), JsonValue::Text(y)) => x@ == y@,
        (JsonValue::Array(x), JsonValue::Array(y)) => x@.len() == y@.len() && forall|i: int|
            0 <= i < x@.len() ==> json_same(x@[i], y@[i]),
        (JsonValue::Object(x), JsonValue::Object(y)) => x@.len() == y@.len() && forall|i: int|
            0 <= i < x@.len() ==> entry_same(#[trigger] x@[i], y@[i]),
        _ => false,
    }
}

/// Whether two object entries have the same name and equal values.
pub open spec fn entry_same(p: (String, JsonValue), q: (String, JsonValue)) -> bool
    decreases p,
{
    p.0@ == q.0@ && json_same(p.1, q.1)
}

/// Whether two JSON values are equal, as [`json_same`] says.
pub fn same_json(a: &JsonValue, b: &JsonValue) -> (same: bool)
    ensures
        same == json_same(*a, *b),
    decreases *a,
{
    match (a, b) {
        (JsonValue::Null, JsonValue::Null) => true,
        (JsonValue::Bool(x), JsonValue::Bool(y)) => *x == *y,
        (
            JsonValue::Number { unsigned: u1, signed: s1, text: t1 },
            JsonValue::Number { unsigned: u2, signed: s2, text: t2 },
        ) => {
            if u1.is_some() || s1.is_some() || u2.is_some() || s2.is_some() {
                *u1 == *u2 && *s1 == *s2
            } else {
                same_text(t1.as_str(), t2.as_str())
            }
        },
        (JsonValue::Text(x), JsonValue::Text(y)) => same_text(x.as_str(), y.as_str()),
        (JsonValue::Array(x), JsonValue::Array(y)) => {
            if x.len() != y.len() {
                return false;
            }
            let mut i: usize = 0;
            while i < x.len()
                invariant
                    i <= x@.len(),
                    x@.len() == y@.len(),
                    *a == JsonValue::Array(*x),
                    *b == JsonValue::Array(*y),
                    forall|m: int| 0 <= m < i ==> json_same(#[trigger] x@[m], y@[m]),
                decreases x@.len() - i,
            {
                proof {
                    vstd::std_specs::vec::axiom_vec_index_decreases(*x, i as int);
                    assert(decreases_to!(*a => (*a)->Array_0));
                    assert(decreases_to!(*a => x@[i as int]));
                }
                if !same_json(&x[i], &y[i]) {
                    proof {
                        assert(!json_same(x@[i as int], y@[i as int]));
                        assert(!json_same(*a, *b));
                    }
                    return false;
                }
                i = i + 1;
            }
            proof {
                assert(json_same(*a, *b));
            }
            true
        },
        (JsonValue::Object(x), JsonValue::Object(y)) => {
            if x.len() != y.len() {
                return false;
            }
            let mut i: usize = 0;
            while i < x.len()
                invariant
                    i <= x@.len(),
                    x@.len() == y@.len(),
                    *a == JsonValue::Object(*x),
                    *b == JsonValue::Object(*y),
                    forall|m: int| 0 <= m < i ==> entry_same(#[trigger] x@[m], y@[m]),
                decreases x@.len() - i,
            {
                proof {
                    vstd::std_specs::vec::axiom_vec_index_decreases(*x, i as int);
                    assert(decreases_to!(*a => (*a)->Object_0));
                    assert(decreases_to!(*a => x@[i as int].1));
                }
                let same_key = same_text(x[i].0.as_str(), y[i].0.as_str());
                let same_value = same_key && same_json(&x[i].1, &y[i].1);
                proof {
                    if same_value {
                        assert(x@[i as int].0@ == y@[i as int].0@);
                        assert(json_same(x@[i as int].1, y@[i as int].1));
                        assert(entry_same(x@[i as int], y@[i as int]));
                    }
                }
                if !same_value {
                    proof {
                        assert(!entry_same(x@[i as int], y@[i as int]));
                        assert(!json_same(*a, *b));
                    }
                    return false;
                }
                i = i + 1;
            }
            proof {
                assert(json_same(*a, *b));
            }
            true
        },
        _ => false,
    }
}

} // verus!
