//! JSON documents as plain values, read with `serde_json`.

use vstd::prelude::*;
use vstd::string::*;

verus! {

/// A JSON number: its reading as a signed 64-bit integer, where it has one, and the bit
/// pattern of its reading as a binary64 number, where it has one.
#[derive(Clone, Copy, Debug, PartialEq, Eq)]
pub struct Number {
    pub integer: Option<i64>,
    pub bits: Option<u64>,
}

/// A JSON document. The members of an object stand in the order in which `serde_json`
/// keeps them.
#[derive(Debug, PartialEq, Eq)]
pub enum Json {
    Null,
    Bool(bool),
    Number(Number),
    Text(String),
    Array(Vec<Json>),
    Object(Vec<(String, Json)>),
}

#[verifier::external_type_specification]
#[verifier::external_body]
pub struct ExValue(serde_json::Value);

/// The document that `serde_json::from_slice` reads from a byte string, or nothing where
/// it reads none.
pub uninterp spec fn document_of(bytes: Seq<u8>) -> Option<Json>;

/// Copies a `serde_json::Value` into a [`Json`], variant by variant. The numbers are read
/// with `serde_json::Number::as_i64` and `as_f64`, the latter kept as `f64::to_bits` gives
/// it. Nothing is claimed of the result.
#[verifier::external_body]
fn json_of_value(value: serde_json::Value) -> Json {
    match value {
        serde_json::Value::Null => Json::Null,
        serde_json::Value::Bool(b) => Json::Bool(b),
        serde_json::Value::Number(n) => Json::Number(
            Number { integer: n.as_i64(), bits: n.as_f64().map(|x| x.to_bits()) },
        ),
        serde_json::Value::String(s) => Json::Text(s),
        serde_json::Value::Array(items) => Json::Array(
            items.into_iter().map(json_of_value).collect(),
        ),
        serde_json::Value::Object(members) => Json::Object(
            members.into_iter().map(|(k, v)| (k, json_of_value(v))).collect(),
        ),
    }
}

/// Calls `serde_json::from_slice` for a `serde_json::Value` and copies what it reads. The
/// contract claims only that the outcome is a function of the bytes, [`document_of`].
#[verifier::external_body]
pub(crate) fn parse_json(bytes: &[u8]) -> (doc: Option<Json>)
    ensures
        doc == document_of(bytes@),
{
    serde_json::from_slice::<serde_json::Value>(bytes).ok().map(json_of_value)
}

/// The position of the first member from `from` on whose key is `key`.
pub open spec fn find_key(members: Seq<(String, Json)>, key: Seq<char>, from: int) -> Option<int>
    decreases members.len() - from,
{
    if from < 0 || from >= members.len() {
        None
    } else if members[from].0@ == key {
        Some(from)
    } else {
        find_key(members, key, from + 1)
    }
}

/// The position of the first member whose key is `key`.
pub fn find_member(members: &Vec<(String, Json)>, key: &str) -> (found: Option<usize>)
    ensures
        match found {
            Some(i) => find_key(members@, key@, 0) == Some(i as int) && i < members.len(),
            None => find_key(members@, key@, 0) is None,
        },
{
    let wanted: String = String::from_str(key);
    let mut i: usize = 0;
    while i < members.len()
        invariant
            i <= members.len(),
            wanted@ == key@,
            find_key(members@, key@, 0) == find_key(members@, key@, i as int),
        decreases members.len() - i,
    {
        if members[i].0 == wanted {
            return Some(i);
        }
        i += 1;
    }
    None
}

impl Json {
    /// The binary64 reading of a number, as its bit pattern; nothing for any other value.
    pub open spec fn bits_cell(self) -> Option<u64> {
        match self {
            Json::Number(number) => number.bits,
            _ => None,
        }
    }

    /// The integer reading of a number; nothing for any other value.
    pub open spec fn integer_cell(self) -> Option<i64> {
        match self {
            Json::Number(number) => number.integer,
            _ => None,
        }
    }

    /// The binary64 reading of a number, as its bit pattern; nothing for any other value.
    pub fn as_bits(&self) -> (cell: Option<u64>)
        ensures
            cell == self.bits_cell(),
    {
        match self {
            Json::Number(number) => number.bits,
            _ => None,
        }
    }

    /// The integer reading of a number; nothing for any other value.
    pub fn as_integer(&self) -> (cell: Option<i64>)
        ensures
            cell == self.integer_cell(),
    {
        match self {
            Json::Number(number) => number.integer,
            _ => None,
        }
    }
}

} // verus!
