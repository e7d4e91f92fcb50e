//! JSON documents as plain values: what documents are read from and what
//! schemas are laid out as.

use vstd::prelude::*;

verus! {

/// A JSON value. A number is an integer, or a number with a fractional part
/// or an exponent, which is kept as the 64 bits of its binary encoding.
#[derive(Debug, PartialEq, Eq)]
pub enum Json {
    Null,
    Bool(bool),
    Integer(i128),
    Float(u64),
    String(String),
    Array(Vec<Json>),
    Object(Vec<(String, Json)>),
}

/// The mathematical value of a JSON value. The entries of an object are kept
/// in the order in which they are listed.
pub enum JsonValue {
    Null,
    Bool(bool),
    Integer(int),
    Float(u64),
    String(Seq<char>),
    Array(Seq<JsonValue>),
    Object(Seq<(Seq<char>, JsonValue)>),
}

impl Json {
    /// The value that this document stands for.
    pub open spec fn model(&self) -> JsonValue
        decreases self,
    {
        match self {
            Json::Null => JsonValue::Null,
            Json::Bool(b) => JsonValue::Bool(*b),
            Json::Integer(i) => JsonValue::Integer(*i as int),
            Json::Float(bits) => JsonValue::Float(*bits),
            Json::String(s) => JsonValue::String(s@),
            Json::Array(items) => JsonValue::Array(models_of(items@)),
            Json::Object(entries) => JsonValue::Object(entries_of(entries@)),
        }
    }
}

impl View for Json {
    type V = JsonValue;

    open spec fn view(&self) -> JsonValue {
        self.model()
    }
}

/// The values of a list of documents.
pub open spec fn models_of(items: Seq<Json>) -> Seq<JsonValue>
    decreases items,
{
    Seq::new(
        items.len(),
        |i: int|
            if 0 <= i < items.len() {
                items[i].model()
            } else {
                JsonValue::Null
            },
    )
}

/// The names and values of a list of entries.
pub open spec fn entries_of(entries: Seq<(String, Json)>) -> Seq<(Seq<char>, JsonValue)>
    decreases entries,
{
    Seq::new(
        entries.len(),
        |i: int|
            if 0 <= i < entries.len() {
                (entries[i].0@, entries[i].1.model())
            } else {
                (Seq::empty(), JsonValue::Null)
            },
    )
}

} // verus!
