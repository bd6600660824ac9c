//! The value domain: generic values, JSON values, and the models Verus reasons about.
use vstd::prelude::*;
use crate::content_id::ContentId;

verus! {

/// A value of the generic domain as Verus reasons about it.
pub enum ValueModel {
    Null,
    Bool(bool),
    Integer(int),
    /// A 64-bit float, given by its IEEE 754 bit pattern.
    Float(u64),
    Text(Seq<char>),
    Bytes(Seq<u8>),
    List(Seq<ValueModel>),
    /// Entries in the order they are held.
    Dict(Seq<(Seq<char>, ValueModel)>),
    /// A CID in binary form.
    Link(Seq<u8>),
}

#[derive(Debug, PartialEq)]
/// A generic value: JSON's kinds plus disjoint integers and floats, byte strings
/// and typed links.
pub enum GenericValue {
    Null,
    Bool(bool),
    Integer(i64),
    /// A 64-bit float, given by its IEEE 754 bit pattern.
    Float(u64),
    Text(String),
    Bytes(Vec<u8>),
    List(Vec<GenericValue>),
    /// Entries with unique keys; a canonical map holds them in ascending byte
    /// order of the UTF-8 keys.
    Dict(Vec<(String, GenericValue)>),
    Link(ContentId),
}

impl GenericValue {
    pub open spec fn model(&self) -> ValueModel
        decreases self,
    {
        match self {
            GenericValue::Null => ValueModel::Null,
            GenericValue::Bool(b) => ValueModel::Bool(*b),
            GenericValue::Integer(i) => ValueModel::Integer(*i as int),
            GenericValue::Float(f) => ValueModel::Float(*f),
            GenericValue::Text(s) => ValueModel::Text(s@),
            GenericValue::Bytes(b) => ValueModel::Bytes(b@),
            GenericValue::List(l) => ValueModel::List(models(l@)),
            GenericValue::Dict(m) => ValueModel::Dict(entry_models(m@)),
            GenericValue::Link(c) => ValueModel::Link(c@),
        }
    }
}

pub open spec fn models(s: Seq<GenericValue>) -> Seq<ValueModel>
    decreases s,
{
    if s.len() == 0 {
        seq![]
    } else {
        models(s.drop_last()).push(s.last().model())
    }
}

pub open spec fn entry_models(s: Seq<(String, GenericValue)>) -> Seq<(Seq<char>, ValueModel)>
    decreases s,
{
    if s.len() == 0 {
        seq![]
    } else {
        entry_models(s.drop_last()).push((s.last().0@, s.last().1.model()))
    }
}

#[derive(Debug, Clone, Copy, PartialEq, Eq, Structural)]
/// A JSON number, in the three kinds a JSON parser tells apart.
pub enum JsonNumber {
    PosInt(u64),
    NegInt(i64),
    /// A 64-bit float, given by its IEEE 754 bit pattern.
    Float(u64),
}

/// A JSON value as Verus reasons about it.
pub enum JsonModel {
    Null,
    Bool(bool),
    Number(JsonNumber),
    Str(Seq<char>),
    Array(Seq<JsonModel>),
    /// Fields in text order.
    Object(Seq<(Seq<char>, JsonModel)>),
}

/// A JSON value.
#[derive(Debug, PartialEq)]
pub enum JsonValue {
    Null,
    Bool(bool),
    Number(JsonNumber),
    Str(String),
    Array(Vec<JsonValue>),
    Object(Vec<(String, JsonValue)>),
}

impl JsonValue {
    pub open spec fn model(&self) -> JsonModel
        decreases self,
    {
        match self {
            JsonValue::Null => JsonModel::Null,
            JsonValue::Bool(b) => JsonModel::Bool(*b),
            JsonValue::Number(n) => JsonModel::Number(*n),
            JsonValue::Str(s) => JsonModel::Str(s@),
            JsonValue::Array(l) => JsonModel::Array(json_models(l@)),
            JsonValue::Object(m) => JsonModel::Object(field_models(m@)),
        }
    }
}

pub proof fn lemma_models(s: Seq<GenericValue>)
    ensures
        models(s).len() == s.len(),
        forall|i: int| 0 <= i < s.len() ==> #[trigger] models(s)[i] == s[i].model(),
    decreases s.len(),
{
    if s.len() > 0 {
        lemma_models(s.drop_last());
    }
}

pub proof fn lemma_entry_models(s: Seq<(String, GenericValue)>)
    ensures
        entry_models(s).len() == s.len(),
        forall|i: int|
            0 <= i < s.len() ==> #[trigger] entry_models(s)[i] == (s[i].0@, s[i].1.model()),
    decreases s.len(),
{
    if s.len() > 0 {
        lemma_entry_models(s.drop_last());
    }
}

pub open spec fn json_models(s: Seq<JsonValue>) -> Seq<JsonModel>
    decreases s,
{
    if s.len() == 0 {
        seq![]
    } else {
        json_models(s.drop_last()).push(s.last().model())
    }
}

pub open spec fn field_models(s: Seq<(String, JsonValue)>) -> Seq<(Seq<char>, JsonModel)>
    decreases s,
{
    if s.len() == 0 {
        seq![]
    } else {
        field_models(s.drop_last()).push((s.last().0@, s.last().1.model()))
    }
}

pub proof fn lemma_json_models(s: Seq<JsonValue>)
    ensures
        json_models(s).len() == s.len(),
        forall|i: int| 0 <= i < s.len() ==> #[trigger] json_models(s)[i] == s[i].model(),
    decreases s.len(),
{
    if s.len() > 0 {
        lemma_json_models(s.drop_last());
    }
}

pub proof fn lemma_field_models(s: Seq<(String, JsonValue)>)
    ensures
        field_models(s).len() == s.len(),
        forall|i: int|
            0 <= i < s.len() ==> #[trigger] field_models(s)[i] == (s[i].0@, s[i].1.model()),
    decreases s.len(),
{
    if s.len() > 0 {
        lemma_field_models(s.drop_last());
    }
}

} // verus!
