//! The value tree: a closed tagged union with one variant per JSON type,
//! together with its mathematical model.
//!
//! Numbers are carried as their validated source text rather than as a
//! machine float, so the tree holds exactly what the document said; a
//! caller that needs an actual floating-point value converts the text
//! itself. Objects are carried as an ordered list of key/value pairs whose
//! keys are unique; duplicate keys in source text resolve last-write-wins
//! while parsing, so a finished tree never holds two entries for one key.

use vstd::prelude::*;

verus! {

/// The mathematical model of a value tree: the same shape as
/// [`JsonValue`], over `Seq` instead of `Vec` and `String`. Contracts
/// speak of this type; ghost code only.
pub enum Json {
    /// Key/value pairs, in order, keys unique.
    Obj(Seq<(Seq<char>, Json)>),
    /// Elements in order.
    Arr(Seq<Json>),
    /// Decoded text: escapes already resolved by the tokenizer.
    Str(Seq<char>),
    /// The number's source text, e.g. `-3e2`.
    Num(Seq<char>),
    Bool(bool),
    Null,
}

/// An in-memory JSON document: a closed tagged union with one variant per
/// JSON type. Built by the parser, rendered by the serializer; immutable
/// once built.
#[derive(Debug, PartialEq)]
pub enum JsonValue {
    /// Key/value pairs, in order of first appearance, keys unique.
    Obj(Vec<(String, JsonValue)>),
    /// Elements in order.
    Arr(Vec<JsonValue>),
    /// Decoded text: escapes already resolved by the tokenizer.
    Str(String),
    /// The number's source text, e.g. `-3e2`.
    Num(String),
    Bool(bool),
    Null,
}

/// The model of one value tree node.
pub open spec fn jv_model(v: JsonValue) -> Json
    decreases v,
{
    match v {
        JsonValue::Obj(pairs) => Json::Obj(jv_model_pairs(pairs@)),
        JsonValue::Arr(elems) => Json::Arr(jv_model_elems(elems@)),
        JsonValue::Str(s) => Json::Str(s@),
        JsonValue::Num(t) => Json::Num(t@),
        JsonValue::Bool(b) => Json::Bool(b),
        JsonValue::Null => Json::Null,
    }
}

/// The model of an object's pair list.
pub open spec fn jv_model_pairs(s: Seq<(String, JsonValue)>) -> Seq<(Seq<char>, Json)>
    decreases s,
{
    if s.len() == 0 {
        Seq::empty()
    } else {
        jv_model_pairs(s.drop_last()).push((s.last().0@, jv_model(s.last().1)))
    }
}

/// The model of an array's element list.
pub open spec fn jv_model_elems(s: Seq<JsonValue>) -> Seq<Json>
    decreases s,
{
    if s.len() == 0 {
        Seq::empty()
    } else {
        jv_model_elems(s.drop_last()).push(jv_model(s.last()))
    }
}

impl View for JsonValue {
    type V = Json;

    open spec fn view(&self) -> Json {
        jv_model(*self)
    }
}

/// The pair-list model keeps length and maps each pair pointwise.
pub proof fn lemma_model_pairs(s: Seq<(String, JsonValue)>)
    ensures
        jv_model_pairs(s).len() == s.len(),
        forall|i: int|
            0 <= i < s.len() ==> #[trigger] jv_model_pairs(s)[i] == (s[i].0@, jv_model(s[i].1)),
    decreases s,
{
    if s.len() > 0 {
        lemma_model_pairs(s.drop_last());
    }
}

/// The element-list model keeps length and maps each element pointwise.
pub proof fn lemma_model_elems(s: Seq<JsonValue>)
    ensures
        jv_model_elems(s).len() == s.len(),
        forall|i: int| 0 <= i < s.len() ==> #[trigger] jv_model_elems(s)[i] == jv_model(s[i]),
    decreases s,
{
    if s.len() > 0 {
        lemma_model_elems(s.drop_last());
    }
}

} // verus!
