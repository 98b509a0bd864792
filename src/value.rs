//! The value tree a parse produces, and its mathematical model.

use vstd::prelude::*;

verus! {

/// A pair of byte offsets into the parsed buffer: the text from `start`
/// up to, but not including, `end`.
#[derive(Clone, Copy, Debug, PartialEq, Eq, Structural)]
pub struct Span {
    pub start: usize,
    pub end: usize,
}

impl Span {
    /// The span lies within a buffer of `len` bytes.
    pub open spec fn within(self, len: nat) -> bool {
        self.start <= self.end <= len
    }

    /// The bytes of `s` that the span covers.
    pub open spec fn text(self, s: Seq<u8>) -> Seq<u8> {
        s.subrange(self.start as int, self.end as int)
    }
}

/// A JSON value. Numbers and strings are spans of the buffer they were
/// parsed from: a number's whole text, a string's text between its quotes
/// with escape sequences left as written. Object keys are unique by text.
#[derive(Debug)]
pub enum JsonValue {
    Null,
    Bool(bool),
    Number(Span),
    Str(Span),
    Array(Vec<JsonValue>),
    Object(Vec<(Span, JsonValue)>),
}

/// The model of a `JsonValue`: the same tree, with sequences for children.
pub enum Json {
    Null,
    Bool(bool),
    Number(Span),
    Str(Span),
    Array(Seq<Json>),
    Object(Seq<(Span, Json)>),
}

impl JsonValue {
    pub open spec fn model(&self) -> Json
        decreases self,
    {
        match self {
            JsonValue::Null => Json::Null,
            JsonValue::Bool(b) => Json::Bool(*b),
            JsonValue::Number(sp) => Json::Number(*sp),
            JsonValue::Str(sp) => Json::Str(*sp),
            JsonValue::Array(items) => Json::Array(
                Seq::new(
                    items.len() as nat,
                    |i: int|
                        if 0 <= i < items.len() {
                            items[i].model()
                        } else {
                            Json::Null
                        },
                ),
            ),
            JsonValue::Object(entries) => Json::Object(
                Seq::new(
                    entries.len() as nat,
                    |i: int|
                        if 0 <= i < entries.len() {
                            (entries[i].0, entries[i].1.model())
                        } else {
                            (Span { start: 0, end: 0 }, Json::Null)
                        },
                ),
            ),
        }
    }
}

/// The models of a sequence of values.
pub open spec fn models(items: Seq<JsonValue>) -> Seq<Json> {
    Seq::new(items.len(), |i: int| items[i].model())
}

/// The models of a sequence of object entries.
pub open spec fn entry_models(entries: Seq<(Span, JsonValue)>) -> Seq<(Span, Json)> {
    Seq::new(entries.len(), |i: int| (entries[i].0, entries[i].1.model()))
}

pub proof fn lemma_array_model(items: Vec<JsonValue>)
    ensures
        JsonValue::Array(items).model() == Json::Array(models(items@)),
{
    let m = JsonValue::Array(items).model();
    assert(m is Array);
    assert(m->Array_0 =~= models(items@));
}

pub proof fn lemma_object_model(entries: Vec<(Span, JsonValue)>)
    ensures
        JsonValue::Object(entries).model() == Json::Object(entry_models(entries@)),
{
    let m = JsonValue::Object(entries).model();
    assert(m is Object);
    assert(m->Object_0 =~= entry_models(entries@));
}

} // verus!
