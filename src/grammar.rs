//! The value grammar: arrays, objects, numbers, strings and keywords,
//! nested to a bounded depth.

use vstd::prelude::*;
use crate::lexical::{
    at, false_word, null_word, number_len, string_len, true_word, word_at, ws_run,
};
use crate::value::{Json, Span};

verus! {

/// What the grammar makes of the text at a position.
pub enum Outcome {
    /// A value, and the position just after it.
    Parsed(Json, int),
    /// No alternative matches: the position of the offending byte.
    Unexpected(int),
    /// An array or object would nest deeper than allowed: the position of
    /// its opening bracket.
    TooDeep(int),
}

/// The position after the whitespace at `p`.
pub open spec fn skip(s: Seq<u8>, p: int) -> int {
    p + ws_run(s, p)
}

/// The bytes that the key span `k` covers are those of `j`.
pub open spec fn same_key(s: Seq<u8>, k: Span, j: Span) -> bool {
    k.text(s) == j.text(s)
}

/// The last entry of `entries` whose key reads as `k`, or -1.
pub open spec fn key_index(s: Seq<u8>, entries: Seq<(Span, Json)>, k: Span) -> int
    decreases entries.len(),
{
    if entries.len() == 0 {
        -1
    } else if same_key(s, entries.last().0, k) {
        entries.len() - 1
    } else {
        key_index(s, entries.drop_last(), k)
    }
}

/// Adds the entry `k: v`; where a key of the same text is there already,
/// its value becomes `v` instead.
pub open spec fn insert_entry(s: Seq<u8>, entries: Seq<(Span, Json)>, k: Span, v: Json) -> Seq<
    (Span, Json),
> {
    let i = key_index(s, entries, k);
    if i >= 0 {
        entries.update(i, (entries[i].0, v))
    } else {
        entries.push((k, v))
    }
}

/// The value at `p`, where arrays and objects may nest `d` deep. The
/// alternatives are tried in the order array, object, number, string,
/// `true`, `false`, `null`; their first bytes tell them apart.
pub open spec fn value_at(s: Seq<u8>, p: int, d: nat) -> Outcome
    decreases d, s.len() - p, 1int,
{
    if !(0 <= p < s.len()) {
        Outcome::Unexpected(p)
    } else if s[p] == 0x5b {
        if d == 0 {
            Outcome::TooDeep(p)
        } else {
            let q = skip(s, p + 1);
            if at(s, q, 0x5d) {
                Outcome::Parsed(Json::Array(seq![]), q + 1)
            } else {
                items_at(s, q, (d - 1) as nat, seq![])
            }
        }
    } else if s[p] == 0x7b {
        if d == 0 {
            Outcome::TooDeep(p)
        } else {
            let q = skip(s, p + 1);
            if at(s, q, 0x7d) {
                Outcome::Parsed(Json::Object(seq![]), q + 1)
            } else {
                entries_at(s, q, (d - 1) as nat, seq![])
            }
        }
    } else if number_len(s, p) > 0 {
        let e = p + number_len(s, p);
        Outcome::Parsed(Json::Number(Span { start: p as usize, end: e as usize }), e)
    } else if string_len(s, p) > 0 {
        let e = p + string_len(s, p);
        Outcome::Parsed(Json::Str(Span { start: (p + 1) as usize, end: (e - 1) as usize }), e)
    } else if word_at(s, p, true_word()) {
        Outcome::Parsed(Json::Bool(true), p + 4)
    } else if word_at(s, p, false_word()) {
        Outcome::Parsed(Json::Bool(false), p + 5)
    } else if word_at(s, p, null_word()) {
        Outcome::Parsed(Json::Null, p + 4)
    } else {
        Outcome::Unexpected(p)
    }
}

/// The rest of an array from the element at `q` on, after the elements
/// `acc`: elements separated by commas, whitespace around them, then `]`.
/// (Each element takes at least one byte, so the next one starts later.)
pub open spec fn items_at(s: Seq<u8>, q: int, d: nat, acc: Seq<Json>) -> Outcome
    decreases d, s.len() - q, 2int,
{
    match value_at(s, q, d) {
        Outcome::Parsed(v, e) => {
            let e2 = skip(s, e);
            if at(s, e2, 0x2c) {
                let q2 = skip(s, e2 + 1);
                if q < q2 <= s.len() {
                    items_at(s, q2, d, acc.push(v))
                } else {
                    Outcome::Unexpected(q2)
                }
            } else if at(s, e2, 0x5d) {
                Outcome::Parsed(Json::Array(acc.push(v)), e2 + 1)
            } else {
                Outcome::Unexpected(e2)
            }
        },
        other => other,
    }
}

/// The rest of an object from the entry at `q` on, after the entries
/// `acc`: `"key" : value` entries separated by commas, whitespace around
/// each part, then `}`. A key keeps the span of its text between quotes.
pub open spec fn entries_at(s: Seq<u8>, q: int, d: nat, acc: Seq<(Span, Json)>) -> Outcome
    decreases d, s.len() - q, 2int,
{
    let n = string_len(s, q);
    if n == 0 {
        Outcome::Unexpected(q)
    } else {
        let k = Span { start: (q + 1) as usize, end: (q + n - 1) as usize };
        let c = skip(s, q + n);
        if !at(s, c, 0x3a) {
            Outcome::Unexpected(c)
        } else {
            let vq = skip(s, c + 1);
            if !(q < vq <= s.len()) {
                Outcome::Unexpected(vq)
            } else {
                match value_at(s, vq, d) {
                    Outcome::Parsed(v, e) => {
                        let e2 = skip(s, e);
                        let acc2 = insert_entry(s, acc, k, v);
                        if at(s, e2, 0x2c) {
                            let q2 = skip(s, e2 + 1);
                            if q < q2 <= s.len() {
                                entries_at(s, q2, d, acc2)
                            } else {
                                Outcome::Unexpected(q2)
                            }
                        } else if at(s, e2, 0x7d) {
                            Outcome::Parsed(Json::Object(acc2), e2 + 1)
                        } else {
                            Outcome::Unexpected(e2)
                        }
                    },
                    other => other,
                }
            }
        }
    }
}

} // verus!
