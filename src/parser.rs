//! The recursive parser that builds a value tree, proved to follow the
//! grammar exactly.

use vstd::prelude::*;
use vstd::string::StringSliceAdditionalSpecFns;
use crate::grammar::{entries_at, insert_entry, items_at, key_index, same_key, value_at, Outcome};
use crate::lexical::{
    false_word, keyword, null_word, number, preview, preview_of, skip_ws, string, true_word,
    ws_run,
};
use crate::value::{entry_models, lemma_array_model, lemma_object_model, models, Json, JsonValue, Span};

verus! {

/// Why the grammar stopped.
#[derive(Clone, Copy, Debug, PartialEq, Eq, Structural)]
pub enum Failure {
    /// No alternative matches at this position.
    Unexpected(usize),
    /// An array or object opening here would nest too deep.
    TooDeep(usize),
}

/// The failure that matches a grammar outcome other than a value.
pub open spec fn failure_of(o: Outcome) -> Failure {
    match o {
        Outcome::TooDeep(q) => Failure::TooDeep(q as usize),
        Outcome::Unexpected(q) => Failure::Unexpected(q as usize),
        Outcome::Parsed(_, e) => Failure::Unexpected(e as usize),
    }
}

/// `r` is what the grammar says of the value at `p`.
pub open spec fn follows(s: Seq<u8>, p: int, d: nat, r: Result<(JsonValue, usize), Failure>) -> bool {
    match value_at(s, p, d) {
        Outcome::Parsed(v, e) => r matches Ok((x, end)) && x.model() == v && end == e && p < e
            <= s.len(),
        other => r == Err::<(JsonValue, usize), Failure>(failure_of(other)),
    }
}

/// Whether the spans `a` and `b` cover the same bytes.
pub fn same_text(s: &[u8], a: Span, b: Span) -> (r: bool)
    requires
        a.within(s@.len()),
        b.within(s@.len()),
    ensures
        r == same_key(s@, a, b),
{
    if a.end - a.start != b.end - b.start {
        assert(a.text(s@).len() != b.text(s@).len());
        return false;
    }
    let n = a.end - a.start;
    let mut k: usize = 0;
    while k < n
        invariant
            n == a.end - a.start,
            n == b.end - b.start,
            a.within(s@.len()),
            b.within(s@.len()),
            0 <= k <= n,
            forall|m: int| 0 <= m < k ==> #[trigger] a.text(s@)[m] == b.text(s@)[m],
        decreases n - k,
    {
        if s[a.start + k] != s[b.start + k] {
            assert(a.text(s@)[k as int] != b.text(s@)[k as int]);
            return false;
        }
        k = k + 1;
    }
    assert(a.text(s@) =~= b.text(s@));
    true
}

/// Adds the entry `k: v` to an object's entries; an entry whose key has
/// the same text keeps its place and takes `v` as its value.
pub fn insert_entry_exec(s: &[u8], entries: &mut Vec<(Span, JsonValue)>, k: Span, v: JsonValue)
    requires
        k.within(s@.len()),
        forall|i: int| 0 <= i < old(entries)@.len() ==> (#[trigger] old(entries)@[i]).0.within(s@.len()),
    ensures
        entry_models(final(entries)@) == insert_entry(s@, entry_models(old(entries)@), k, v.model()),
        forall|i: int| 0 <= i < final(entries)@.len() ==> (#[trigger] final(entries)@[i]).0.within(s@.len()),
{
    let ghost es = entry_models(entries@);
    let mut i: usize = entries.len();
    assert(es.subrange(0, i as int) =~= es);
    while i > 0
        invariant
            i <= entries@.len(),
            k.within(s@.len()),
            entries@ == old(entries)@,
            es == entry_models(entries@),
            forall|j: int| 0 <= j < entries@.len() ==> (#[trigger] entries@[j]).0.within(s@.len()),
            key_index(s@, es, k) == key_index(s@, es.subrange(0, i as int), k),
        decreases i,
    {
        let key = entries[i - 1].0;
        assert(es.subrange(0, i as int).drop_last() =~= es.subrange(0, i - 1));
        if same_text(s, key, k) {
            assert(key_index(s@, es, k) == i - 1);
            entries.set(i - 1, (key, v));
            assert(entry_models(entries@) =~= es.update(i - 1, (es[i - 1].0, v.model())));
            return;
        }
        i = i - 1;
    }
    assert(es.subrange(0, 0) =~= Seq::<(Span, Json)>::empty());
    entries.push((k, v));
    assert(entry_models(entries@) =~= es.push((k, v.model())));
}

/// The value at `pos`, where arrays and objects may nest `depth` deep: the
/// value and the position after it, or why there is none.
pub fn parse_value(s: &[u8], pos: usize, depth: usize) -> (r: Result<(JsonValue, usize), Failure>)
    ensures
        follows(s@, pos as int, depth as nat, r),
    decreases depth, 1int,
{
    if pos >= s.len() {
        return Err(Failure::Unexpected(pos));
    }
    let b = s[pos];
    if b == 0x5b || b == 0x7b {
        if depth == 0 {
            return Err(Failure::TooDeep(pos));
        }
        if b == 0x5b {
            return parse_array(s, pos, depth);
        } else {
            return parse_object(s, pos, depth);
        }
    }
    if let Some(n) = number(s, pos) {
        return Ok((JsonValue::Number(Span { start: pos, end: pos + n }), pos + n));
    }
    if let Some(n) = string(s, pos) {
        return Ok((JsonValue::Str(Span { start: pos + 1, end: pos + n - 1 }), pos + n));
    }
    let t: [u8; 4] = [0x74, 0x72, 0x75, 0x65];
    let f: [u8; 5] = [0x66, 0x61, 0x6c, 0x73, 0x65];
    let z: [u8; 4] = [0x6e, 0x75, 0x6c, 0x6c];
    assert(t@ =~= true_word());
    assert(f@ =~= false_word());
    assert(z@ =~= null_word());
    if keyword(s, pos, &t) {
        Ok((JsonValue::Bool(true), pos + 4))
    } else if keyword(s, pos, &f) {
        Ok((JsonValue::Bool(false), pos + 5))
    } else if keyword(s, pos, &z) {
        Ok((JsonValue::Null, pos + 4))
    } else {
        Err(Failure::Unexpected(pos))
    }
}

#[verifier::rlimit(40)]
fn parse_array(s: &[u8], pos: usize, depth: usize) -> (r: Result<(JsonValue, usize), Failure>)
    requires
        pos < s@.len(),
        s@[pos as int] == 0x5b,
        depth > 0,
    ensures
        follows(s@, pos as int, depth as nat, r),
    decreases depth, 0int,
{
    let len = s.len();
    let q0 = pos + 1 + skip_ws(s, pos + 1);
    let mut items: Vec<JsonValue> = Vec::new();
    assert(models(items@) =~= Seq::<Json>::empty());
    if q0 < s.len() && s[q0] == 0x5d {
        proof {
            lemma_array_model(items);
        }
        return Ok((JsonValue::Array(items), q0 + 1));
    }
    let d = depth - 1;
    let mut q = q0;
    loop
        invariant
            pos < q <= s@.len(),
            len == s@.len(),
            d == depth - 1,
            value_at(s@, pos as int, depth as nat) == items_at(s@, q as int, d as nat, models(items@)),
        decreases s@.len() - q,
    {
        let r = parse_value(s, q, d);
        match r {
            Ok((v, e)) => {
                let e2 = e + skip_ws(s, e);
                let ghost acc = models(items@);
                let ghost vm = v.model();
                if e2 < s.len() && s[e2] == 0x2c {
                    let q2 = e2 + 1 + skip_ws(s, e2 + 1);
                    items.push(v);
                    assert(models(items@) =~= acc.push(vm));
                    q = q2;
                } else if e2 < s.len() && s[e2] == 0x5d {
                    items.push(v);
                    assert(models(items@) =~= acc.push(vm));
                    proof {
                        lemma_array_model(items);
                    }
                    return Ok((JsonValue::Array(items), e2 + 1));
                } else {
                    return Err(Failure::Unexpected(e2));
                }
            },
            Err(f) => {
                return Err(f);
            },
        }
    }
}

#[verifier::rlimit(40)]
fn parse_object(s: &[u8], pos: usize, depth: usize) -> (r: Result<(JsonValue, usize), Failure>)
    requires
        pos < s@.len(),
        s@[pos as int] == 0x7b,
        depth > 0,
    ensures
        follows(s@, pos as int, depth as nat, r),
    decreases depth, 0int,
{
    let len = s.len();
    let q0 = pos + 1 + skip_ws(s, pos + 1);
    let mut entries: Vec<(Span, JsonValue)> = Vec::new();
    assert(entry_models(entries@) =~= Seq::<(Span, Json)>::empty());
    if q0 < s.len() && s[q0] == 0x7d {
        proof {
            lemma_object_model(entries);
        }
        return Ok((JsonValue::Object(entries), q0 + 1));
    }
    let d = depth - 1;
    let mut q = q0;
    loop
        invariant
            pos < q <= s@.len(),
            len == s@.len(),
            d == depth - 1,
            value_at(s@, pos as int, depth as nat) == entries_at(
                s@,
                q as int,
                d as nat,
                entry_models(entries@),
            ),
            forall|i: int| 0 <= i < entries@.len() ==> (#[trigger] entries@[i]).0.within(s@.len()),
        decreases s@.len() - q,
    {
        let n = match string(s, q) {
            Some(n) => n,
            None => {
                return Err(Failure::Unexpected(q));
            },
        };
        let k = Span { start: q + 1, end: q + n - 1 };
        let c = q + n + skip_ws(s, q + n);
        if !(c < s.len() && s[c] == 0x3a) {
            return Err(Failure::Unexpected(c));
        }
        let vq = c + 1 + skip_ws(s, c + 1);
        let r = parse_value(s, vq, d);
        match r {
            Ok((v, e)) => {
                let e2 = e + skip_ws(s, e);
                insert_entry_exec(s, &mut entries, k, v);
                if e2 < s.len() && s[e2] == 0x2c {
                    q = e2 + 1 + skip_ws(s, e2 + 1);
                } else if e2 < s.len() && s[e2] == 0x7d {
                    proof {
                        lemma_object_model(entries);
                    }
                    return Ok((JsonValue::Object(entries), e2 + 1));
                } else {
                    return Err(Failure::Unexpected(e2));
                }
            },
            Err(f) => {
                return Err(f);
            },
        }
    }
}

/// How deep arrays and objects may nest in a parsed buffer.
pub const MAX_DEPTH: usize = 256;

/// How a run of the value driver over a buffer ends.
pub enum Run {
    /// The buffer holds values and whitespace only; the last value.
    Done(Json),
    /// No value or whitespace can be read; the position of the offending byte.
    Unexpected(int),
    /// Nesting beyond `MAX_DEPTH`; the position of the bracket.
    TooDeep(int),
    /// The buffer is empty or whitespace only.
    NoValue,
}

/// The value driver from position `p`, where `last` is the value read
/// most recently: whitespace is skipped, values are read one after
/// another, and the last one is kept.
pub open spec fn run_from(s: Seq<u8>, p: int, last: Option<Json>) -> Run
    decreases s.len() - p,
{
    if !(0 <= p < s.len()) {
        match last {
            Some(v) => Run::Done(v),
            None => Run::NoValue,
        }
    } else if ws_run(s, p) > 0 {
        if p + ws_run(s, p) <= s.len() {
            run_from(s, p + ws_run(s, p), last)
        } else {
            Run::Unexpected(p)
        }
    } else {
        match value_at(s, p, MAX_DEPTH as nat) {
            Outcome::Parsed(v, e) => if p < e <= s.len() {
                run_from(s, e, Some(v))
            } else {
                Run::Unexpected(p)
            },
            Outcome::Unexpected(q) => Run::Unexpected(q),
            Outcome::TooDeep(q) => Run::TooDeep(q),
        }
    }
}

/// How the value driver ends on a whole buffer.
pub open spec fn parse_run(s: Seq<u8>) -> Run {
    run_from(s, 0, None)
}

pub open spec fn model_of(v: Option<JsonValue>) -> Option<Json> {
    match v {
        Some(x) => Some(x.model()),
        None => None,
    }
}

/// Why a parse failed.
#[derive(Clone, Copy, Debug, PartialEq, Eq, Structural)]
pub enum ParseErrorKind {
    /// No grammar alternative matches where input remains.
    Unexpected,
    /// Arrays or objects nest deeper than `MAX_DEPTH`.
    TooDeep,
    /// The buffer holds no value.
    NoValue,
}

/// A failed parse: what went wrong, the byte offset where, and the first
/// bytes of the input from there.
#[derive(Debug)]
pub struct ParseError {
    pub kind: ParseErrorKind,
    pub pos: usize,
    pub preview: Vec<u8>,
}

/// The error reported for a run that ends in `kind` at `pos`.
pub open spec fn parse_error_is(
    s: Seq<u8>,
    r: Result<JsonValue, ParseError>,
    kind: ParseErrorKind,
    pos: usize,
) -> bool {
    r matches Err(e) && e.kind == kind && e.pos == pos && e.preview@ == preview_of(s, pos as int)
}

/// `r` reports the run `run` of the value driver over `s`.
pub open spec fn reports(s: Seq<u8>, run: Run, r: Result<JsonValue, ParseError>) -> bool {
    match run {
        Run::Done(v) => r matches Ok(x) && x.model() == v,
        Run::Unexpected(q) => parse_error_is(s, r, ParseErrorKind::Unexpected, q as usize),
        Run::TooDeep(q) => parse_error_is(s, r, ParseErrorKind::TooDeep, q as usize),
        Run::NoValue => parse_error_is(s, r, ParseErrorKind::NoValue, s.len() as usize),
    }
}

/// Parses a buffer of JSON text: values separated by whitespace, of which
/// the last is returned.
#[verifier::rlimit(40)]
pub fn parse(buffer: &str) -> (r: Result<JsonValue, ParseError>)
    ensures
        reports(buffer.spec_bytes(), parse_run(buffer.spec_bytes()), r),
{
    let s = buffer.as_bytes();
    let len = s.len();
    let mut p: usize = 0;
    let mut last: Option<JsonValue> = None;
    loop
        invariant
            p <= len,
            len == s@.len(),
            s@ == buffer.spec_bytes(),
            parse_run(s@) == run_from(s@, p as int, model_of(last)),
        decreases len - p,
    {
        if p >= len {
            return match last {
                Some(v) => Ok(v),
                None => Err(ParseError { kind: ParseErrorKind::NoValue, pos: len, preview: preview(s, len) }),
            };
        }
        let w = skip_ws(s, p);
        if w > 0 {
            p = p + w;
        } else {
            match parse_value(s, p, MAX_DEPTH) {
                Ok((v, e)) => {
                    last = Some(v);
                    p = e;
                },
                Err(Failure::Unexpected(q)) => {
                    return Err(ParseError { kind: ParseErrorKind::Unexpected, pos: q, preview: preview(s, q) });
                },
                Err(Failure::TooDeep(q)) => {
                    return Err(ParseError { kind: ParseErrorKind::TooDeep, pos: q, preview: preview(s, q) });
                },
            }
        }
    }
}

proof fn lemma_brackets_too_deep(s: Seq<u8>, p: int, d: nat)
    requires
        0 <= p,
        p + d < s.len(),
        forall|i: int| p <= i <= p + d ==> s[i] == 0x5b,
    ensures
        value_at(s, p, d) == Outcome::TooDeep(p + d),
    decreases d,
{
    if d > 0 {
        assert(s[p + 1] == 0x5b);
        assert(ws_run(s, p + 1) == 0);
        lemma_brackets_too_deep(s, p + 1, (d - 1) as nat);
    }
}

/// A buffer that opens arrays one inside another more than `MAX_DEPTH`
/// times is rejected with a depth error at the first bracket too many,
/// whatever follows: nesting never exhausts the parser.
pub proof fn law_deep_nesting_rejected(s: Seq<u8>)
    requires
        s.len() > MAX_DEPTH,
        forall|i: int| 0 <= i <= MAX_DEPTH ==> s[i] == 0x5b,
    ensures
        parse_run(s) == Run::TooDeep(MAX_DEPTH as int),
{
    lemma_brackets_too_deep(s, 0, MAX_DEPTH as nat);
    assert(ws_run(s, 0) == 0);
}

} // verus!
