//! Documents written out as compact JSON text, and what parsing such text
//! gives back.

use vstd::prelude::*;
use crate::grammar::{entries_at, insert_entry, items_at, key_index, same_key, value_at, Outcome};
use crate::lexical::{
    at, body_len, false_word, int_part_len, is_ws, null_word, number_len, string_len, true_word,
    word_at, ws_run,
};
use crate::locality::{
    lemma_body_len_ext, lemma_body_len_shift, lemma_number_len_ext, lemma_number_len_shift,
};
use crate::parser::{parse_run, run_from, Run, MAX_DEPTH};
use crate::value::{Json, Span};

verus! {

broadcast use vstd::seq::group_seq_axioms;

/// A JSON document given by its texts: a number's digits as written, a
/// string's text between its quotes, an object's keys likewise.
pub enum Doc {
    Null,
    Bool(bool),
    Num(Seq<u8>),
    Str(Seq<u8>),
    Arr(Seq<Doc>),
    Obj(Seq<(Seq<u8>, Doc)>),
}

/// The compact text of a document: no whitespace, commas between
/// elements, a colon after each key.
pub open spec fn render(d: Doc) -> Seq<u8>
    decreases d,
{
    match d {
        Doc::Null => null_word(),
        Doc::Bool(b) => if b {
            true_word()
        } else {
            false_word()
        },
        Doc::Num(t) => t,
        Doc::Str(t) => quoted(t),
        Doc::Arr(items) => seq![0x5bu8] + render_items(items) + seq![0x5du8],
        Doc::Obj(entries) => seq![0x7bu8] + render_entries(entries) + seq![0x7du8],
    }
}

pub open spec fn quoted(t: Seq<u8>) -> Seq<u8> {
    seq![0x22u8] + t + seq![0x22u8]
}

pub open spec fn render_items(items: Seq<Doc>) -> Seq<u8>
    decreases items,
{
    if items.len() == 0 {
        Seq::empty()
    } else if items.len() == 1 {
        render(items[0])
    } else {
        render(items[0]) + seq![0x2cu8] + render_items(items.drop_first())
    }
}

pub open spec fn render_entry(e: (Seq<u8>, Doc)) -> Seq<u8>
    decreases e,
{
    quoted(e.0) + seq![0x3au8] + render(e.1)
}

pub open spec fn render_entries(entries: Seq<(Seq<u8>, Doc)>) -> Seq<u8>
    decreases entries,
{
    if entries.len() == 0 {
        Seq::empty()
    } else if entries.len() == 1 {
        render_entry(entries[0])
    } else {
        render_entry(entries[0]) + seq![0x2cu8] + render_entries(entries.drop_first())
    }
}

/// A string text that reads to its end before a closing quote.
pub open spec fn is_string_text(t: Seq<u8>) -> bool {
    body_len(t + seq![0x22u8], 0) == t.len()
}

/// Every number is a whole number token, every string and key a whole
/// string text, the keys of each object differ, and arrays and objects
/// nest at most `k` deep.
pub open spec fn well_formed(d: Doc, k: nat) -> bool
    decreases d,
{
    match d {
        Doc::Num(t) => t.len() > 0 && number_len(t, 0) == t.len(),
        Doc::Str(t) => is_string_text(t),
        Doc::Arr(items) => k > 0 && forall|i: int|
            0 <= i < items.len() ==> well_formed(#[trigger] items[i], (k - 1) as nat),
        Doc::Obj(entries) => k > 0 && (forall|i: int|
            0 <= i < entries.len() ==> is_string_text(#[trigger] entries[i].0) && well_formed(
                entries[i].1,
                (k - 1) as nat,
            )) && (forall|i: int, j: int|
            0 <= i < j < entries.len() ==> #[trigger] entries[i].0 != #[trigger] entries[j].0),
        _ => true,
    }
}

/// The value `j`, parsed from `s`, is the document `d`: spans read as the
/// document's texts, in the same shape and order.
pub open spec fn denotes(s: Seq<u8>, j: Json, d: Doc) -> bool
    decreases d,
{
    match d {
        Doc::Null => j == Json::Null,
        Doc::Bool(b) => j == Json::Bool(b),
        Doc::Num(t) => j matches Json::Number(sp) && sp.within(s.len()) && sp.text(s) == t,
        Doc::Str(t) => j matches Json::Str(sp) && sp.within(s.len()) && sp.text(s) == t,
        Doc::Arr(items) => j matches Json::Array(js) && js.len() == items.len() && forall|i: int|
            0 <= i < items.len() ==> denotes(s, #[trigger] js[i], items[i]),
        Doc::Obj(entries) => j matches Json::Object(es) && es.len() == entries.len() && forall|
            i: int,
        |
            0 <= i < entries.len() ==> (#[trigger] es[i]).0.within(s.len()) && es[i].0.text(s)
                == entries[i].0 && denotes(s, es[i].1, entries[i].1),
    }
}

/// The bytes of `t` stand in `s` from `p` on.
pub open spec fn holds_at(s: Seq<u8>, p: int, t: Seq<u8>) -> bool {
    0 <= p && p + t.len() <= s.len() && s.subrange(p, p + t.len()) == t
}

/// Position `e` ends the buffer or holds a comma or closing bracket.
pub open spec fn ends_value(s: Seq<u8>, e: int) -> bool {
    e == s.len() || (0 <= e < s.len() && (s[e] == 0x2c || s[e] == 0x5d || s[e] == 0x7d))
}

proof fn lemma_holds_split(s: Seq<u8>, p: int, x: Seq<u8>, y: Seq<u8>)
    requires
        holds_at(s, p, x + y),
    ensures
        holds_at(s, p, x),
        holds_at(s, p + x.len(), y),
{
    let whole = s.subrange(p, p + x.len() + y.len());
    assert(whole == x + y);
    assert(s.subrange(p, p + x.len()) =~= whole.subrange(0, x.len() as int));
    assert(whole.subrange(0, x.len() as int) =~= x);
    assert(s.subrange(p + x.len(), p + x.len() + y.len()) =~= whole.subrange(
        x.len() as int,
        whole.len() as int,
    ));
    assert(whole.subrange(x.len() as int, whole.len() as int) =~= y);
}

proof fn lemma_holds_byte(s: Seq<u8>, p: int, t: Seq<u8>, i: int)
    requires
        holds_at(s, p, t),
        0 <= i < t.len(),
    ensures
        s[p + i] == t[i],
{
    assert(s.subrange(p, p + t.len())[i] == s[p + i]);
}

proof fn lemma_holds_all(s: Seq<u8>, p: int, t: Seq<u8>)
    requires
        holds_at(s, p, t),
    ensures
        forall|i: int| 0 <= i < t.len() ==> s[p + i] == #[trigger] t[i],
{
    assert forall|i: int| 0 <= i < t.len() implies s[p + i] == #[trigger] t[i] by {
        lemma_holds_byte(s, p, t, i);
    }
}

proof fn lemma_render_first(d: Doc, k: nat)
    requires
        well_formed(d, k),
    ensures
        render(d).len() > 0,
        !is_ws(render(d)[0]),
        render(d)[0] != 0x5d,
        render(d)[0] != 0x7d,
{
    match d {
        Doc::Num(t) => {
            assert(at(t, 0, 0x2d) || int_part_len(t, 0) > 0);
        },
        Doc::Arr(items) => {
            assert(render(d)[0] == 0x5b);
        },
        Doc::Obj(entries) => {
            assert(render(d)[0] == 0x7b);
        },
        Doc::Str(t) => {
            assert(render(d)[0] == 0x22);
        },
        _ => {},
    }
}

proof fn lemma_number_at(s: Seq<u8>, p: int, t: Seq<u8>)
    requires
        t.len() > 0,
        number_len(t, 0) == t.len(),
        holds_at(s, p, t),
        ends_value(s, p + t.len()),
    ensures
        number_len(s, p) == t.len(),
{
    let a = s.subrange(0, p);
    let y = s.subrange(p + t.len(), s.len() as int);
    assert(s =~= a + (t + y));
    lemma_number_len_shift(a, t + y, 0);
    lemma_number_len_ext(t, y);
}

proof fn lemma_string_at(s: Seq<u8>, p: int, t: Seq<u8>)
    requires
        is_string_text(t),
        holds_at(s, p, quoted(t)),
    ensures
        string_len(s, p) == t.len() + 2,
        at(s, p, 0x22),
{
    let q = seq![0x22u8];
    let a = s.subrange(0, p + 1);
    let y = s.subrange(p + 2 + t.len(), s.len() as int);
    lemma_holds_all(s, p, quoted(t));
    assert(quoted(t).len() == t.len() + 2);
    assert(quoted(t)[0] == 0x22);
    assert(quoted(t)[t.len() + 1 as int] == 0x22);
    assert forall|i: int| 0 <= i < t.len() implies s[p + 1 + i] == #[trigger] t[i] by {
        assert(quoted(t)[1 + i] == t[i]);
    }
    assert(a.len() == p + 1);
    assert(y.len() == s.len() - (p + 2 + t.len()));
    assert forall|i: int| 0 <= i < s.len() implies #[trigger] s[i] == (a + ((t + q) + y))[i] by {
        if p + 1 <= i < p + 1 + t.len() {
            assert(s[p + 1 + (i - p - 1)] == t[i - p - 1]);
        }
    }
    assert(s =~= a + ((t + q) + y));
    lemma_body_len_shift(a, (t + q) + y, 0);
    assert((t + q)[t.len() as int] == 0x22);
    lemma_body_len_ext(t + q, y, 0);
}

proof fn lemma_key_absent(s: Seq<u8>, acc: Seq<(Span, Json)>, k: Span)
    requires
        forall|a: int| 0 <= a < acc.len() ==> !same_key(s, (#[trigger] acc[a]).0, k),
    ensures
        key_index(s, acc, k) == -1,
    decreases acc.len(),
{
    if acc.len() > 0 {
        assert(acc.last() == acc[acc.len() - 1]);
        lemma_key_absent(s, acc.drop_last(), k);
    }
}

#[verifier::rlimit(40)]
proof fn lemma_value_render(s: Seq<u8>, p: int, d: Doc, k: nat)
    requires
        s.len() <= usize::MAX,
        well_formed(d, k),
        holds_at(s, p, render(d)),
        ends_value(s, p + render(d).len()),
    ensures
        value_at(s, p, k) matches Outcome::Parsed(j, e) && e == p + render(d).len() && denotes(
            s,
            j,
            d,
        ),
    decreases d,
{
    let r = render(d);
    lemma_render_first(d, k);
    lemma_holds_byte(s, p, r, 0);
    match d {
        Doc::Null => {
            assert(r == null_word());
            assert(s[p] == 0x6e);
            assert(number_len(s, p) == 0);
            assert(string_len(s, p) == 0);
            assert(s.subrange(p, p + 4)[0] == s[p]);
            assert(!word_at(s, p, true_word()));
            if p + 5 <= s.len() {
                assert(s.subrange(p, p + 5)[0] == s[p]);
            }
            assert(!word_at(s, p, false_word()));
        },
        Doc::Bool(b) => {
            if !b {
                assert(s.subrange(p, p + 4)[0] == s[p]);
                assert(!word_at(s, p, true_word()));
            }
        },
        Doc::Num(t) => {
            lemma_number_at(s, p, t);
        },
        Doc::Str(t) => {
            lemma_string_at(s, p, t);
            assert(s.subrange(p + 1, p + 1 + t.len()) =~= r.subrange(1, 1 + t.len() as int));
            assert(r.subrange(1, 1 + t.len() as int) =~= t);
        },
        Doc::Arr(items) => {
            let inner = render_items(items);
            assert(r == seq![0x5bu8] + inner + seq![0x5du8]);
            lemma_holds_split(s, p, seq![0x5bu8] + inner, seq![0x5du8]);
            lemma_holds_split(s, p, seq![0x5bu8], inner);
            lemma_holds_byte(s, p + 1 + inner.len(), seq![0x5du8], 0);
            if items.len() == 0 {
                assert(ws_run(s, p + 1) == 0);
            } else {
                lemma_items_first(items, (k - 1) as nat);
                lemma_holds_byte(s, p + 1, inner, 0);
                assert(ws_run(s, p + 1) == 0);
                lemma_items_render(s, p + 1, items, (k - 1) as nat, Seq::empty());
                let j = value_at(s, p, k)->Parsed_0;
                let js = j->Array_0;
                assert forall|i: int| 0 <= i < items.len() implies denotes(
                    s,
                    #[trigger] js[i],
                    items[i],
                ) by {
                    assert(js[0 + i] == js[i]);
                }
            }
        },
        Doc::Obj(entries) => {
            let inner = render_entries(entries);
            assert(r == seq![0x7bu8] + inner + seq![0x7du8]);
            lemma_holds_split(s, p, seq![0x7bu8] + inner, seq![0x7du8]);
            lemma_holds_split(s, p, seq![0x7bu8], inner);
            lemma_holds_byte(s, p + 1 + inner.len(), seq![0x7du8], 0);
            if entries.len() == 0 {
                assert(ws_run(s, p + 1) == 0);
            } else {
                lemma_entries_first(entries);
                lemma_holds_byte(s, p + 1, inner, 0);
                assert(ws_run(s, p + 1) == 0);
                lemma_entries_render(s, p + 1, entries, (k - 1) as nat, Seq::empty());
                let j = value_at(s, p, k)->Parsed_0;
                let es = j->Object_0;
                assert forall|i: int| 0 <= i < entries.len() implies (#[trigger] es[i]).0.within(
                    s.len(),
                ) && es[i].0.text(s) == entries[i].0 && denotes(s, es[i].1, entries[i].1) by {
                    assert(es[0 + i] == es[i]);
                }
            }
        },
    }
}

proof fn lemma_items_first(items: Seq<Doc>, k: nat)
    requires
        items.len() > 0,
        well_formed(items[0], k),
    ensures
        render_items(items).len() > 0,
        render_items(items)[0] == render(items[0])[0],
        !is_ws(render_items(items)[0]),
        render_items(items)[0] != 0x5d,
{
    lemma_render_first(items[0], k);
    if items.len() > 1 {
        assert((render(items[0]) + seq![0x2cu8] + render_items(items.drop_first()))[0] == render(
            items[0],
        )[0]);
    }
}

proof fn lemma_entries_first(entries: Seq<(Seq<u8>, Doc)>)
    requires
        entries.len() > 0,
    ensures
        render_entries(entries).len() > 0,
        render_entries(entries)[0] == 0x22,
{
    let e0 = render_entry(entries[0]);
    assert(e0[0] == 0x22);
    if entries.len() > 1 {
        assert((e0 + seq![0x2cu8] + render_entries(entries.drop_first()))[0] == e0[0]);
    }
}

#[verifier::rlimit(40)]
proof fn lemma_items_render(s: Seq<u8>, q: int, items: Seq<Doc>, k: nat, acc: Seq<Json>)
    requires
        s.len() <= usize::MAX,
        items.len() > 0,
        forall|i: int| 0 <= i < items.len() ==> well_formed(#[trigger] items[i], k),
        holds_at(s, q, render_items(items)),
        at(s, q + render_items(items).len(), 0x5d),
    ensures
        items_at(s, q, k, acc) matches Outcome::Parsed(Json::Array(js), e) && e == q
            + render_items(items).len() + 1 && js.len() == acc.len() + items.len() && js.subrange(
            0,
            acc.len() as int,
        ) == acc && forall|i: int|
            0 <= i < items.len() ==> denotes(s, #[trigger] js[acc.len() + i], items[i]),
    decreases items,
{
    let r0 = render(items[0]);
    assert(well_formed(items[0], k));
    if items.len() == 1 {
        lemma_value_render(s, q, items[0], k);
        let v = value_at(s, q, k)->Parsed_0;
        let e = q + r0.len();
        assert(ws_run(s, e) == 0);
        let js = acc.push(v);
        assert(js.subrange(0, acc.len() as int) =~= acc);
        assert(js[acc.len() as int] == v);
    } else {
        let rest = items.drop_first();
        let ri = render_items(rest);
        assert(render_items(items) == r0 + seq![0x2cu8] + ri);
        lemma_holds_split(s, q, r0 + seq![0x2cu8], ri);
        lemma_holds_split(s, q, r0, seq![0x2cu8]);
        lemma_holds_byte(s, q + r0.len(), seq![0x2cu8], 0);
        lemma_value_render(s, q, items[0], k);
        let v = value_at(s, q, k)->Parsed_0;
        let e = q + r0.len();
        assert(ws_run(s, e) == 0);
        assert(rest[0] == items[1]);
        assert(forall|i: int| 0 <= i < rest.len() ==> #[trigger] rest[i] == items[i + 1]);
        lemma_items_first(rest, k);
        lemma_holds_byte(s, e + 1, ri, 0);
        assert(ws_run(s, e + 1) == 0);
        lemma_items_render(s, e + 1, rest, k, acc.push(v));
        let js = items_at(s, e + 1, k, acc.push(v))->Parsed_0->Array_0;
        assert(js.subrange(0, acc.len() as int) =~= js.subrange(0, acc.len() + 1 as int).subrange(
            0,
            acc.len() as int,
        ));
        assert(js.subrange(0, acc.len() + 1 as int)[acc.len() as int] == js[acc.len() as int]);
        assert forall|i: int| 0 <= i < items.len() implies denotes(
            s,
            #[trigger] js[acc.len() + i],
            items[i],
        ) by {
            if i > 0 {
                assert(js[(acc.len() + 1) + (i - 1)] == js[acc.len() + i]);
            }
        }
    }
}

#[verifier::rlimit(40)]
proof fn lemma_entries_render(
    s: Seq<u8>,
    q: int,
    entries: Seq<(Seq<u8>, Doc)>,
    k: nat,
    acc: Seq<(Span, Json)>,
)
    requires
        s.len() <= usize::MAX,
        entries.len() > 0,
        forall|i: int|
            0 <= i < entries.len() ==> is_string_text(#[trigger] entries[i].0) && well_formed(
                entries[i].1,
                k,
            ),
        forall|i: int, j: int|
            0 <= i < j < entries.len() ==> #[trigger] entries[i].0 != #[trigger] entries[j].0,
        forall|a: int|
            0 <= a < acc.len() ==> (#[trigger] acc[a]).0.within(s.len()) && forall|i: int|
                0 <= i < entries.len() ==> acc[a].0.text(s) != (#[trigger] entries[i]).0,
        holds_at(s, q, render_entries(entries)),
        at(s, q + render_entries(entries).len(), 0x7d),
    ensures
        entries_at(s, q, k, acc) matches Outcome::Parsed(Json::Object(es), e) && e == q
            + render_entries(entries).len() + 1 && es.len() == acc.len() + entries.len()
            && es.subrange(0, acc.len() as int) == acc && forall|i: int|
            0 <= i < entries.len() ==> (#[trigger] es[acc.len() + i]).0.within(s.len()) && es[acc.len()
                + i].0.text(s) == entries[i].0 && denotes(s, es[acc.len() + i].1, entries[i].1),
    decreases entries,
{
    let key = entries[0].0;
    let val = entries[0].1;
    assert(is_string_text(key) && well_formed(val, k));
    let r0 = render_entry(entries[0]);
    let n = key.len() + 2;
    let rv = render(val);
    assert(r0 == quoted(key) + seq![0x3au8] + rv);
    let tail: Seq<u8> = if entries.len() == 1 {
        Seq::empty()
    } else {
        seq![0x2cu8] + render_entries(entries.drop_first())
    };
    assert(render_entries(entries) =~= r0 + tail);
    lemma_holds_split(s, q, r0, tail);
    lemma_holds_split(s, q, quoted(key) + seq![0x3au8], rv);
    lemma_holds_split(s, q, quoted(key), seq![0x3au8]);
    lemma_string_at(s, q, key);
    let ks = Span { start: (q + 1) as usize, end: (q + n - 1) as usize };
    assert(s.subrange(q + 1, q + n - 1) =~= quoted(key).subrange(1, n - 1));
    assert(quoted(key).subrange(1, n - 1) =~= key);
    assert(ks.text(s) == key);
    let c = q + n;
    lemma_holds_byte(s, c, seq![0x3au8], 0);
    assert(ws_run(s, c) == 0);
    lemma_render_first(val, k);
    lemma_holds_byte(s, c + 1, rv, 0);
    assert(ws_run(s, c + 1) == 0);
    let e = c + 1 + rv.len();
    assert(e == q + r0.len());
    if entries.len() > 1 {
        lemma_holds_byte(s, e, tail, 0);
    }
    lemma_value_render(s, c + 1, val, k);
    let v = value_at(s, c + 1, k)->Parsed_0;
    assert(ws_run(s, e) == 0);
    assert forall|a: int| 0 <= a < acc.len() implies !same_key(s, (#[trigger] acc[a]).0, ks) by {
        assert(acc[a].0.text(s) != entries[0].0);
    }
    lemma_key_absent(s, acc, ks);
    let acc2 = acc.push((ks, v));
    assert(insert_entry(s, acc, ks, v) == acc2);
    if entries.len() == 1 {
        assert(acc2.subrange(0, acc.len() as int) =~= acc);
        assert(acc2[acc.len() as int] == (ks, v));
    } else {
        let rest = entries.drop_first();
        let rr = render_entries(rest);
        lemma_holds_split(s, e, seq![0x2cu8], rr);
        lemma_entries_first(rest);
        lemma_holds_byte(s, e + 1, rr, 0);
        assert(ws_run(s, e + 1) == 0);
        assert(forall|i: int| 0 <= i < rest.len() ==> #[trigger] rest[i] == entries[i + 1]);
        assert forall|a: int| 0 <= a < acc2.len() implies (#[trigger] acc2[a]).0.within(s.len())
            && forall|i: int| 0 <= i < rest.len() ==> acc2[a].0.text(s) != (#[trigger] rest[i]).0 by {
            if a < acc.len() {
                assert(acc2[a] == acc[a]);
                assert forall|i: int| 0 <= i < rest.len() implies acc2[a].0.text(s) != (
                #[trigger] rest[i]).0 by {
                    assert(rest[i] == entries[i + 1]);
                }
            } else {
                assert forall|i: int| 0 <= i < rest.len() implies acc2[a].0.text(s) != (
                #[trigger] rest[i]).0 by {
                    assert(rest[i] == entries[i + 1]);
                    assert(entries[0].0 != entries[i + 1].0);
                }
            }
        }
        lemma_entries_render(s, e + 1, rest, k, acc2);
        let es = entries_at(s, e + 1, k, acc2)->Parsed_0->Object_0;
        assert(es.subrange(0, acc.len() as int) =~= es.subrange(0, acc.len() + 1 as int).subrange(
            0,
            acc.len() as int,
        ));
        assert(es.subrange(0, acc.len() + 1 as int)[acc.len() as int] == es[acc.len() as int]);
        assert forall|i: int| 0 <= i < entries.len() implies (#[trigger] es[acc.len()
            + i]).0.within(s.len()) && es[acc.len() + i].0.text(s) == entries[i].0 && denotes(
            s,
            es[acc.len() + i].1,
            entries[i].1,
        ) by {
            if i > 0 {
                assert(es[(acc.len() + 1) + (i - 1)] == es[acc.len() + i]);
            }
        }
    }
}

/// A well-formed document, written out as compact text, parses back to a
/// value that is the document: the same shape, the same order, and spans
/// that read as the document's numbers, strings and keys.
#[verifier::rlimit(40)]
pub proof fn law_rendered_document_parses(d: Doc)
    requires
        well_formed(d, MAX_DEPTH as nat),
        render(d).len() <= usize::MAX,
    ensures
        parse_run(render(d)) matches Run::Done(j) && denotes(render(d), j, d),
{
    let s = render(d);
    assert(s.subrange(0, s.len() as int) =~= s);
    lemma_render_first(d, MAX_DEPTH as nat);
    lemma_value_render(s, 0, d, MAX_DEPTH as nat);
    assert(ws_run(s, 0) == 0);
    let j = value_at(s, 0, MAX_DEPTH as nat)->Parsed_0;
    assert(run_from(s, s.len() as int, Some(j)) == Run::Done(j));
    assert(run_from(s, 0, None) == run_from(s, s.len() as int, Some(j)));
}

} // verus!
