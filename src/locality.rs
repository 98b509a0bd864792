//! Recognizers read forward only: what they find at a position depends on
//! the bytes from there on, and a token is not changed by what follows it
//! unless that could continue it.

use vstd::prelude::*;
use crate::lexical::{
    at, body_len, digit_run, escape_len, exponent_len, fraction_len, int_part_len, is_digit,
    is_ws, lemma_digit_run_bound, number_len, string_len, word_len, ws_run,
};

verus! {

pub proof fn lemma_ws_run_shift(a: Seq<u8>, b: Seq<u8>, k: int)
    requires
        0 <= k,
    ensures
        ws_run(a + b, a.len() + k) == ws_run(b, k),
    decreases b.len() - k,
{
    if k < b.len() {
        assert((a + b)[a.len() + k] == b[k]);
        lemma_ws_run_shift(a, b, k + 1);
    }
}

pub proof fn lemma_digit_run_shift(a: Seq<u8>, b: Seq<u8>, k: int)
    requires
        0 <= k,
    ensures
        digit_run(a + b, a.len() + k) == digit_run(b, k),
    decreases b.len() - k,
{
    if k < b.len() {
        assert((a + b)[a.len() + k] == b[k]);
        lemma_digit_run_shift(a, b, k + 1);
    }
}

#[verifier::rlimit(40)]
pub proof fn lemma_number_len_shift(a: Seq<u8>, b: Seq<u8>, k: int)
    requires
        0 <= k,
    ensures
        number_len(a + b, a.len() + k) == number_len(b, k),
{
    let s = a + b;
    let o = a.len() as int;
    assert forall|j: int| k <= j < b.len() implies s[o + j] == b[j] by {}
    let sign: int = if at(b, k, 0x2d) {
        1
    } else {
        0
    };
    let x = k + sign;
    lemma_digit_run_shift(a, b, x + 1);
    let i = int_part_len(b, x);
    assert(int_part_len(s, o + x) == i);
    let c = x + i;
    lemma_digit_run_shift(a, b, c + 1);
    let f = fraction_len(b, c);
    assert(fraction_len(s, o + c) == f);
    let e = c + f;
    lemma_digit_run_shift(a, b, e + 1);
    lemma_digit_run_shift(a, b, e + 2);
    assert(exponent_len(s, o + e) == exponent_len(b, e));
}

pub proof fn lemma_body_len_shift(a: Seq<u8>, b: Seq<u8>, k: int)
    requires
        0 <= k,
    ensures
        body_len(a + b, a.len() + k) == body_len(b, k),
    decreases b.len() - k,
{
    let s = a + b;
    let o = a.len() as int;
    if k < b.len() {
        assert forall|j: int| k <= j < b.len() implies s[o + j] == b[j] by {}
        assert(escape_len(s, o + k) == escape_len(b, k));
        if escape_len(b, k) > 0 {
            lemma_body_len_shift(a, b, k + escape_len(b, k));
        } else {
            lemma_body_len_shift(a, b, k + 1);
        }
    }
}

pub proof fn lemma_string_len_shift(a: Seq<u8>, b: Seq<u8>, k: int)
    requires
        0 <= k,
    ensures
        string_len(a + b, a.len() + k) == string_len(b, k),
{
    let s = a + b;
    let o = a.len() as int;
    lemma_body_len_shift(a, b, k + 1);
    let q = k + 1 + body_len(b, k + 1);
    assert(at(s, o + k, 0x22) == at(b, k, 0x22));
    assert(at(s, o + q, 0x22) == at(b, q, 0x22));
}

pub proof fn lemma_word_len_shift(a: Seq<u8>, b: Seq<u8>, k: int, w: Seq<u8>)
    requires
        0 <= k,
    ensures
        word_len(a + b, a.len() + k, w) == word_len(b, k, w),
{
    let s = a + b;
    let o = a.len() as int;
    if k + w.len() <= b.len() {
        assert(s.subrange(o + k, o + k + w.len()) =~= b.subrange(k, k + w.len()));
    }
}

/// A gap of whitespace before a byte that is not whitespace is one run.
pub proof fn lemma_ws_run_gap(g: Seq<u8>, rest: Seq<u8>, k: int)
    requires
        0 <= k <= g.len(),
        forall|i: int| 0 <= i < g.len() ==> is_ws(#[trigger] g[i]),
        rest.len() == 0 || !is_ws(rest[0]),
    ensures
        ws_run(g + rest, k) == g.len() - k,
    decreases g.len() - k,
{
    let s = g + rest;
    if k < g.len() {
        assert(s[k] == g[k]);
        lemma_ws_run_gap(g, rest, k + 1);
    } else if rest.len() > 0 {
        assert(s[k] == rest[0]);
    }
}

pub proof fn lemma_digit_run_ext(t: Seq<u8>, y: Seq<u8>, q: int)
    requires
        0 <= q <= t.len(),
        y.len() == 0 || !is_digit(y[0]),
    ensures
        digit_run(t + y, q) == digit_run(t, q),
    decreases t.len() - q,
{
    let s = t + y;
    if q < t.len() {
        assert(s[q] == t[q]);
        lemma_digit_run_ext(t, y, q + 1);
    } else if y.len() > 0 {
        assert(s[q] == y[0]);
    }
}

/// A number token is not lengthened by what follows it, as long as that
/// does not start with a digit, `.`, `e` or `E`.
#[verifier::rlimit(40)]
pub proof fn lemma_number_len_ext(t: Seq<u8>, y: Seq<u8>)
    requires
        t.len() > 0,
        number_len(t, 0) == t.len(),
        y.len() == 0 || !(is_digit(y[0]) || y[0] == 0x2e || y[0] == 0x65 || y[0] == 0x45),
    ensures
        number_len(t + y, 0) == t.len(),
{
    let s = t + y;
    let n = t.len() as int;
    assert forall|j: int| 0 <= j < n implies s[j] == t[j] by {}
    assert(y.len() > 0 ==> s[n] == y[0]);
    let sign: int = if at(t, 0, 0x2d) {
        1
    } else {
        0
    };
    let x = sign;
    assert(x < n);
    lemma_digit_run_bound(t, x + 1);
    lemma_digit_run_ext(t, y, x + 1);
    let i = int_part_len(t, x);
    assert(int_part_len(s, x) == i);
    let c = x + i;
    if c < n {
        lemma_digit_run_bound(t, c + 1);
        lemma_digit_run_ext(t, y, c + 1);
    }
    let f = fraction_len(t, c);
    assert(fraction_len(s, c) == f);
    let e = c + f;
    if e < n {
        lemma_digit_run_bound(t, e + 1);
        lemma_digit_run_bound(t, e + 2);
        if e + 1 < n {
            lemma_digit_run_ext(t, y, e + 1);
            lemma_digit_run_ext(t, y, e + 2);
        } else {
            lemma_digit_run_ext(t, y, e + 1);
        }
        assert(exponent_len(s, e) == exponent_len(t, e));
    } else {
        assert(exponent_len(s, e) == 0);
    }
}

/// A string body that stops at a quote inside `t` stops there in `t + y`
/// too.
pub proof fn lemma_body_len_ext(t: Seq<u8>, y: Seq<u8>, p: int)
    requires
        0 <= p,
        p + body_len(t, p) < t.len(),
        t[p + body_len(t, p)] == 0x22,
    ensures
        body_len(t + y, p) == body_len(t, p),
    decreases t.len() - p,
{
    let s = t + y;
    assert forall|j: int| 0 <= j < t.len() implies s[j] == t[j] by {}
    if body_len(t, p) > 0 {
        if escape_len(t, p) > 0 {
            assert(escape_len(s, p) == escape_len(t, p));
            lemma_body_len_ext(t, y, p + escape_len(t, p));
        } else {
            assert(escape_len(s, p) == 0);
            lemma_body_len_ext(t, y, p + 1);
        }
    } else {
        assert(escape_len(s, p) == 0);
    }
}

} // verus!
