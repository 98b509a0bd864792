//! Lexical primitives: whitespace, numbers, strings, structural bytes and
//! keywords. Each recognizer looks at a byte buffer from a position and
//! reports how many bytes the token there covers.

use vstd::prelude::*;
use vstd::string::StringSliceAdditionalSpecFns;
use vstd::utf8::{
    encode_utf8_valid_utf8, is_char_boundary, length_of_first_scalar, pop_first_scalar,
    valid_first_scalar, valid_utf8,
};

verus! {

/// Space, tab, carriage return or line feed.
pub open spec fn is_ws(b: u8) -> bool {
    b == 0x20 || b == 0x09 || b == 0x0d || b == 0x0a
}

pub open spec fn is_digit(b: u8) -> bool {
    0x30 <= b <= 0x39
}

/// The length of the run of whitespace bytes that starts at `p`.
pub open spec fn ws_run(s: Seq<u8>, p: int) -> nat
    decreases s.len() - p,
{
    if 0 <= p < s.len() && is_ws(s[p]) {
        1 + ws_run(s, p + 1)
    } else {
        0
    }
}

/// The length of the run of decimal digits that starts at `p`.
pub open spec fn digit_run(s: Seq<u8>, p: int) -> nat
    decreases s.len() - p,
{
    if 0 <= p < s.len() && is_digit(s[p]) {
        1 + digit_run(s, p + 1)
    } else {
        0
    }
}

/// What a recognizer reports for a token of length `n`: nothing when no
/// token starts there (length zero).
pub open spec fn matched(n: nat) -> Option<usize> {
    if n > 0 {
        Some(n as usize)
    } else {
        None
    }
}

pub proof fn lemma_ws_run_bound(s: Seq<u8>, p: int)
    requires
        0 <= p <= s.len(),
    ensures
        p + ws_run(s, p) <= s.len(),
        !(p + ws_run(s, p) < s.len() && is_ws(s[p + ws_run(s, p)])),
    decreases s.len() - p,
{
    if p < s.len() && is_ws(s[p]) {
        lemma_ws_run_bound(s, p + 1);
    }
}

pub proof fn lemma_digit_run_bound(s: Seq<u8>, p: int)
    requires
        0 <= p <= s.len(),
    ensures
        p + digit_run(s, p) <= s.len(),
    decreases s.len() - p,
{
    if p < s.len() && is_digit(s[p]) {
        lemma_digit_run_bound(s, p + 1);
    }
}

/// Counts the whitespace bytes from `pos` on.
pub fn skip_ws(s: &[u8], pos: usize) -> (r: usize)
    requires
        pos <= s@.len(),
    ensures
        r == ws_run(s@, pos as int),
        pos + r <= s@.len(),
{
    let mut i: usize = pos;
    while i < s.len() && (s[i] == 0x20 || s[i] == 0x09 || s[i] == 0x0d || s[i] == 0x0a)
        invariant
            pos <= i <= s@.len(),
            ws_run(s@, pos as int) == (i - pos) + ws_run(s@, i as int),
        decreases s@.len() - i,
    {
        i = i + 1;
    }
    i - pos
}

/// Counts the decimal digits from `pos` on.
pub fn skip_digits(s: &[u8], pos: usize) -> (r: usize)
    requires
        pos <= s@.len(),
    ensures
        r == digit_run(s@, pos as int),
        pos + r <= s@.len(),
{
    let mut i: usize = pos;
    while i < s.len() && 0x30 <= s[i] && s[i] <= 0x39
        invariant
            pos <= i <= s@.len(),
            digit_run(s@, pos as int) == (i - pos) + digit_run(s@, i as int),
        decreases s@.len() - i,
    {
        i = i + 1;
    }
    i - pos
}

/// One or more whitespace bytes at `pos`: their count, or `None`.
pub fn whitespaces(s: &[u8], pos: usize) -> (r: Option<usize>)
    ensures
        r == matched(ws_run(s@, pos as int)),
{
    if pos > s.len() {
        return None;
    }
    let n = skip_ws(s, pos);
    if n > 0 {
        Some(n)
    } else {
        None
    }
}

/// The byte at `p` is `b`.
pub open spec fn at(s: Seq<u8>, p: int, b: u8) -> bool {
    0 <= p < s.len() && s[p] == b
}

/// The integer part of a number: `0`, or a digit 1 to 9 followed by digits.
pub open spec fn int_part_len(s: Seq<u8>, p: int) -> nat {
    if at(s, p, 0x30) {
        1
    } else if 0 <= p < s.len() && 0x31 <= s[p] <= 0x39 {
        1 + digit_run(s, p + 1)
    } else {
        0
    }
}

/// The fraction part: `.` and one or more digits, or nothing.
pub open spec fn fraction_len(s: Seq<u8>, p: int) -> nat {
    if at(s, p, 0x2e) && digit_run(s, p + 1) > 0 {
        1 + digit_run(s, p + 1)
    } else {
        0
    }
}

/// The exponent part: `e` or `E`, an optional sign, one or more digits;
/// or nothing.
pub open spec fn exponent_len(s: Seq<u8>, p: int) -> nat {
    if at(s, p, 0x65) || at(s, p, 0x45) {
        let sign: nat = if at(s, p + 1, 0x2b) || at(s, p + 1, 0x2d) {
            1
        } else {
            0
        };
        if digit_run(s, p + 1 + sign) > 0 {
            1 + sign + digit_run(s, p + 1 + sign)
        } else {
            0
        }
    } else {
        0
    }
}

/// The length of the number token at `p`: an optional `-`, the integer
/// part, then the optional fraction and exponent parts.
pub open spec fn number_len(s: Seq<u8>, p: int) -> nat {
    let sign: nat = if at(s, p, 0x2d) {
        1
    } else {
        0
    };
    let i = int_part_len(s, p + sign);
    if i == 0 {
        0
    } else {
        let f = fraction_len(s, p + sign + i);
        sign + i + f + exponent_len(s, p + sign + i + f)
    }
}

pub open spec fn is_hex(b: u8) -> bool {
    is_digit(b) || 0x41 <= b <= 0x46 || 0x61 <= b <= 0x66
}

/// The bytes that may follow a backslash on their own:
/// `" \ / b f n r t`.
pub open spec fn is_simple_escape(b: u8) -> bool {
    b == 0x22 || b == 0x5c || b == 0x2f || b == 0x62 || b == 0x66 || b == 0x6e || b == 0x72
        || b == 0x74
}

/// A byte that stands for itself inside a string: neither a quote nor a
/// backslash nor a control character. In UTF-8 text these are exactly the
/// bytes of the characters U+0020 to U+10FFFF other than `"` and `\`.
pub open spec fn is_unescaped(b: u8) -> bool {
    b != 0x22 && b != 0x5c && b >= 0x20
}

/// The length of the escape sequence at `p`: `\` and a simple escape, or
/// `\u` and four hex digits; zero where none starts.
pub open spec fn escape_len(s: Seq<u8>, p: int) -> nat {
    if at(s, p, 0x5c) && p + 1 < s.len() {
        if is_simple_escape(s[p + 1]) {
            2
        } else if s[p + 1] == 0x75 && p + 5 < s.len() && is_hex(s[p + 2]) && is_hex(s[p + 3])
            && is_hex(s[p + 4]) && is_hex(s[p + 5]) {
            6
        } else {
            0
        }
    } else {
        0
    }
}

/// The length of a string body from `p`: escape sequences and unescaped
/// bytes, as many as follow one another.
pub open spec fn body_len(s: Seq<u8>, p: int) -> nat
    decreases s.len() - p,
{
    if p < 0 || p >= s.len() {
        0
    } else if escape_len(s, p) > 0 {
        escape_len(s, p) + body_len(s, p + escape_len(s, p))
    } else if is_unescaped(s[p]) {
        1 + body_len(s, p + 1)
    } else {
        0
    }
}

/// The length of the string token at `p`, quotes included.
pub open spec fn string_len(s: Seq<u8>, p: int) -> nat {
    if at(s, p, 0x22) && at(s, p + 1 + body_len(s, p + 1), 0x22) {
        2 + body_len(s, p + 1)
    } else {
        0
    }
}

/// One of `[ ] { } : ,`.
pub open spec fn is_boundary(b: u8) -> bool {
    b == 0x5b || b == 0x5d || b == 0x7b || b == 0x7d || b == 0x3a || b == 0x2c
}

pub open spec fn boundary_len(s: Seq<u8>, p: int) -> nat {
    if 0 <= p < s.len() && is_boundary(s[p]) {
        1
    } else {
        0
    }
}

/// The bytes of `w` stand in `s` from `p` on.
pub open spec fn word_at(s: Seq<u8>, p: int, w: Seq<u8>) -> bool {
    0 <= p && p + w.len() <= s.len() && s.subrange(p, p + w.len()) == w
}

pub open spec fn true_word() -> Seq<u8> {
    seq![0x74u8, 0x72u8, 0x75u8, 0x65u8]
}

pub open spec fn false_word() -> Seq<u8> {
    seq![0x66u8, 0x61u8, 0x6cu8, 0x73u8, 0x65u8]
}

pub open spec fn null_word() -> Seq<u8> {
    seq![0x6eu8, 0x75u8, 0x6cu8, 0x6cu8]
}

/// The length of the keyword `w` at `p`, or zero.
pub open spec fn word_len(s: Seq<u8>, p: int, w: Seq<u8>) -> nat {
    if word_at(s, p, w) {
        w.len()
    } else {
        0
    }
}

fn int_part_at(s: &[u8], p: usize) -> (r: usize)
    requires
        p <= s@.len(),
    ensures
        r == int_part_len(s@, p as int),
        p + r <= s@.len(),
{
    if p < s.len() && s[p] == 0x30 {
        1
    } else if p < s.len() && 0x31 <= s[p] && s[p] <= 0x39 {
        1 + skip_digits(s, p + 1)
    } else {
        0
    }
}

fn fraction_at(s: &[u8], p: usize) -> (r: usize)
    requires
        p <= s@.len(),
    ensures
        r == fraction_len(s@, p as int),
        p + r <= s@.len(),
{
    if p < s.len() && s[p] == 0x2e {
        let d = skip_digits(s, p + 1);
        if d > 0 {
            return 1 + d;
        }
    }
    0
}

fn exponent_at(s: &[u8], p: usize) -> (r: usize)
    requires
        p <= s@.len(),
    ensures
        r == exponent_len(s@, p as int),
        p + r <= s@.len(),
{
    if p < s.len() && (s[p] == 0x65 || s[p] == 0x45) {
        let sign: usize = if p + 1 < s.len() && (s[p + 1] == 0x2b || s[p + 1] == 0x2d) {
            1
        } else {
            0
        };
        let d = skip_digits(s, p + 1 + sign);
        if d > 0 {
            return 1 + sign + d;
        }
    }
    0
}

/// The number token at `pos`: its length, or `None`.
pub fn number(s: &[u8], pos: usize) -> (r: Option<usize>)
    ensures
        r == matched(number_len(s@, pos as int)),
        r is Some ==> pos + number_len(s@, pos as int) <= s@.len(),
{
    if pos >= s.len() {
        return None;
    }
    let sign: usize = if s[pos] == 0x2d {
        1
    } else {
        0
    };
    let i = int_part_at(s, pos + sign);
    if i == 0 {
        return None;
    }
    let f = fraction_at(s, pos + sign + i);
    let e = exponent_at(s, pos + sign + i + f);
    Some(sign + i + f + e)
}

/// The escape sequence at `pos`: its length, or zero.
fn escape_at(s: &[u8], pos: usize) -> (r: usize)
    requires
        pos < s@.len(),
    ensures
        r == escape_len(s@, pos as int),
{
    if s[pos] != 0x5c || pos + 1 >= s.len() {
        return 0;
    }
    let c = s[pos + 1];
    if c == 0x22 || c == 0x5c || c == 0x2f || c == 0x62 || c == 0x66 || c == 0x6e || c == 0x72
        || c == 0x74 {
        2
    } else if c == 0x75 && s.len() - pos > 5 && hex(s[pos + 2]) && hex(s[pos + 3]) && hex(
        s[pos + 4],
    ) && hex(s[pos + 5]) {
        6
    } else {
        0
    }
}

fn hex(b: u8) -> (r: bool)
    ensures
        r == is_hex(b),
{
    (0x30 <= b && b <= 0x39) || (0x41 <= b && b <= 0x46) || (0x61 <= b && b <= 0x66)
}

/// The string token at `pos`: its length, quotes included, or `None`.
pub fn string(s: &[u8], pos: usize) -> (r: Option<usize>)
    ensures
        r == matched(string_len(s@, pos as int)),
        r is Some ==> pos + string_len(s@, pos as int) <= s@.len(),
{
    if pos >= s.len() || s[pos] != 0x22 {
        return None;
    }
    let start: usize = pos + 1;
    let mut i: usize = start;
    loop
        invariant
            start <= i <= s@.len(),
            body_len(s@, start as int) == (i - start) + body_len(s@, i as int),
        ensures
            start <= i <= s@.len(),
            body_len(s@, start as int) == (i - start),
        decreases s@.len() - i,
    {
        if i >= s.len() {
            break;
        }
        let e = escape_at(s, i);
        if e > 0 {
            i = i + e;
        } else if s[i] != 0x22 && s[i] != 0x5c && s[i] >= 0x20 {
            i = i + 1;
        } else {
            break;
        }
    }
    if i < s.len() && s[i] == 0x22 {
        Some(i + 1 - pos)
    } else {
        None
    }
}

/// One of the structural bytes `[ ] { } : ,` at `pos`.
pub fn boundary(s: &[u8], pos: usize) -> (r: Option<usize>)
    ensures
        r == matched(boundary_len(s@, pos as int)),
{
    if pos < s.len() {
        let b = s[pos];
        if b == 0x5b || b == 0x5d || b == 0x7b || b == 0x7d || b == 0x3a || b == 0x2c {
            return Some(1);
        }
    }
    None
}

/// Whether the bytes of `w` stand in `s` from `pos` on.
pub fn keyword(s: &[u8], pos: usize, w: &[u8]) -> (r: bool)
    ensures
        r == word_at(s@, pos as int, w@),
{
    if pos > s.len() || w.len() > s.len() - pos {
        return false;
    }
    let mut k: usize = 0;
    while k < w.len()
        invariant
            pos + w@.len() <= s@.len(),
            w@.len() == w.len(),
            s@.len() == s.len(),
            0 <= k <= w@.len(),
            forall|m: int| 0 <= m < k ==> s@[pos + m] == w@[m],
        decreases w@.len() - k,
    {
        if s[pos + k] != w[k] {
            assert(s@.subrange(pos as int, pos + w@.len())[k as int] != w@[k as int]);
            return false;
        }
        k = k + 1;
    }
    assert(s@.subrange(pos as int, pos + w@.len()) =~= w@);
    true
}

/// How many bytes of the unread rest an error report shows.
pub const PREVIEW_LEN: usize = 100;

/// The first bytes of the rest of `s` from `p`, at most `PREVIEW_LEN`.
pub open spec fn preview_of(s: Seq<u8>, p: int) -> Seq<u8> {
    if 0 <= p < s.len() {
        s.subrange(p, if p + PREVIEW_LEN < s.len() { p + PREVIEW_LEN } else { s.len() as int })
    } else {
        Seq::empty()
    }
}

/// A copy of the first bytes of the rest of `s` from `pos`.
pub fn preview(s: &[u8], pos: usize) -> (r: Vec<u8>)
    ensures
        r@ == preview_of(s@, pos as int),
{
    let mut out: Vec<u8> = Vec::new();
    let len = s.len();
    if pos >= len {
        return out;
    }
    let end: usize = if len - pos > PREVIEW_LEN {
        pos + PREVIEW_LEN
    } else {
        len
    };
    let mut i: usize = pos;
    while i < end
        invariant
            pos <= i <= end <= len,
            len == s@.len(),
            out@ == s@.subrange(pos as int, i as int),
        decreases end - i,
    {
        out.push(s[i]);
        assert(out@ =~= s@.subrange(pos as int, i + 1));
        i = i + 1;
    }
    out
}

/// In valid UTF-8, the position just after an ASCII byte starts a
/// character.
pub proof fn lemma_boundary_after_ascii(bytes: Seq<u8>, idx: int)
    requires
        valid_utf8(bytes),
        0 < idx <= bytes.len(),
        bytes[idx - 1] < 0x80,
    ensures
        is_char_boundary(bytes, idx),
    decreases bytes.len(),
{
    let l = length_of_first_scalar(bytes);
    let tail = pop_first_scalar(bytes);
    assert(valid_first_scalar(bytes));
    assert(valid_utf8(tail));
    if idx > l {
        assert(tail[idx - l - 1] == bytes[idx - 1]);
        lemma_boundary_after_ascii(tail, idx - l);
        assert(is_char_boundary(bytes, idx) == is_char_boundary(tail, idx - l));
    } else if idx < l {
        assert(false);
    } else {
        assert(is_char_boundary(tail, 0));
        assert(is_char_boundary(bytes, idx) == is_char_boundary(tail, idx - l));
    }
}

pub proof fn lemma_ws_run_last(s: Seq<u8>, p: int)
    requires
        ws_run(s, p) > 0,
    ensures
        is_ws(s[p + ws_run(s, p) - 1]),
    decreases s.len() - p,
{
    if ws_run(s, p + 1) > 0 {
        lemma_ws_run_last(s, p + 1);
    }
}

pub proof fn lemma_digit_run_last(s: Seq<u8>, p: int)
    requires
        digit_run(s, p) > 0,
    ensures
        is_digit(s[p + digit_run(s, p) - 1]),
    decreases s.len() - p,
{
    if digit_run(s, p + 1) > 0 {
        lemma_digit_run_last(s, p + 1);
    }
}

/// A number token ends in a digit.
pub proof fn lemma_number_last(s: Seq<u8>, p: int)
    requires
        number_len(s, p) > 0,
    ensures
        is_digit(s[p + number_len(s, p) - 1]),
{
    let sign: int = if at(s, p, 0x2d) {
        1
    } else {
        0
    };
    let a = p + sign;
    let i = int_part_len(s, a);
    let f = fraction_len(s, a + i);
    let c = a + i + f;
    if exponent_len(s, c) > 0 {
        let es: int = if at(s, c + 1, 0x2b) || at(s, c + 1, 0x2d) {
            1
        } else {
            0
        };
        lemma_digit_run_last(s, c + 1 + es);
    } else if f > 0 {
        lemma_digit_run_last(s, a + i + 1);
    } else if !at(s, a, 0x30) && digit_run(s, a + 1) > 0 {
        lemma_digit_run_last(s, a + 1);
    }
}

/// The rest of `i` after its first `n` bytes, where byte `n - 1` is ASCII.
fn rest_after(i: &str, n: usize) -> (r: &str)
    requires
        0 < n <= i.spec_bytes().len(),
        i.spec_bytes()[n - 1] < 0x80,
    ensures
        r.spec_bytes() == i.spec_bytes().subrange(n as int, i.spec_bytes().len() as int),
{
    proof {
        encode_utf8_valid_utf8(i@);
        lemma_boundary_after_ascii(i.spec_bytes(), n as int);
    }
    i.split_at(n).1
}

/// The rest of `i` once a token of length `n` at its start is read;
/// `None` where `n` is zero.
pub open spec fn rest_is(i: Seq<u8>, n: nat, r: Option<&str>) -> bool {
    if n > 0 {
        r matches Some(rest) && rest.spec_bytes() == i.subrange(n as int, i.len() as int)
    } else {
        r is None
    }
}

/// Whitespace at the start of `i`: the rest of `i` after it, or `None`.
pub fn whitespaces_nom(i: &str) -> (r: Option<&str>)
    ensures
        rest_is(i.spec_bytes(), ws_run(i.spec_bytes(), 0), r),
{
    let s = i.as_bytes();
    let len = s.len();
    if len == 0 {
        return None;
    }
    match whitespaces(s, 0) {
        Some(n) => {
            proof {
                lemma_ws_run_bound(s@, 0);
                lemma_ws_run_last(s@, 0);
            }
            Some(rest_after(i, n))
        },
        None => None,
    }
}

/// A number at the start of `i`: the rest of `i` after it, or `None`.
pub fn number_nom(i: &str) -> (r: Option<&str>)
    ensures
        rest_is(i.spec_bytes(), number_len(i.spec_bytes(), 0), r),
{
    let s = i.as_bytes();
    let len = s.len();
    if len == 0 {
        return None;
    }
    match number(s, 0) {
        Some(n) => {
            proof {
                lemma_number_last(s@, 0);
            }
            Some(rest_after(i, n))
        },
        None => None,
    }
}

/// A string at the start of `i`: the rest of `i` after it, or `None`.
pub fn string_nom(i: &str) -> (r: Option<&str>)
    ensures
        rest_is(i.spec_bytes(), string_len(i.spec_bytes(), 0), r),
{
    let s = i.as_bytes();
    let len = s.len();
    if len == 0 {
        return None;
    }
    match string(s, 0) {
        Some(n) => Some(rest_after(i, n)),
        None => None,
    }
}

} // verus!
