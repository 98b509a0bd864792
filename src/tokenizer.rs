//! The token driver: reads whitespace, structural bytes, numbers, strings
//! and keywords one after another until the buffer ends or nothing fits.

use vstd::prelude::*;
use vstd::string::StringSliceAdditionalSpecFns;
use crate::lexical::{
    at, body_len, boundary, boundary_len, false_word, is_digit, is_ws, keyword,
    lemma_ws_run_bound, matched, null_word, number, number_len, preview, preview_of, string,
    string_len, true_word, whitespaces, word_at, word_len, ws_run,
};
use crate::locality::{
    lemma_body_len_ext, lemma_number_len_ext, lemma_number_len_shift, lemma_string_len_shift,
    lemma_word_len_shift, lemma_ws_run_gap, lemma_ws_run_shift,
};

verus! {

/// The length of the token at `p`: the first of whitespace, a structural
/// byte, a number, a string, `true`, `false` and `null` that matches; zero
/// where none does.
pub open spec fn token_len(s: Seq<u8>, p: int) -> nat {
    if ws_run(s, p) > 0 {
        ws_run(s, p)
    } else if boundary_len(s, p) > 0 {
        boundary_len(s, p)
    } else if number_len(s, p) > 0 {
        number_len(s, p)
    } else if string_len(s, p) > 0 {
        string_len(s, p)
    } else if word_len(s, p, true_word()) > 0 {
        word_len(s, p, true_word())
    } else if word_len(s, p, false_word()) > 0 {
        word_len(s, p, false_word())
    } else {
        word_len(s, p, null_word())
    }
}

/// Where the token driver stops when it starts at `p`: the end of the
/// buffer, or the first position where no token matches.
pub open spec fn lex_stop(s: Seq<u8>, p: int) -> int
    decreases s.len() - p,
{
    if 0 <= p < s.len() && token_len(s, p) > 0 && p + token_len(s, p) <= s.len() {
        lex_stop(s, p + token_len(s, p))
    } else {
        p
    }
}

/// The token at `pos`: its length, or `None`.
pub fn token(s: &[u8], pos: usize) -> (r: Option<usize>)
    ensures
        r == matched(token_len(s@, pos as int)),
        r is Some ==> pos + token_len(s@, pos as int) <= s@.len(),
{
    if pos < s.len() {
        proof {
            lemma_ws_run_bound(s@, pos as int);
        }
    }
    if let Some(n) = whitespaces(s, pos) {
        return Some(n);
    }
    if let Some(n) = boundary(s, pos) {
        return Some(n);
    }
    if let Some(n) = number(s, pos) {
        return Some(n);
    }
    if let Some(n) = string(s, pos) {
        return Some(n);
    }
    let t: [u8; 4] = [0x74, 0x72, 0x75, 0x65];
    let f: [u8; 5] = [0x66, 0x61, 0x6c, 0x73, 0x65];
    let z: [u8; 4] = [0x6e, 0x75, 0x6c, 0x6c];
    assert(t@ =~= true_word());
    assert(f@ =~= false_word());
    assert(z@ =~= null_word());
    if keyword(s, pos, &t) {
        Some(4)
    } else if keyword(s, pos, &f) {
        Some(5)
    } else if keyword(s, pos, &z) {
        Some(4)
    } else {
        None
    }
}

/// A failed tokenization: the byte offset where no token matches, and the
/// first bytes of the input from there.
#[derive(Debug)]
pub struct LexError {
    pub pos: usize,
    pub preview: Vec<u8>,
}

/// Reads the whole buffer as tokens. It succeeds exactly when the tokens
/// reach the end; otherwise the error gives where they stop.
pub fn tokenize(buffer: &str) -> (r: Result<(), LexError>)
    ensures
        r is Ok <==> lex_stop(buffer.spec_bytes(), 0) == buffer.spec_bytes().len(),
        r matches Err(e) ==> e.pos == lex_stop(buffer.spec_bytes(), 0) && e.preview@ == preview_of(
            buffer.spec_bytes(),
            e.pos as int,
        ),
{
    let s = buffer.as_bytes();
    let len = s.len();
    let mut p: usize = 0;
    while p < len
        invariant
            p <= len,
            len == s@.len(),
            s@ == buffer.spec_bytes(),
            lex_stop(s@, 0) == lex_stop(s@, p as int),
        decreases len - p,
    {
        match token(s, p) {
            Some(n) => {
                p = p + n;
            },
            None => {
                return Err(LexError { pos: p, preview: preview(s, p) });
            },
        }
    }
    Ok(())
}

proof fn lemma_token_len_shift(a: Seq<u8>, b: Seq<u8>, k: int)
    requires
        0 <= k,
    ensures
        token_len(a + b, a.len() + k) == token_len(b, k),
{
    if k < b.len() {
        assert((a + b)[a.len() + k] == b[k]);
    }
    lemma_ws_run_shift(a, b, k);
    lemma_number_len_shift(a, b, k);
    lemma_string_len_shift(a, b, k);
    lemma_word_len_shift(a, b, k, true_word());
    lemma_word_len_shift(a, b, k, false_word());
    lemma_word_len_shift(a, b, k, null_word());
}

proof fn lemma_lex_stop_shift(a: Seq<u8>, b: Seq<u8>, k: int)
    requires
        0 <= k,
    ensures
        lex_stop(a + b, a.len() + k) == a.len() + lex_stop(b, k),
    decreases b.len() - k,
{
    lemma_token_len_shift(a, b, k);
    if k < b.len() && token_len(b, k) > 0 && k + token_len(b, k) <= b.len() {
        lemma_lex_stop_shift(a, b, k + token_len(b, k));
    }
}

/// A token other than whitespace, as text of its own.
pub open spec fn is_token_text(t: Seq<u8>) -> bool {
    t.len() > 0 && !is_ws(t[0]) && token_len(t, 0) == t.len()
}

/// Text that starts like a number.
pub open spec fn is_number_text(t: Seq<u8>) -> bool {
    t.len() > 0 && (t[0] == 0x2d || is_digit(t[0]))
}

/// Whitespace only, possibly none.
pub open spec fn is_gap(g: Seq<u8>) -> bool {
    forall|i: int| 0 <= i < g.len() ==> is_ws(#[trigger] g[i])
}

/// The tokens with the gaps around and between them: `gaps[0]`,
/// `tokens[0]`, `gaps[1]`, and so on.
pub open spec fn laid_out(tokens: Seq<Seq<u8>>, gaps: Seq<Seq<u8>>) -> Seq<u8>
    decreases tokens.len(),
{
    if tokens.len() == 0 {
        if gaps.len() > 0 {
            gaps[0]
        } else {
            Seq::empty()
        }
    } else {
        gaps[0] + (tokens[0] + laid_out(tokens.drop_first(), gaps.drop_first()))
    }
}

proof fn lemma_token_first_byte(t: Seq<u8>)
    requires
        is_token_text(t),
    ensures
        !(t[0] == 0x2e || t[0] == 0x65 || t[0] == 0x45),
{
    if word_at(t, 0, true_word()) {
        assert(t.subrange(0, 4)[0] == t[0]);
    }
    if word_at(t, 0, false_word()) {
        assert(t.subrange(0, 5)[0] == t[0]);
    }
    if word_at(t, 0, null_word()) {
        assert(t.subrange(0, 4)[0] == t[0]);
    }
}

/// A token is read as itself when what follows cannot continue it.
#[verifier::rlimit(40)]
proof fn lemma_token_len_ext(t: Seq<u8>, y: Seq<u8>)
    requires
        is_token_text(t),
        y.len() == 0 || !(y[0] == 0x2e || y[0] == 0x65 || y[0] == 0x45),
        is_number_text(t) && y.len() > 0 ==> !is_digit(y[0]),
    ensures
        token_len(t + y, 0) == t.len(),
{
    let s = t + y;
    assert forall|j: int| 0 <= j < t.len() implies s[j] == t[j] by {}
    if boundary_len(t, 0) > 0 {
    } else if number_len(t, 0) > 0 {
        lemma_number_len_ext(t, y);
    } else if string_len(t, 0) > 0 {
        lemma_body_len_ext(t, y, 1);
        assert(at(s, 1 + body_len(t, 1) as int, 0x22));
    } else {
        assert(string_len(s, 0) == 0);
        assert(number_len(s, 0) == 0);
        if word_at(t, 0, true_word()) {
            assert(s.subrange(0, 4) =~= t.subrange(0, 4));
        } else if word_at(t, 0, false_word()) {
            assert(s.subrange(0, 5) =~= t.subrange(0, 5));
            assert(s.subrange(0, 4)[0] != true_word()[0]);
        } else {
            assert(word_at(t, 0, null_word()));
            assert(s.subrange(0, 4) =~= t.subrange(0, 4));
            assert(s.subrange(0, 4)[0] != true_word()[0]);
            if s.len() >= 5 {
                assert(s.subrange(0, 5)[0] != false_word()[0]);
            }
        }
    }
}

/// Tokens laid out with whitespace, or nothing, around and between them
/// are read to the end of the buffer, as long as no number is directly
/// followed by a token that starts with a digit (`1.5` then `0.5` would
/// read as `1.50` and leave `.5`, which no token matches).
#[verifier::rlimit(40)]
pub proof fn law_tokens_read_to_end(tokens: Seq<Seq<u8>>, gaps: Seq<Seq<u8>>)
    requires
        gaps.len() == tokens.len() + 1,
        forall|i: int| 0 <= i < tokens.len() ==> is_token_text(#[trigger] tokens[i]),
        forall|i: int| 0 <= i < gaps.len() ==> is_gap(#[trigger] gaps[i]),
        forall|i: int|
            0 < i < tokens.len() && is_number_text(tokens[i - 1]) && (#[trigger] gaps[i]).len()
                == 0 ==> !is_digit(tokens[i][0]),
    ensures
        lex_stop(laid_out(tokens, gaps), 0) == laid_out(tokens, gaps).len(),
    decreases tokens.len(),
{
    let b = laid_out(tokens, gaps);
    let g = gaps[0];
    assert(is_gap(g));
    if tokens.len() == 0 {
        lemma_ws_run_gap(g, Seq::empty(), 0);
        assert(g + Seq::<u8>::empty() =~= g);
        if g.len() > 0 {
            assert(lex_stop(g, g.len() as int) == g.len());
        }
    } else {
        let t = tokens[0];
        let rt = tokens.drop_first();
        let rg = gaps.drop_first();
        let r = laid_out(rt, rg);
        assert(is_token_text(t));
        assert forall|i: int| 0 <= i < rt.len() implies is_token_text(#[trigger] rt[i]) by {
            assert(rt[i] == tokens[i + 1]);
        }
        assert forall|i: int| 0 <= i < rg.len() implies is_gap(#[trigger] rg[i]) by {
            assert(rg[i] == gaps[i + 1]);
        }
        assert forall|i: int|
            0 < i < rt.len() && is_number_text(rt[i - 1]) && (#[trigger] rg[i]).len()
                == 0 implies !is_digit(rt[i][0]) by {
            assert(rg[i] == gaps[i + 1]);
            assert(rt[i] == tokens[i + 1]);
            assert(rt[i - 1] == tokens[i]);
        }
        law_tokens_read_to_end(rt, rg);
        let g1 = rg[0];
        assert(g1 == gaps[1]);
        assert(is_gap(g1));
        if rt.len() > 0 {
            assert(r == g1 + (rt[0] + laid_out(rt.drop_first(), rg.drop_first())));
            if g1.len() > 0 {
                assert(r[0] == g1[0]);
            } else {
                assert(rt[0] == tokens[1]);
                assert(is_token_text(rt[0]));
                lemma_token_first_byte(rt[0]);
                assert(r[0] == rt[0][0]);
                assert(is_number_text(tokens[0]) ==> !is_digit(tokens[1][0]));
            }
        } else {
            assert(r == g1);
            if g1.len() > 0 {
                assert(r[0] == g1[0]);
            }
        }
        lemma_token_len_ext(t, r);
        lemma_ws_run_gap(g, t + r, 0);
        assert((t + r)[0] == t[0]);
        lemma_token_len_shift(g, t + r, 0);
        assert(b =~= (g + t) + r);
        assert(b == g + (t + r));
        lemma_lex_stop_shift(g + t, r, 0);
        assert(lex_stop(b, (g + t).len() as int) == b.len());
        assert(lex_stop(b, g.len() as int) == b.len());
    }
}

} // verus!
