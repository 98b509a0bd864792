use json_lex::lexical::{
    boundary, keyword, number, number_nom, preview, string, string_nom, whitespaces,
    whitespaces_nom, PREVIEW_LEN,
};
use json_lex::tokenizer::{token, tokenize};

#[test]
fn whitespace_run_is_counted() {
    assert_eq!(whitespaces(b" \t\r\nx", 0), Some(4));
    assert_eq!(whitespaces(b"x ", 0), None);
    assert_eq!(whitespaces(b"x  ", 1), Some(2));
    assert_eq!(whitespaces(b"", 0), None);
    assert_eq!(whitespaces(b" ", 5), None);
}

#[test]
fn whitespace_nom_returns_rest() {
    assert_eq!(whitespaces_nom("  \n a"), Some("a"));
    assert_eq!(whitespaces_nom("a "), None);
    assert_eq!(whitespaces_nom(""), None);
    assert_eq!(whitespaces_nom("\t"), Some(""));
}

#[test]
fn number_forms() {
    assert_eq!(number(b"-1.5e+2", 0), Some(7));
    assert_eq!(number(b"0", 0), Some(1));
    assert_eq!(number(b"0123", 0), Some(1));
    assert_eq!(number(b"120", 0), Some(3));
    assert_eq!(number(b"1.", 0), Some(1));
    assert_eq!(number(b"1.e5", 0), Some(1));
    assert_eq!(number(b"1e+", 0), Some(1));
    assert_eq!(number(b"1E5]", 0), Some(3));
    assert_eq!(number(b"-0.0E-05x", 0), Some(8));
    assert_eq!(number(b"-", 0), None);
    assert_eq!(number(b"-a", 0), None);
    assert_eq!(number(b".5", 0), None);
    assert_eq!(number(b"+1", 0), None);
    assert_eq!(number(b"[12", 1), Some(2));
}

#[test]
fn number_nom_returns_rest() {
    assert_eq!(number_nom("12.5,true"), Some(",true"));
    assert_eq!(number_nom("-7é"), Some("é"));
    assert_eq!(number_nom("x1"), None);
}

#[test]
fn string_forms() {
    assert_eq!(string(b"\"\"", 0), Some(2));
    assert_eq!(string(b"\"ab\" ", 0), Some(4));
    assert_eq!(string(br#""a\"b""#, 0), Some(6));
    assert_eq!(string(br#""\\\/\b\f\n\r\t""#, 0), Some(16));
    assert_eq!(string("\"\u{e9}x\"".as_bytes(), 0), Some(5));
    assert_eq!(string(br#""\u00g9""#, 0), None);
    assert_eq!(string(br#""\x""#, 0), None);
    assert_eq!(string(b"\"abc", 0), None);
    assert_eq!(string(b"\"a\nb\"", 0), None);
    assert_eq!(string("\"h\u{e9}llo\"".as_bytes(), 0), Some(8));
    assert_eq!(string(b"x\"a\"", 0), None);
}

#[test]
fn string_nom_returns_rest() {
    assert_eq!(string_nom("\"h\u{e9}llo\" rest"), Some(" rest"));
    assert_eq!(string_nom("\"\u{1f600}\"\u{1f600}"), Some("\u{1f600}"));
    assert_eq!(string_nom("\"open"), None);
}

#[test]
fn boundary_and_keywords() {
    for b in [b"[", b"]", b"{", b"}", b":", b","] {
        assert_eq!(boundary(b, 0), Some(1));
    }
    assert_eq!(boundary(b"x", 0), None);
    assert_eq!(boundary(b"[", 1), None);
    assert!(keyword(b"true", 0, b"true"));
    assert!(keyword(b"[null]", 1, b"null"));
    assert!(!keyword(b"tru", 0, b"true"));
    assert!(!keyword(b"fals", 0, b"false"));
    assert!(!keyword(b"x", 4, b"null"));
}

#[test]
fn token_alternation() {
    assert_eq!(token(b"  1", 0), Some(2));
    assert_eq!(token(b"[1]", 0), Some(1));
    assert_eq!(token(b"-12 ", 0), Some(3));
    assert_eq!(token(b"\"k\":", 0), Some(3));
    assert_eq!(token(b"true,", 0), Some(4));
    assert_eq!(token(b"false", 0), Some(5));
    assert_eq!(token(b"null", 0), Some(4));
    assert_eq!(token(b"nul", 0), None);
    assert_eq!(token(b"@", 0), None);
}

#[test]
fn tokenize_whole_documents() {
    assert!(tokenize("").is_ok());
    assert!(tokenize("{\"a\": [1, 2.5e3, -0, true, false, null, \"x\\n\"]}\n").is_ok());
    assert!(tokenize("]]{ 1 2 \"s\" :,").is_ok());
    assert!(tokenize("1.5 0.5").is_ok());
}

#[test]
fn tokenize_single_open_brace_is_a_token() {
    assert!(tokenize("{").is_ok());
}

#[test]
fn tokenize_reports_where_it_stops() {
    let e = tokenize("[1, @]").unwrap_err();
    assert_eq!(e.pos, 4);
    assert_eq!(e.preview, b"@]".to_vec());
    let e = tokenize("tru").unwrap_err();
    assert_eq!(e.pos, 0);
    let e = tokenize("1.50.5").unwrap_err();
    assert_eq!(e.pos, 4);
    let e = tokenize("\"unterminated").unwrap_err();
    assert_eq!(e.pos, 0);
}

#[test]
fn preview_is_bounded() {
    let long = vec![b'x'; 250];
    assert_eq!(preview(&long, 10).len(), PREVIEW_LEN);
    assert_eq!(preview(&long, 200).len(), 50);
    assert_eq!(preview(&long, 250).len(), 0);
    assert_eq!(preview(b"abc", 1), b"bc".to_vec());
    let mut text = String::from("@");
    text.push_str(&"y".repeat(150));
    let e = tokenize(&text).unwrap_err();
    assert_eq!(e.pos, 0);
    assert_eq!(e.preview.len(), 100);
}

#[test]
fn tokens_side_by_side() {
    assert!(tokenize("1-2").is_ok());
    assert!(tokenize("\"a\"\"b\"truefalse[null]").is_ok());
    assert!(tokenize("12").is_ok());
}
