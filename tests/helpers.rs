use json_lex::lexical::{skip_digits, skip_ws};
use json_lex::parser::{insert_entry_exec, parse_value, same_text, Failure};
use json_lex::value::{JsonValue, Span};

#[test]
fn runs_of_whitespace_and_digits() {
    assert_eq!(skip_ws(b"a \n\tb", 1), 3);
    assert_eq!(skip_ws(b"ab", 0), 0);
    assert_eq!(skip_ws(b"  ", 2), 0);
    assert_eq!(skip_digits(b"x0129y", 1), 4);
    assert_eq!(skip_digits(b"x", 0), 0);
}

#[test]
fn span_texts_compare_by_bytes() {
    let s = b"\"ab\",\"ab\",\"ac\",\"a\"";
    let first = Span { start: 1, end: 3 };
    let second = Span { start: 6, end: 8 };
    let third = Span { start: 11, end: 13 };
    let short = Span { start: 16, end: 17 };
    assert!(same_text(s, first, second));
    assert!(!same_text(s, first, third));
    assert!(!same_text(s, first, short));
    assert!(same_text(s, Span { start: 0, end: 0 }, Span { start: 4, end: 4 }));
}

#[test]
fn entries_replace_values_of_equal_keys() {
    let s = b"a b a c";
    let mut entries: Vec<(Span, JsonValue)> = Vec::new();
    insert_entry_exec(s, &mut entries, Span { start: 0, end: 1 }, JsonValue::Null);
    insert_entry_exec(s, &mut entries, Span { start: 2, end: 3 }, JsonValue::Bool(true));
    insert_entry_exec(s, &mut entries, Span { start: 4, end: 5 }, JsonValue::Bool(false));
    insert_entry_exec(s, &mut entries, Span { start: 6, end: 7 }, JsonValue::Null);
    assert_eq!(entries.len(), 3);
    assert_eq!(entries[0].0, Span { start: 0, end: 1 });
    assert!(matches!(entries[0].1, JsonValue::Bool(false)));
    assert!(matches!(entries[1].1, JsonValue::Bool(true)));
    assert_eq!(entries[2].0, Span { start: 6, end: 7 });
}

#[test]
fn value_past_the_end() {
    assert_eq!(parse_value(b"1", 1, 4).unwrap_err(), Failure::Unexpected(1));
    assert_eq!(parse_value(b"1", 9, 4).unwrap_err(), Failure::Unexpected(9));
    match parse_value(b" -3.25e1,", 1, 0) {
        Ok((JsonValue::Number(sp), end)) => {
            assert_eq!(sp, Span { start: 1, end: 8 });
            assert_eq!(end, 8);
        },
        other => panic!("unexpected: {:?}", other),
    }
    match parse_value(b"\"k\\u00e9\"", 0, 0) {
        Ok((JsonValue::Str(sp), end)) => {
            assert_eq!(sp, Span { start: 1, end: 8 });
            assert_eq!(end, 9);
        },
        other => panic!("unexpected: {:?}", other),
    }
}
