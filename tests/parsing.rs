use json_lex::parser::{parse, parse_value, Failure, ParseErrorKind, MAX_DEPTH};
use json_lex::value::{JsonValue, Span};

fn text<'a>(buffer: &'a str, sp: &Span) -> &'a str {
    &buffer[sp.start..sp.end]
}

fn number_of(buffer: &str, v: &JsonValue) -> f64 {
    match v {
        JsonValue::Number(sp) => text(buffer, sp).parse().unwrap(),
        other => panic!("not a number: {:?}", other),
    }
}

#[test]
fn duplicate_keys_keep_the_last_value() {
    let buffer = "{\"a\":1,\"a\":2}";
    let v = parse(buffer).unwrap();
    match &v {
        JsonValue::Object(entries) => {
            assert_eq!(entries.len(), 1);
            assert_eq!(text(buffer, &entries[0].0), "a");
            assert_eq!(number_of(buffer, &entries[0].1), 2.0);
        },
        other => panic!("not an object: {:?}", other),
    }
}

#[test]
fn duplicate_keys_among_others() {
    let buffer = "{\"a\":1, \"b\":true, \"a\":null, \"c\":[]}";
    let v = parse(buffer).unwrap();
    match &v {
        JsonValue::Object(entries) => {
            assert_eq!(entries.len(), 3);
            let keys: Vec<&str> = entries.iter().map(|e| text(buffer, &e.0)).collect();
            assert_eq!(keys, vec!["a", "b", "c"]);
            assert!(matches!(entries[0].1, JsonValue::Null));
            assert!(matches!(entries[1].1, JsonValue::Bool(true)));
        },
        other => panic!("not an object: {:?}", other),
    }
}

#[test]
fn empty_containers() {
    assert!(matches!(parse("[]").unwrap(), JsonValue::Array(ref v) if v.is_empty()));
    assert!(matches!(parse("{}").unwrap(), JsonValue::Object(ref v) if v.is_empty()));
    assert!(matches!(parse("[ \n ]").unwrap(), JsonValue::Array(ref v) if v.is_empty()));
    assert!(matches!(parse("{\t}").unwrap(), JsonValue::Object(ref v) if v.is_empty()));
}

#[test]
fn negative_exponent_number() {
    let buffer = "-1.5e+2";
    let v = parse(buffer).unwrap();
    assert!(matches!(v, JsonValue::Number(Span { start: 0, end: 7 })));
    assert_eq!(number_of(buffer, &v), -150.0);
}

#[test]
fn malformed_object_is_rejected_at_the_missing_value() {
    let e = parse("{\"a\":}").unwrap_err();
    assert_eq!(e.kind, ParseErrorKind::Unexpected);
    assert_eq!(e.pos, 5);
    assert_eq!(e.preview, b"}".to_vec());
}

#[test]
fn malformed_inputs() {
    let cases: [(&str, usize); 9] = [
        ("[1,]", 3),
        ("[1 2]", 3),
        ("{\"a\" 1}", 5),
        ("{1:2}", 1),
        ("[", 1),
        ("{\"a\":1,}", 7),
        ("tru", 0),
        ("1 @", 2),
        ("[\"a\\x\"]", 1),
    ];
    for (input, pos) in cases {
        let e = parse(input).unwrap_err();
        assert_eq!(e.kind, ParseErrorKind::Unexpected, "{}", input);
        assert_eq!(e.pos, pos, "{}", input);
    }
}

#[test]
fn no_value_in_buffer() {
    let e = parse("").unwrap_err();
    assert_eq!(e.kind, ParseErrorKind::NoValue);
    assert_eq!(e.pos, 0);
    let e = parse(" \n\t ").unwrap_err();
    assert_eq!(e.kind, ParseErrorKind::NoValue);
    assert_eq!(e.pos, 4);
    assert!(e.preview.is_empty());
}

#[test]
fn last_top_level_value_is_kept() {
    assert!(matches!(parse("1 true").unwrap(), JsonValue::Bool(true)));
    assert!(matches!(parse(" null ").unwrap(), JsonValue::Null));
    assert!(matches!(parse("[1][2,3]").unwrap(), JsonValue::Array(ref v) if v.len() == 2));
}

#[test]
fn nested_tree_shape() {
    let buffer = " { \"xs\" : [ 1 , \"two\" , { \"k\" : false } ] , \"e\\\"s\" : -0.5 } ";
    let v = parse(buffer).unwrap();
    let entries = match &v {
        JsonValue::Object(entries) => entries,
        other => panic!("not an object: {:?}", other),
    };
    assert_eq!(entries.len(), 2);
    assert_eq!(text(buffer, &entries[0].0), "xs");
    assert_eq!(text(buffer, &entries[1].0), "e\\\"s");
    assert_eq!(number_of(buffer, &entries[1].1), -0.5);
    match &entries[0].1 {
        JsonValue::Array(items) => {
            assert_eq!(items.len(), 3);
            assert_eq!(number_of(buffer, &items[0]), 1.0);
            match &items[1] {
                JsonValue::Str(sp) => assert_eq!(text(buffer, sp), "two"),
                other => panic!("not a string: {:?}", other),
            }
            match &items[2] {
                JsonValue::Object(inner) => {
                    assert_eq!(inner.len(), 1);
                    assert_eq!(text(buffer, &inner[0].0), "k");
                    assert!(matches!(inner[0].1, JsonValue::Bool(false)));
                },
                other => panic!("not an object: {:?}", other),
            }
        },
        other => panic!("not an array: {:?}", other),
    }
}

#[test]
fn deep_nesting_fails_with_depth_error() {
    let buffer = format!("{}{}", "[".repeat(1000), "]".repeat(1000));
    let e = parse(&buffer).unwrap_err();
    assert_eq!(e.kind, ParseErrorKind::TooDeep);
    assert_eq!(e.pos, MAX_DEPTH);
}

#[test]
fn nesting_within_the_limit_parses() {
    let buffer = format!("{}{}", "[".repeat(MAX_DEPTH), "]".repeat(MAX_DEPTH));
    let mut v = parse(&buffer).unwrap();
    let mut depth = 0;
    loop {
        match v {
            JsonValue::Array(mut items) => {
                depth += 1;
                if items.is_empty() {
                    break;
                }
                v = items.pop().unwrap();
            },
            other => panic!("not an array: {:?}", other),
        }
    }
    assert_eq!(depth, MAX_DEPTH);
    let objects = format!("{}{}", "{\"a\":".repeat(MAX_DEPTH + 1), "}".repeat(MAX_DEPTH + 1));
    assert_eq!(parse(&objects).unwrap_err().kind, ParseErrorKind::TooDeep);
}

#[test]
fn value_at_a_position() {
    let s = b"x [true, 5] y";
    match parse_value(s, 2, 1) {
        Ok((JsonValue::Array(items), end)) => {
            assert_eq!(end, 11);
            assert_eq!(items.len(), 2);
        },
        other => panic!("unexpected: {:?}", other),
    }
    assert_eq!(parse_value(s, 2, 0).unwrap_err(), Failure::TooDeep(2));
    assert_eq!(parse_value(s, 0, 1).unwrap_err(), Failure::Unexpected(0));
    assert_eq!(parse_value(b"[[1]]", 0, 1).unwrap_err(), Failure::TooDeep(1));
}
