use yini::{ErrorKind, Parser, Struct, Value};

/// The numeric value of a decimal literal, for float expectations.
fn float_of(v: &Value) -> Option<f64> {
    v.as_num().map(|s| s.parse().unwrap())
}

#[test]
fn parsing_twice_is_deterministic() {
    let data = "a: 1\nb: [x y]\nc :v(1 2)\nbroken:\n";
    let mut first = Parser::new(data);
    let first_map = first.parse();
    let mut second = Parser::new(data);
    let second_map = second.parse();
    assert_eq!(format!("{:?}", first_map), format!("{:?}", second_map));
    assert_eq!(
        format!("{:?}", first.errors()),
        format!("{:?}", second.errors())
    );
}

#[test]
fn empty_input_parses() {
    let mut parser = Parser::new("");
    let map = parser.parse();
    assert_eq!(map.len(), 0);
    assert!(parser.errors().is_empty());
}

#[test]
fn comment_only_input_parses() {
    let mut parser = Parser::new("   # nothing here\n\t# nor here");
    let map = parser.parse();
    assert_eq!(map.len(), 0);
    assert!(parser.errors().is_empty());
}

#[test]
fn truncated_input_parses() {
    let mut parser = Parser::new("a: [1 2");
    let map = parser.parse();
    assert!(
        parser
            .errors()
            .iter()
            .any(|e| matches!(e.kind, ErrorKind::UnexpectedEndOfInput))
    );
    if let Some(Value::Array(items)) = map.get("a") {
        assert_eq!(items.len(), 2);
        assert_eq!(items[0].as_int(), Some(1));
        assert_eq!(items[1].as_int(), Some(2));
    } else {
        panic!("a not parsed as array");
    }
}

#[test]
fn stray_close_brace_in_array_is_skipped() {
    let mut parser = Parser::new("a: [}");
    let map = parser.parse();
    assert!(
        parser
            .errors()
            .iter()
            .any(|e| matches!(e.kind, ErrorKind::UnexpectedCharacter('}')))
    );
    assert!(
        parser
            .errors()
            .iter()
            .any(|e| matches!(e.kind, ErrorKind::UnexpectedEndOfInput))
    );
    if let Some(Value::Array(items)) = map.get("a") {
        assert_eq!(items.len(), 0);
    } else {
        panic!("a not parsed as array");
    }
}

#[test]
fn integer_round_trip_extremes() {
    let data = "max: 9223372036854775807\nmin: -9223372036854775808\nzero: -0\nsmall: 007\n";
    let mut parser = Parser::new(data);
    let map = parser.parse();
    assert!(
        parser.errors().is_empty(),
        "Parse errors: {:?}",
        parser.errors()
    );
    assert_eq!(map.get("max").and_then(Value::as_int), Some(i64::MAX));
    assert_eq!(map.get("min").and_then(Value::as_int), Some(i64::MIN));
    assert_eq!(map.get("zero").and_then(Value::as_int), Some(0));
    assert_eq!(map.get("small").and_then(Value::as_int), Some(7));
}

#[test]
fn decimal_literal_kept_exactly() {
    let data = "pi: 3.14\nneg: -0.5\nbare: 5.\nlead: -.25\n";
    let mut parser = Parser::new(data);
    let map = parser.parse();
    assert!(
        parser.errors().is_empty(),
        "Parse errors: {:?}",
        parser.errors()
    );
    assert_eq!(map.get("pi").and_then(Value::as_num), Some("3.14"));
    assert_eq!(map.get("neg").and_then(Value::as_num), Some("-0.5"));
    assert_eq!(map.get("bare").and_then(Value::as_num), Some("5."));
    assert_eq!(map.get("lead").and_then(Value::as_num), Some("-.25"));
    assert_eq!(map.get("pi").and_then(float_of), Some(3.14));
    assert_eq!(map.get("neg").and_then(float_of), Some(-0.5));
}

#[test]
fn integer_overflow_reports_and_yields_zero() {
    let mut parser = Parser::new("big: 99999999999999999999\n");
    let map = parser.parse();
    assert!(
        parser
            .errors()
            .iter()
            .any(|e| matches!(e.kind, ErrorKind::InvalidIntegerFormat(_)))
    );
    assert_eq!(map.get("big").and_then(Value::as_int), Some(0));
}

#[test]
fn lone_minus_reports_integer_format() {
    let mut parser = Parser::new("n: -\n");
    let map = parser.parse();
    assert!(
        parser
            .errors()
            .iter()
            .any(|e| matches!(e.kind, ErrorKind::InvalidIntegerFormat(_)))
    );
    assert_eq!(map.get("n").and_then(Value::as_int), Some(0));
}

#[test]
fn minus_point_reports_float_format() {
    let mut parser = Parser::new("f: -.\n");
    let map = parser.parse();
    assert!(
        parser
            .errors()
            .iter()
            .any(|e| matches!(e.kind, ErrorKind::InvalidFloatFormat(_)))
    );
    assert_eq!(map.get("f").and_then(Value::as_num), Some("0.0"));
}

#[test]
fn duplicate_key_keeps_last_value() {
    let mut parser = Parser::new("k: 1\nk: 2\n");
    let map = parser.parse();
    assert_eq!(map.len(), 1);
    assert_eq!(map.get("k").and_then(Value::as_int), Some(2));
}

#[test]
fn map_insert_replaces_in_place() {
    let mut map = Struct::new();
    map.insert("a".to_string(), Value::Int(1));
    map.insert("b".to_string(), Value::Int(2));
    map.insert("a".to_string(), Value::Int(3));
    assert_eq!(map.len(), 2);
    assert_eq!(map.get("a").and_then(Value::as_int), Some(3));
    assert_eq!(map.get("b").and_then(Value::as_int), Some(2));
    assert!(map.get("c").is_none());
}

#[test]
fn same_line_fallback_and_next_line() {
    let data = "field_1: value1 field_2: value2\nfield_3: 123\n";
    let mut parser = Parser::new(data);
    let map = parser.parse();
    assert_eq!(map.len(), 2);
    assert_eq!(
        map.get("field_1").and_then(Value::as_str),
        Some("value1 field_2: value2")
    );
    assert_eq!(map.get("field_3").and_then(Value::as_int), Some(123));
    assert!(map.get("field_2").is_none());
}

#[test]
fn variant_payload_scenario() {
    let data = "with_tuple :windowed(768 1024)\nsimple: :fullscreen\n";
    let mut parser = Parser::new(data);
    let map = parser.parse();
    assert!(
        parser.errors().is_empty(),
        "Parse errors: {:?}",
        parser.errors()
    );
    if let Some((name, payload)) = map
        .get("with_tuple")
        .and_then(Value::as_variant_with_payload)
    {
        assert_eq!(name, "windowed");
        if let Some(Value::Tuple(items)) = payload {
            assert_eq!(items.len(), 2);
            assert_eq!(items[0].as_int(), Some(768));
            assert_eq!(items[1].as_int(), Some(1024));
        } else {
            panic!("with_tuple payload not parsed as tuple");
        }
    } else {
        panic!("with_tuple not parsed as variant");
    }
    if let Some((name, payload)) = map.get("simple").and_then(Value::as_variant_with_payload) {
        assert_eq!(name, "fullscreen");
        assert!(payload.is_none());
    } else {
        panic!("simple not parsed as variant");
    }
}

#[test]
fn unterminated_block_recovers() {
    let data = "outer: {\n  a: 1\n";
    let mut parser = Parser::new(data);
    let map = parser.parse();
    assert!(
        parser
            .errors()
            .iter()
            .any(|e| matches!(e.kind, ErrorKind::UnterminatedBlock))
    );
    if let Some(Value::Struct(outer)) = map.get("outer") {
        assert_eq!(outer.get("a").and_then(Value::as_int), Some(1));
    } else {
        panic!("outer not parsed as struct");
    }
}

#[test]
fn comments_leave_no_trace() {
    let data = "a: 10 # comment\nb: 20\n";
    let mut parser = Parser::new(data);
    let map = parser.parse();
    assert!(
        parser.errors().is_empty(),
        "Parse errors: {:?}",
        parser.errors()
    );
    assert_eq!(map.get("a").and_then(Value::as_int), Some(10));
    assert_eq!(map.get("b").and_then(Value::as_int), Some(20));
    assert!(!format!("{:?}", map).contains("comment"));
}

#[test]
fn atoms_group_only_inside_parentheses() {
    let mut parser = Parser::new("nums: [1 2 3]\n");
    let map = parser.parse();
    assert!(parser.errors().is_empty());
    if let Some(Value::Array(items)) = map.get("nums") {
        assert_eq!(items.len(), 3);
        assert_eq!(items[0].as_int(), Some(1));
        assert_eq!(items[1].as_int(), Some(2));
        assert_eq!(items[2].as_int(), Some(3));
    } else {
        panic!("nums not parsed as array");
    }

    let mut pair_parser = Parser::new("pair: (1 2)\n");
    let pair_map = pair_parser.parse();
    assert!(pair_parser.errors().is_empty());
    if let Some(items) = pair_map.get("pair").and_then(Value::as_tuple) {
        assert_eq!(items.len(), 2);
        assert_eq!(items[0].as_int(), Some(1));
        assert_eq!(items[1].as_int(), Some(2));
    } else {
        panic!("pair not parsed as tuple");
    }
    if let Some((a, b)) = pair_map.get("pair").and_then(Value::as_pair) {
        assert_eq!(a.as_int(), Some(1));
        assert_eq!(b.as_int(), Some(2));
    } else {
        panic!("pair not usable as pair");
    }
}

#[test]
fn unterminated_string_keeps_partial_content() {
    let mut parser = Parser::new("s: \"abc");
    let map = parser.parse();
    assert!(
        parser
            .errors()
            .iter()
            .any(|e| matches!(e.kind, ErrorKind::UnterminatedString))
    );
    assert_eq!(map.get("s").and_then(Value::as_str), Some("abc"));
}

#[test]
fn string_escapes_are_resolved() {
    let data = "s: \"a\\nb\\tc\\rd\\\"e\\\\f\\zg\"\n";
    let mut parser = Parser::new(data);
    let map = parser.parse();
    assert!(
        parser.errors().is_empty(),
        "Parse errors: {:?}",
        parser.errors()
    );
    assert_eq!(
        map.get("s").and_then(Value::as_str),
        Some("a\nb\tc\rd\"e\\fzg")
    );
}

#[test]
fn missing_value_drops_key_and_continues() {
    let data = "a:\nb: 2\n";
    let mut parser = Parser::new(data);
    let map = parser.parse();
    assert!(
        parser
            .errors()
            .iter()
            .any(|e| matches!(e.kind, ErrorKind::ExpectedValueOnSameLine))
    );
    assert!(map.get("a").is_none());
    assert_eq!(map.get("b").and_then(Value::as_int), Some(2));
}

#[test]
fn stray_character_resynchronizes_to_next_line() {
    let data = "] junk\nx: 1\n";
    let mut parser = Parser::new(data);
    let map = parser.parse();
    assert!(
        parser
            .errors()
            .iter()
            .any(|e| matches!(e.kind, ErrorKind::UnexpectedCharacter(']')))
    );
    assert_eq!(map.len(), 1);
    assert_eq!(map.get("x").and_then(Value::as_int), Some(1));
}

#[test]
fn value_against_closing_brace_is_advisory() {
    let data = "m: {a: 1}\n";
    let mut parser = Parser::new(data);
    let map = parser.parse();
    assert!(
        parser
            .errors()
            .iter()
            .any(|e| matches!(e.kind, ErrorKind::ExpectedNewlineAfterKeyValue))
    );
    if let Some(Value::Struct(m)) = map.get("m") {
        assert_eq!(m.get("a").and_then(Value::as_int), Some(1));
    } else {
        panic!("m not parsed as struct");
    }
}

#[test]
fn error_coordinates_are_one_based() {
    let mut parser = Parser::new("a:\n");
    let _map = parser.parse();
    let errors = parser.errors();
    assert_eq!(errors.len(), 1);
    assert_eq!(errors[0].line, 1);
    assert_eq!(errors[0].column, 3);
}

#[test]
fn quoted_keys_work() {
    let data = "\"a key\": 5\n";
    let mut parser = Parser::new(data);
    let map = parser.parse();
    assert!(
        parser.errors().is_empty(),
        "Parse errors: {:?}",
        parser.errors()
    );
    assert_eq!(map.get("a key").and_then(Value::as_int), Some(5));
}
