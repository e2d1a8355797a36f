use contract_toon::{Number, Reading, Source, Toon, ToonFactory, Value};

fn text(s: &str) -> Value {
    Value::String(s.to_string())
}

fn object(entries: Vec<(&str, Value)>) -> Value {
    Value::Object(entries.into_iter().map(|(k, v)| (k.to_string(), v)).collect())
}

#[test]
fn a_contract_describes_itself() {
    let bare = Toon::new();
    assert_eq!(bare.descriptor().id, "toon");
    assert_eq!(bare.descriptor().version, "1");
    assert_eq!(bare.descriptor().representation, "application/toon");
    assert!(bare.schema().is_none());
    let default = Toon::default();
    assert_eq!(default.descriptor().id, "toon");
    assert!(!default.is_bound());
}

#[test]
fn a_bound_contract_is_named_for_its_schema() {
    let titled = Toon::with_schema(object(vec![("title", text("Invoice"))])).ok().expect("schema");
    assert_eq!(titled.descriptor().id, "toon:Invoice");
    let both = Toon::with_schema(object(vec![("title", text("t")), ("$id", text("i"))]))
        .ok()
        .expect("schema");
    assert_eq!(both.descriptor().id, "toon:i");
    let unnamed_id = Toon::with_schema(object(vec![
        ("$id", Value::Bool(true)),
        ("title", text("t")),
    ]))
    .ok()
    .expect("schema");
    assert_eq!(unnamed_id.descriptor().id, "toon:bound");
    let anything = Toon::with_schema(Value::Bool(true)).ok().expect("schema");
    assert_eq!(anything.descriptor().id, "toon:bound");
    assert!(anything.is_bound());
    assert!(matches!(anything.schema(), Some(Value::Bool(true))));
    assert_eq!(anything.descriptor().representation, "application/toon");
}

#[test]
fn only_an_object_or_a_boolean_is_a_schema() {
    for not_a_schema in [Value::Null, text("no"), Value::Array(Vec::new())] {
        match Toon::with_schema(not_a_schema) {
            Ok(_) => panic!("bound to what is not a schema"),
            Err(e) => assert_eq!(e.message, "a JSON Schema is an object or a boolean"),
        }
    }
}

#[test]
fn bytes_that_are_not_text_are_an_error_that_says_why() {
    let bare = Toon::new();
    let bytes = [b'a', b':', b' ', 0xc3, 0x28];
    let expected = match std::str::from_utf8(&bytes) {
        Ok(_) => panic!("not UTF-8"),
        Err(e) => format!("not UTF-8 text: {e}"),
    };
    match bare.validate(&bytes) {
        Err(e) => assert_eq!(e.message, expected),
        Ok(_) => panic!("read bytes that are not text"),
    }
}

#[test]
fn text_that_is_not_toon_is_the_issue_malformed() {
    let bare = Toon::new();
    match bare.validate("a: 1\n  b: 2".as_bytes()) {
        Ok(Reading::Malformed(issue)) => {
            assert_eq!(issue.code, "malformed");
            assert_eq!(issue.message, "not valid TOON: unexpected indentation");
            assert_eq!(issue.path.as_deref(), Some("line 2 column 3"));
        }
        _ => panic!("read a stray indentation"),
    }
    match bare.validate("é: \"x".as_bytes()) {
        Ok(Reading::Malformed(issue)) => {
            assert_eq!(issue.path.as_deref(), Some("line 1 column 5"));
        }
        _ => panic!("read an open quote"),
    }
}

#[test]
fn text_that_is_toon_is_its_value() {
    let bare = Toon::new();
    match bare.validate("a[2]: 1,x".as_bytes()) {
        Ok(Reading::Instance(Value::Object(entries))) => {
            assert_eq!(entries.len(), 1);
            assert_eq!(entries[0].0, "a");
            match &entries[0].1 {
                Value::Array(items) => {
                    assert_eq!(items.len(), 2);
                    assert!(matches!(&items[1], Value::String(s) if s == "x"));
                }
                _ => panic!("not an array"),
            }
        }
        _ => panic!("not read"),
    }
    assert!(matches!(bare.validate(b""), Ok(Reading::Instance(Value::Object(e))) if e.is_empty()));
}

#[test]
fn a_media_type_decides_whatever_the_bytes() {
    let bare = Toon::new();
    assert!(bare.identify(Some("APPLICATION/TOON"), b"name: a"));
    assert!(bare.identify(Some(" Text/Toon ; q=1"), b""));
    assert!(bare.identify(Some("application/vnd.orders+toon"), &[0xff]));
    assert!(!bare.identify(Some("application/toon+json"), b"a[1]: b"));
    assert!(!bare.identify(Some(""), b"a[1]: b"));
    assert!(!bare.identify(Some("application/+TOON"), b"a[1]: b"));
}

#[test]
fn sniffing_looks_for_an_array_header_on_the_first_line_that_is_not_blank() {
    let bare = Toon::new();
    let is = |text: &str| bare.identify(None, text.as_bytes());
    assert!(is("\n  \n  t[2]{a,b}:\n"));
    assert!(is("a[2\t]: x\ty"));
    assert!(is("a[##3]: x"));
    assert!(is("a[3|\t|]: x"));
    assert!(is("\"k\"[1]: x"));
    assert!(!is("a: 1\nb[2]: x,y"));
    assert!(!is("a[#]: x"));
    assert!(!is("a[2]{x: 1"));
    assert!(!is("a[2] : 1"));
    assert!(!is("a[2"));
    assert!(!is("   \n\t"));
    assert!(!bare.identify(None, &[b'a', b'[', b'1', b']', b':', 0xff]));
}

#[test]
fn a_reference_names_the_bare_contract_or_a_schema_file() {
    let factory = ToonFactory;
    assert!(matches!(factory.source("  toon\t"), Source::Bare));
    assert!(matches!(factory.source(" \n "), Source::Bare));
    match factory.source("TOON") {
        Source::SchemaFile(path) => assert_eq!(path, "TOON"),
        Source::Bare => panic!("a reference is matched as written"),
    }
    match factory.source("toons") {
        Source::SchemaFile(path) => assert_eq!(path, "toons"),
        Source::Bare => panic!("only toon itself is bare"),
    }
}

#[test]
fn sniffing_reads_only_the_first_line_that_is_not_blank() {
    let bare = Toon::new();
    let is = |text: &str| bare.identify(None, text.as_bytes());
    for first in ["a[2]: x,y", "name: a", "[1]: 1", "a[2"] {
        for rest in ["", "b[1]: x", "name: b"] {
            assert_eq!(is(&format!("{first}\n{rest}")), is(first), "{first:?} {rest:?}");
            assert_eq!(is(&format!(" \t\r\n{first}")), is(first), "{first:?}");
        }
    }
    assert!(!is("name: a\nitems[2]: x,y"));
}

#[test]
fn bytes_that_are_not_text_are_refused_with_the_reason_std_gives() {
    for bytes in [&[0xff_u8][..], &[b'a', 0xe2, 0x82][..], &[0xed, 0xa0, 0x80][..]] {
        let reason = match std::str::from_utf8(bytes) {
            Ok(_) => panic!("not UTF-8"),
            Err(e) => e.to_string(),
        };
        match Toon::new().validate(bytes) {
            Err(e) => assert_eq!(e.message, format!("not UTF-8 text: {reason}")),
            Ok(_) => panic!("read bytes that are not text"),
        }
    }
    assert_eq!(contract_toon::contract::not_text("why".to_string()).message, "not UTF-8 text: why");
}

fn entry<'a>(value: &'a Value, key: &str) -> &'a Value {
    match value {
        Value::Object(entries) => &entries.iter().find(|(k, _)| k == key).expect("key").1,
        _ => panic!("not an object"),
    }
}

#[test]
fn the_factory_binds_the_schema_a_file_holds() {
    let factory = ToonFactory;
    let order = br#"{"$id": "order", "type": "object", "required": ["id", "lines"]}"#;
    let bound = factory.load_schema("order.schema.json", order).ok().expect("bound");
    assert_eq!(bound.descriptor().id, "toon:order");
    assert!(bound.is_bound());
    assert!(matches!(bound.validate(b"id: A1\nlines[1]{sku,qty}:\n  X,2"), Ok(Reading::Instance(_))));
    match bound.schema() {
        Some(schema) => assert!(matches!(entry(schema, "type"), Value::String(s) if s == "object")),
        None => panic!("no schema"),
    }
    let anything = factory.load_schema("t.json", b" true ").ok().expect("bound");
    assert_eq!(anything.descriptor().id, "toon:bound");
}

#[test]
fn a_schema_file_that_is_not_json_or_not_a_schema_is_refused() {
    let factory = ToonFactory;
    for bytes in [&b"{"[..], &b"{\"a\": 1,}"[..], &b""[..], &[0xff][..]] {
        let reason = match serde_json::from_slice::<serde_json::Value>(bytes) {
            Ok(_) => panic!("not JSON"),
            Err(e) => e.to_string(),
        };
        match factory.load_schema("s.json", bytes) {
            Err(e) => assert_eq!(e.message, format!("schema s.json is not valid JSON: {reason}")),
            Ok(_) => panic!("bound to what is not JSON"),
        }
    }
    for bytes in [&b"\"no\""[..], &b"[1]"[..], &b"null"[..], &b"3"[..]] {
        match factory.load_schema("s.json", bytes) {
            Err(e) => assert_eq!(e.message, "a JSON Schema is an object or a boolean"),
            Ok(_) => panic!("bound to what is not a schema"),
        }
    }
}

#[test]
fn a_schema_file_is_read_with_its_numbers_as_serde_json_holds_them() {
    let factory = ToonFactory;
    let bytes = br#"{"$id": 5, "title": "t", "n": 1.5, "m": -3, "u": 18446744073709551615, "e": 1e2}"#;
    let bound = factory.load_schema("s.json", bytes).ok().expect("bound");
    assert_eq!(bound.descriptor().id, "toon:bound");
    let schema = bound.schema().expect("schema");
    assert!(matches!(entry(schema, "$id"), Value::Number(Number::Int(5))));
    assert!(matches!(entry(schema, "m"), Value::Number(Number::Int(-3))));
    assert!(matches!(entry(schema, "u"), Value::Number(Number::UInt(u64::MAX))));
    assert!(matches!(entry(schema, "n"), Value::Number(Number::Decimal(t)) if t == "1.5"));
    assert!(matches!(entry(schema, "e"), Value::Number(Number::Decimal(t)) if t == "100.0"));
}
