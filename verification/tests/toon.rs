use contract_toon::{Malformed, Number, Value, parse};
use serde_json::Value as Json;

/// The JSON value a parsed document stands for, as serde_json holds it: a
/// decimal is read as an `f64`, and one that is not finite stays text.
fn json(value: &Value) -> Json {
    match value {
        Value::Null => Json::Null,
        Value::Bool(b) => Json::Bool(*b),
        Value::Number(Number::Int(i)) => Json::from(*i),
        Value::Number(Number::UInt(u)) => Json::from(*u),
        Value::Number(Number::Decimal(text)) => text
            .parse::<f64>()
            .ok()
            .and_then(serde_json::Number::from_f64)
            .map_or_else(|| Json::String(text.clone()), Json::Number),
        Value::String(s) => Json::String(s.clone()),
        Value::Array(items) => Json::Array(items.iter().map(json).collect()),
        Value::Object(entries) => {
            let mut map = serde_json::Map::new();
            for (k, v) in entries {
                map.insert(k.clone(), json(v));
            }
            Json::Object(map)
        }
    }
}

fn read(text: &str) -> Json {
    json(&parse(text).expect("toon"))
}

fn refused(text: &str) -> Malformed {
    match parse(text) {
        Ok(_) => panic!("{text:?} was read"),
        Err(m) => m,
    }
}

fn obj(entries: Vec<(&str, Json)>) -> Json {
    let mut map = serde_json::Map::new();
    for (k, v) in entries {
        map.insert(k.to_string(), v);
    }
    Json::Object(map)
}

fn s(text: &str) -> Json {
    Json::String(text.to_string())
}

#[test]
fn a_table_parses_to_one_object_per_row_with_the_header_fields() {
    let text = "items[2]{id,name,price}:\n  1,Widget,9.5\n  2,\"Gadget, large\",12\ntotal: 2";
    let value = read(text);
    assert_eq!(
        value,
        obj(vec![
            (
                "items",
                Json::Array(vec![
                    obj(vec![("id", Json::from(1)), ("name", s("Widget")), ("price", Json::from(9.5))]),
                    obj(vec![
                        ("id", Json::from(2)),
                        ("name", s("Gadget, large")),
                        ("price", Json::from(12)),
                    ]),
                ]),
            ),
            ("total", Json::from(2)),
        ])
    );
}

#[test]
fn objects_nest_by_indentation_and_arrays_are_inline_or_listed() {
    let text = "service:\n  name: edge\n  tags[3]: a,b,c\n  empty[0]:\n  none:\nitems[3]:\n  \
                - 1\n  - name: x\n    kind: y\n  - [2|]: p|q\nnote: \"quoted: yes\"\nflag: true\n\
                nothing: null\nnegative: -1.5e3";
    let value = read(text);
    assert_eq!(
        value,
        obj(vec![
            (
                "service",
                obj(vec![
                    ("name", s("edge")),
                    ("tags", Json::Array(vec![s("a"), s("b"), s("c")])),
                    ("empty", Json::Array(vec![])),
                    ("none", obj(vec![])),
                ]),
            ),
            (
                "items",
                Json::Array(vec![
                    Json::from(1),
                    obj(vec![("name", s("x")), ("kind", s("y"))]),
                    Json::Array(vec![s("p"), s("q")]),
                ]),
            ),
            ("note", s("quoted: yes")),
            ("flag", Json::Bool(true)),
            ("nothing", Json::Null),
            ("negative", Json::from(-1500.0)),
        ])
    );
    assert_eq!(read("[#2]: 1,2"), Json::Array(vec![Json::from(1), Json::from(2)]));
    assert_eq!(read("42"), Json::from(42));
    assert_eq!(read(""), obj(vec![]));
    assert_eq!(read("\"a\\\"b\": \"c\\nd\""), obj(vec![("a\"b", s("c\nd"))]));
}

#[test]
fn a_ragged_row_is_refused_with_its_line() {
    let refused = refused("items[2]{id,name}:\n  1,Widget\n  2\n");
    assert_eq!(refused.line, 3);
    assert_eq!(refused.column, 3);
    assert!(
        refused
            .message
            .contains("the row has 1 values, the header names 2 fields")
    );
    assert_eq!(
        refused.to_string(),
        format!("line 3 column 3: {}", refused.message)
    );
}

#[test]
fn a_count_that_does_not_match_a_bad_indent_or_a_bad_escape_is_refused() {
    let few = refused("tags[3]: a,b");
    assert!(few.message.contains("declares 3 items, 2 found"), "{}", few.message);
    let many = refused("items[1]:\n  - a\n  - b");
    assert_eq!(many.line, 3);
    let odd = refused("a:\n   b: 1");
    assert_eq!((odd.line, odd.column), (2, 4));
    let tab = refused("a:\n\tb: 1");
    assert_eq!(tab.line, 2);
    let escape = refused("a: \"\\q\"");
    assert!(escape.message.contains("unknown escape"), "{}", escape.message);
    let stray = refused("a: 1\n  b: 2");
    assert_eq!((stray.line, stray.column), (2, 3));
    let open = refused("a: \"never");
    assert_eq!((open.line, open.column), (1, 4));
}

#[test]
fn numbers_follow_the_json_grammar_and_the_rest_is_text() {
    for (text, expected) in [
        ("1", Json::from(1)),
        ("-0", Json::from(0)),
        ("1.25", Json::from(1.25)),
        ("1e2", Json::from(100.0)),
        ("18446744073709551615", Json::from(18_446_744_073_709_551_615_u64)),
        ("01", s("01")),
        ("1.", s("1.")),
        ("0x10", s("0x10")),
        ("hello world", s("hello world")),
    ] {
        assert_eq!(read(&format!("v: {text}"))["v"], expected, "{text}");
    }
}
