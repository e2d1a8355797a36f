use contract_toon::token::{key, primitive, split};
use contract_toon::toon::{Header, Line};
use contract_toon::{Number, Value};

fn chars(s: &str) -> Vec<char> {
    s.chars().collect()
}

fn line(number: usize, column: usize, text: &str) -> Line {
    Line { number, depth: 0, column, text: chars(text) }
}

fn is_text(v: &Value, s: &str) -> bool {
    matches!(v, Value::String(t) if t == s)
}

#[test]
fn a_primitive_reads_the_same_against_any_line() {
    let on = line(1, 1, "v: x");
    assert!(matches!(primitive(&chars("18446744073709551615"), &on, 3), Ok(Value::Number(Number::UInt(u64::MAX)))));
    assert!(matches!(primitive(&chars("hello world"), &on, 3), Ok(v) if is_text(&v, "hello world")));
    assert!(matches!(primitive(&chars("-0"), &on, 3), Ok(Value::Number(Number::Int(0)))));
    assert!(matches!(primitive(&chars("1e2"), &on, 3), Ok(Value::Number(Number::Decimal(t))) if t == "1e2"));
    assert!(matches!(primitive(&chars("01"), &on, 3), Ok(v) if is_text(&v, "01")));
    match primitive(&chars("\"never closes"), &on, 3) {
        Err(m) => assert_eq!((m.line, m.column), (1, 4)),
        Ok(_) => panic!("read an open quote"),
    }
}

#[test]
fn a_row_splits_the_same_against_any_line() {
    let on = line(2, 3, "1,Widget,9.5");
    let values = split(&chars("1,\"Gadget, large\",12"), ',', &on, 0).ok().expect("row");
    assert_eq!(values.len(), 3);
    assert!(matches!(values[0], Value::Number(Number::Int(1))));
    assert!(is_text(&values[1], "Gadget, large"));
    assert!(matches!(values[2], Value::Number(Number::Int(12))));
    let values = split(&chars("p|q"), '|', &on, 0).ok().expect("row");
    assert!(is_text(&values[0], "p") && is_text(&values[1], "q"));
    match split(&chars("a,\"b"), ',', &on, 5) {
        Err(m) => assert_eq!((m.line, m.column), (2, 10)),
        Ok(_) => panic!("read an open quote"),
    }
}

#[test]
fn a_header_reads_the_same_against_any_line() {
    let on = line(1, 1, "x");
    let t1 = chars("[#2|]{id|name}:");
    let (h, rest) = Header::parse(&t1, &on, 0).ok().expect("header");
    assert_eq!((h.count, h.delimiter), (2, '|'));
    assert_eq!(h.fields, Some(vec!["id".to_string(), "name".to_string()]));
    assert!(rest.is_empty());
    let t2 = chars("[3]: a,b,c");
    let (h, rest) = Header::parse(&t2, &on, 0).ok().expect("header");
    assert_eq!((h.count, h.delimiter, h.fields), (3, ',', None));
    assert_eq!(rest.iter().collect::<String>(), "a,b,c");
    let t3 = chars("[2\t]: a\tb");
    let (h, rest) = Header::parse(&t3, &on, 0).ok().expect("header");
    assert_eq!((h.count, h.delimiter), (2, '\t'));
    assert_eq!(rest.iter().collect::<String>(), "a\tb");
    match Header::parse(&chars("a[1]"), &on, 4) {
        Err(m) => assert_eq!((m.column, m.message.as_str()), (5, "expected [")),
        Ok(_) => panic!("read no header"),
    }
}

#[test]
fn a_key_reads_the_same_against_any_line() {
    let on = line(3, 1, "x");
    let t0 = chars("name: a");
    let (k, after) = key(&t0, &on, 0).ok().expect("key");
    assert_eq!(k, "name");
    assert_eq!(after.iter().collect::<String>(), ": a");
    match key(&chars("  : a"), &on, 2) {
        Err(m) => assert_eq!((m.line, m.column, m.message.as_str()), (3, 3, "the key is empty")),
        Ok(_) => panic!("read an empty key"),
    }
    match key(&chars("no colon"), &on, 0) {
        Err(m) => assert_eq!(m.message, "expected key: value"),
        Ok(_) => panic!("read no key"),
    }
}
