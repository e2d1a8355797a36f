use contract_toon::token::{is_field, key};
use contract_toon::toon::Line;
use contract_toon::{Malformed, Number, Value, parse};

/// A value written out in full, entries in the order the library holds them:
/// strings quoted, decimals as written after a `~`.
fn show(value: &Value) -> String {
    match value {
        Value::Null => "null".to_string(),
        Value::Bool(b) => b.to_string(),
        Value::Number(Number::Int(i)) => i.to_string(),
        Value::Number(Number::UInt(u)) => format!("{u}u"),
        Value::Number(Number::Decimal(text)) => format!("~{text}"),
        Value::String(s) => format!("{s:?}"),
        Value::Array(items) => {
            let inner: Vec<String> = items.iter().map(show).collect();
            format!("[{}]", inner.join(","))
        }
        Value::Object(entries) => {
            let inner: Vec<String> = entries
                .iter()
                .map(|(k, v)| format!("{k:?}:{}", show(v)))
                .collect();
            format!("{{{}}}", inner.join(","))
        }
    }
}

fn read(text: &str) -> String {
    match parse(text) {
        Ok(value) => show(&value),
        Err(m) => panic!("{text:?} was refused: {}", m.to_string()),
    }
}

fn refused(text: &str) -> Malformed {
    match parse(text) {
        Ok(value) => panic!("{text:?} was read as {}", show(&value)),
        Err(m) => m,
    }
}

fn at(text: &str) -> (usize, usize, String) {
    let m = refused(text);
    (m.line, m.column, m.message)
}

// ---------------------------------------------------------------- laws

#[test]
fn a_blank_document_reads_as_an_empty_object() {
    assert_eq!(read(""), "{}");
    assert_eq!(read("  \n\t\n \r\n"), "{}");
}

#[test]
fn a_key_written_twice_is_held_once_with_its_last_value() {
    assert_eq!(read("a: 1\nb: 2\na: 3"), "{\"a\":3,\"b\":2}");
    assert_eq!(read("o:\n  x: 1\n  x: true"), "{\"o\":{\"x\":true}}");
    assert_eq!(read("t[1]{k,k}:\n  1,2"), "{\"t\":[{\"k\":2}]}");
    assert_eq!(read("t[2]{k,j,k}:\n  1,2,3\n  4,5,6"), "{\"t\":[{\"k\":3,\"j\":2},{\"k\":6,\"j\":5}]}");
}

#[test]
fn every_array_holds_the_count_its_header_declares() {
    assert_eq!(read("a[3]: x,y,z"), "{\"a\":[\"x\",\"y\",\"z\"]}");
    assert_eq!(read("a[2]:\n  - 1\n  - 2"), "{\"a\":[1,2]}");
    assert_eq!(read("a[0]:"), "{\"a\":[]}");
    assert_eq!(at("a[2]:\n  - 1"), (1, 1, "the array declares 2 items, 1 found".to_string()));
    assert_eq!(at("a[1]: x,y"), (1, 1, "the array declares 1 items, 2 found".to_string()));
    assert_eq!(
        at("t[1]{a}:\n  1\n  2"),
        (3, 3, "the array declares 1 items, more follow".to_string())
    );
}

#[test]
fn a_table_row_is_keyed_by_the_header_fields_in_order() {
    assert_eq!(
        read("t[2]{b,a}:\n  1,2\n  3,4"),
        "{\"t\":[{\"b\":1,\"a\":2},{\"b\":3,\"a\":4}]}"
    );
    assert_eq!(read("t[1\t]{a\tb}:\n  1\tx y"), "{\"t\":[{\"a\":1,\"b\":\"x y\"}]}");
    assert_eq!(read("t[1|]{\"x y\"|z}:\n  1|2"), "{\"t\":[{\"x y\":1,\"z\":2}]}");
}

#[test]
fn a_quoted_string_reads_back_as_itself() {
    assert_eq!(read("v: \"a\\\\b\\\"c\\td\\re\\nf\""), "{\"v\":\"a\\\\b\\\"c\\td\\re\\nf\"}");
    assert_eq!(read("v: \"\""), "{\"v\":\"\"}");
    assert_eq!(read("v: \"null\""), "{\"v\":\"null\"}");
    assert_eq!(read("v: \"12\""), "{\"v\":\"12\"}");
}

#[test]
fn integers_and_keywords_read_as_themselves() {
    assert_eq!(read("v: -9223372036854775808"), "{\"v\":-9223372036854775808}");
    assert_eq!(read("v: 9223372036854775807"), "{\"v\":9223372036854775807}");
    assert_eq!(read("v: 9223372036854775808"), "{\"v\":9223372036854775808u}");
    assert_eq!(read("v: 18446744073709551615"), "{\"v\":18446744073709551615u}");
    assert_eq!(read("v: 18446744073709551616"), "{\"v\":~18446744073709551616}");
    assert_eq!(read("v: -9223372036854775809"), "{\"v\":~-9223372036854775809}");
    assert_eq!(read("v: -0"), "{\"v\":0}");
    assert_eq!(read("v: 0"), "{\"v\":0}");
    assert_eq!(read("a: null\nb: true\nc: false"), "{\"a\":null,\"b\":true,\"c\":false}");
}

#[test]
fn a_refusal_names_a_line_of_the_document_and_a_column() {
    let m = refused("a: 1\n\n  b: 2");
    assert_eq!((m.line, m.column), (3, 3));
    assert_eq!(m.to_string(), "line 3 column 3: unexpected indentation");
}

// ---------------------------------------------------------------- numbers

#[test]
fn decimals_are_kept_as_written() {
    assert_eq!(read("v: 1.5"), "{\"v\":~1.5}");
    assert_eq!(read("v: -2.5E+10"), "{\"v\":~-2.5E+10}");
    assert_eq!(read("v: 1e400"), "{\"v\":~1e400}");
    assert_eq!(read("v: 0.0"), "{\"v\":~0.0}");
}

#[test]
fn what_breaks_the_json_number_grammar_is_text() {
    for text in ["+1", "1e", "1e+", ".5", "-", "--1", "1.2.3", "00", "-01", "1_000", "Infinity"] {
        assert_eq!(read(&format!("v: {text}")), format!("{{\"v\":{text:?}}}"), "{text}");
    }
}

// ---------------------------------------------------------------- shapes

#[test]
fn lines_may_end_with_a_carriage_return() {
    assert_eq!(read("a: 1\r\nb:\r\n  c: 2\r\n"), "{\"a\":1,\"b\":{\"c\":2}}");
}

#[test]
fn a_root_array_or_primitive_stands_alone() {
    assert_eq!(read("[2]: a,b"), "[\"a\",\"b\"]");
    assert_eq!(read("[1]:\n  - x"), "[\"x\"]");
    assert_eq!(read("hello"), "\"hello\"");
    assert_eq!(read("\"quoted: yes\""), "\"quoted: yes\"");
}

#[test]
fn list_items_hold_objects_and_arrays() {
    assert_eq!(
        read("a[2]:\n  - k: 1\n    l[1]: z\n  - [1]:\n    - y"),
        "{\"a\":[{\"k\":1,\"l\":[\"z\"]},[\"y\"]]}"
    );
    assert_eq!(read("a[1]:\n  - k:\n      m: 1"), "{\"a\":[{\"k\":{\"m\":1}}]}");
}

#[test]
fn values_around_delimiters_are_trimmed_and_quotes_hold_delimiters() {
    assert_eq!(read("a[3]:  x , \"y,z\" ,w"), "{\"a\":[\"x\",\"y,z\",\"w\"]}");
    assert_eq!(read("a[2|]: 1|2"), "{\"a\":[1,2]}");
    assert_eq!(read("a[#2]: 1,2"), "{\"a\":[1,2]}");
}

#[test]
fn keys_may_be_quoted() {
    assert_eq!(read("\"a b\": 1\n\"c:d\"[1]: x"), "{\"a b\":1,\"c:d\":[\"x\"]}");
}

// ---------------------------------------------------------------- refusals

#[test]
fn a_header_that_is_not_one_is_refused_where_it_breaks() {
    assert_eq!(at("a[x]: 1"), (1, 3, "expected the array's length".to_string()));
    assert_eq!(at("a[]: 1"), (1, 3, "expected the array's length".to_string()));
    assert_eq!(
        at("a[99999999999999999999999]: 1"),
        (1, 3, "expected the array's length".to_string())
    );
    assert_eq!(at("a[2x]: 1"), (1, 4, "expected ] after the length".to_string()));
    assert_eq!(at("a[1]{x: 1"), (1, 2, "the field list is not closed with }".to_string()));
    assert_eq!(at("a[1] 1"), (1, 2, "expected : after the array header".to_string()));
    assert_eq!(at("t[1]{a}: x"), (1, 1, "a table's rows go below its header".to_string()));
}

#[test]
fn a_document_in_the_wrong_shape_is_refused() {
    assert_eq!(at("  a: 1"), (1, 3, "the document starts indented".to_string()));
    assert_eq!(at("42\n43"), (2, 1, "a root value takes one line".to_string()));
    assert_eq!(at("[1]: 1\nx"), (2, 1, "content after the document".to_string()));
    assert_eq!(at("a[1]:\n  x"), (2, 3, "a list item starts with -".to_string()));
    assert_eq!(
        at("t[1]{a,b}:\n  1,2,3"),
        (2, 3, "the row has 3 values, the header names 2 fields".to_string())
    );
}

#[test]
fn a_key_that_is_not_one_is_refused() {
    assert_eq!(at("a: 1\n\"b: 2"), (2, 1, "the key's quote never closes".to_string()));
    assert_eq!(at("a: 1\n\"b\" x"), (2, 4, "expected : or [ after the key".to_string()));
    assert_eq!(at("a: 1\nb"), (2, 1, "expected key: value".to_string()));
    assert_eq!(at("a: 1\n: 2"), (2, 1, "the key is empty".to_string()));
    assert_eq!(at("\"a\\q\": 1"), (1, 1, "unknown escape \\q".to_string()));
}

#[test]
fn a_quote_that_is_not_closed_or_is_followed_is_refused() {
    assert_eq!(at("a: \"x\" y"), (1, 7, "content after the closing quote".to_string()));
    assert_eq!(at("\"x"), (1, 1, "the quote never closes".to_string()));
    assert_eq!(at("t[1]: \"a"), (1, 7, "the quote never closes".to_string()));
    assert_eq!(at("tags[2]: a,\"b"), (1, 12, "the quote never closes".to_string()));
    assert_eq!(at("t[2]: \"a\"x,b"), (1, 10, "content after the closing quote".to_string()));
    assert_eq!(at("t[1]{a}:\n  \"x"), (2, 3, "the quote never closes".to_string()));
    assert_eq!(at("t[1]{a,b}:\n  1, \"x"), (2, 6, "the quote never closes".to_string()));
    assert_eq!(at("a: \"x\\\""), (1, 4, "the quote never closes".to_string()));
    assert_eq!(at("a: \"\\"), (1, 4, "the quote never closes".to_string()));
}

#[test]
fn inside_a_list_item_a_column_counts_from_the_start_of_the_line() {
    assert_eq!(at("a[1]:\n  - k: \"x"), (2, 8, "the quote never closes".to_string()));
    assert_eq!(at("a[1]:\n  - \"a\\q\": 1"), (2, 5, "unknown escape \\q".to_string()));
    assert_eq!(at("a[1]:\n  - k[1]: \"x"), (2, 11, "the quote never closes".to_string()));
    assert_eq!(at("a[1]:\n  - k[x]: 1"), (2, 7, "expected the array's length".to_string()));
}

#[test]
fn indentation_is_two_spaces_a_level() {
    assert_eq!(
        at("a:\n\tb: 1"),
        (2, 1, "a tab in the indentation; TOON indents with spaces".to_string())
    );
    assert_eq!(
        at("a:\n  \tb: 1"),
        (2, 3, "a tab in the indentation; TOON indents with spaces".to_string())
    );
    assert_eq!(
        at("a:\n b: 1"),
        (2, 2, "the indentation is not a multiple of two spaces".to_string())
    );
}

#[test]
fn columns_count_bytes() {
    assert_eq!(at("é: \"x"), (1, 5, "the quote never closes".to_string()));
    assert_eq!(at("a: 1\n  é: 2"), (2, 3, "unexpected indentation".to_string()));
}

#[test]
fn a_line_break_before_a_document_moves_its_refusals_one_line_down() {
    assert_eq!(at("a: 1\n  b: 2"), (2, 3, "unexpected indentation".to_string()));
    assert_eq!(at("\na: 1\n  b: 2"), (3, 3, "unexpected indentation".to_string()));
    assert_eq!(read("\na[2]: x,y"), read("a[2]: x,y"));
    assert_eq!(read("\n"), read(""));
}

#[test]
fn a_quote_that_never_closes_is_refused_at_its_column() {
    for (text, line, column) in [
        ("a: \"x", 1, 4),
        ("tags[2]: a,\"b", 1, 12),
        ("a:\n  b[2]:  1 ,  \"x", 2, 15),
        ("l[1]:\n  - \"q", 2, 5),
        ("l[1]:\n  - k: \"é", 2, 8),
    ] {
        let m = refused(text);
        assert_eq!((m.line, m.column), (line, column), "{text:?}");
        let raw = text.lines().nth(line - 1).expect("line");
        assert_eq!(&raw[column - 1..column], "\"", "{text:?}");
    }
}

#[test]
fn text_that_reads_as_a_key_starts_a_field() {
    for text in ["a: 1", "a[2]: x", "\"a b\": 1", "\"a\\q\": 1", ": 1", "a", "\"a", "\"a\" x", "  : x", "x y[1]"] {
        let chars: Vec<char> = text.chars().collect();
        let line = Line { number: 1, depth: 0, column: 1, text: chars.clone() };
        let keyed = key(&chars, &line, 0).is_ok();
        let field = is_field(&chars);
        if keyed {
            assert!(field, "{text:?}");
        }
        if !text.starts_with('"') {
            assert_eq!(field, keyed, "{text:?}");
        }
    }
    let chars: Vec<char> = "\"a\\q\": 1".chars().collect();
    let line = Line { number: 1, depth: 0, column: 1, text: chars.clone() };
    assert!(is_field(&chars) && key(&chars, &line, 0).is_err());
}
