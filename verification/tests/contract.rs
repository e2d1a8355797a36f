use contract_toon::{Issue, Reading, Source, Toon, ToonFactory, Value};

fn text(s: &str) -> Value {
    Value::String(s.to_string())
}

fn object(entries: Vec<(&str, Value)>) -> Value {
    Value::Object(entries.into_iter().map(|(k, v)| (k.to_string(), v)).collect())
}

fn order_schema() -> Value {
    object(vec![
        ("$id", text("order")),
        ("type", text("object")),
        ("required", Value::Array(vec![text("id"), text("lines")])),
        ("additionalProperties", Value::Bool(false)),
    ])
}

const ORDER: &str = "id: A1\nlines[2]{sku,qty}:\n  X,2\n  Y,1";

/// The issues a bare contract finds: none where the stream reads, else the
/// one that says where it breaks.
fn issues(reading: Reading) -> Vec<Issue> {
    match reading {
        Reading::Instance(_) => Vec::new(),
        Reading::Malformed(issue) => vec![issue],
    }
}

#[test]
fn the_bare_contract_holds_well_formed_toon_and_names_where_it_breaks() {
    let bare = Toon::new();
    assert!(!bare.is_bound());
    assert_eq!(bare.descriptor().id, "toon");
    let held = issues(bare.validate(ORDER.as_bytes()).ok().expect("validates"));
    assert!(held.is_empty());
    let ragged = issues(
        bare.validate("lines[2]{sku,qty}:\n  X,2\n  Y".as_bytes())
            .ok()
            .expect("validates"),
    );
    assert!(!ragged.is_empty());
    assert_eq!(ragged[0].code, "malformed");
    assert_eq!(ragged[0].path.as_deref(), Some("line 3 column 3"));
    assert!(ragged[0].message.contains("the row has 1 values"));
    assert!(
        bare.validate(&[0xff, 0xfe]).is_err(),
        "not text is an error, not an issue"
    );
}

#[test]
fn a_bound_contract_is_named_for_its_schema_and_reads_a_conforming_order() {
    let bound = Toon::with_schema(order_schema()).ok().expect("a schema");
    assert!(bound.is_bound());
    assert_eq!(bound.descriptor().id, "toon:order");
    assert!(matches!(bound.validate(ORDER.as_bytes()), Ok(Reading::Instance(_))));
    assert!(Toon::with_schema(text("no")).is_err());
}

#[test]
fn identifies_by_media_type_or_by_an_array_header() {
    let bare = Toon::new();
    let is = |text: &str, media: Option<&str>| bare.identify(media, text.as_bytes());
    assert!(is("x", Some("application/toon")));
    assert!(is("x", Some("text/toon; charset=utf-8")));
    assert!(!is("a[1]: b", Some("application/yaml")));
    assert!(is("tags[3]: a,b,c", None));
    assert!(is("  items[#2|]{id|name}:", None));
    assert!(is("[2]: 1,2", None));
    assert!(!is("name: a", None));
    assert!(!is("a[b]: c", None));
    assert!(!is("[1, 2]", None));
    assert!(!is("", None));
}

const ORDER_SCHEMA: &str = r#"{
    "$id": "order",
    "type": "object",
    "required": ["id", "lines"],
    "properties": {
        "id": { "type": "string", "minLength": 1 },
        "lines": {
            "type": "array",
            "minItems": 1,
            "items": {
                "type": "object",
                "required": ["sku", "qty"],
                "properties": {
                    "sku": { "type": "string" },
                    "qty": { "type": "integer", "minimum": 1 }
                }
            }
        }
    },
    "additionalProperties": false
}"#;

#[test]
fn the_factory_loads_bare_and_bound() {
    let factory = ToonFactory;
    assert_eq!(factory.technology(), "toon");
    assert!(matches!(factory.source(""), Source::Bare));
    assert!(matches!(factory.source("toon"), Source::Bare));
    let path = match factory.source(" /schemas/order.schema.json ") {
        Source::SchemaFile(path) => path,
        Source::Bare => panic!("a path names a schema"),
    };
    assert_eq!(path, "/schemas/order.schema.json");
    let bound = factory.load_schema(&path, ORDER_SCHEMA.as_bytes()).ok().expect("bound");
    assert_eq!(bound.descriptor().id, "toon:order");
    assert!(matches!(bound.validate(ORDER.as_bytes()), Ok(Reading::Instance(_))));
}
