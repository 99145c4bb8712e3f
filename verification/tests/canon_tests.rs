//! Canonical JSON text, its parser, and the integrity tag format.

use ridb::error::{Errors, RIDBError};
use ridb::parse::parse_canonical;
use ridb::value::{obj_set_value, Value};

fn obj(fields: Vec<(&str, Value)>) -> Value {
    let mut out: Vec<(String, Value)> = Vec::new();
    for (k, v) in fields {
        obj_set_value(&mut out, k, v);
    }
    Value::Obj(out)
}

fn s(text: &str) -> Value {
    Value::Str(text.to_string())
}

fn canon_text(v: &Value) -> String {
    ridb::canon::to_canonical_chars(v).into_iter().collect()
}

#[test]
fn canonical_text_sorts_keys_and_spares_whitespace() {
    let v = obj(vec![
        ("b", Value::Int(2)),
        ("a", Value::Arr(vec![Value::Int(1), Value::Null, Value::Bool(true)])),
        ("c", obj(vec![("y", Value::Bool(false)), ("x", s("hi"))])),
    ]);
    assert_eq!(
        canon_text(&v),
        "{\"a\":[1,null,true],\"b\":2,\"c\":{\"x\":\"hi\",\"y\":false}}"
    );
}

#[test]
fn canonical_text_escapes_the_least() {
    let v = s("say \"hi\"\\ \n");
    assert_eq!(canon_text(&v), "\"say \\\"hi\\\"\\\\ \\u000a\"");
}

#[test]
fn canonical_text_writes_shortest_integers() {
    assert_eq!(canon_text(&Value::Int(0)), "0");
    assert_eq!(canon_text(&Value::Int(-7)), "-7");
    assert_eq!(canon_text(&Value::Int(1234567890123)), "1234567890123");
    assert_eq!(
        canon_text(&Value::Int(i64::MIN)),
        "-9223372036854775808"
    );
    assert_eq!(canon_text(&Value::Int(i64::MAX)), "9223372036854775807");
}

#[test]
fn parser_inverts_the_canonical_text() {
    let v = obj(vec![
        ("b", Value::Int(-42)),
        ("a", Value::Arr(vec![s("x\"y"), Value::Bool(false), Value::Null])),
        ("c", obj(vec![("n", Value::Int(0))])),
    ]);
    let text = canon_text(&v);
    let back = parse_canonical(&text).unwrap();
    assert_eq!(canon_text(&back), text);
    assert_eq!(back, v);
}

#[test]
fn parser_inverts_control_characters_and_deep_nesting() {
    let v = obj(vec![
        ("text", s("line one\nline two\ttabbed")),
        (
            "nest",
            Value::Arr(vec![
                obj(vec![("k", s("\u{1}\u{1f}"))]),
                Value::Arr(vec![Value::Int(-1), Value::Int(10)]),
            ]),
        ),
    ]);
    let text = canon_text(&v);
    let back = parse_canonical(&text).unwrap();
    assert_eq!(back, v);
}

#[test]
fn parser_refuses_what_is_not_canonical() {
    assert!(parse_canonical("").is_none());
    assert!(parse_canonical("{\"a\":01}").is_none());
    assert!(parse_canonical("{\"a\":-0}").is_none());
    assert!(parse_canonical("{\"a\":1,}").is_none());
    assert!(parse_canonical("{\"b\":1,\"a\":2}").is_none());
    assert!(parse_canonical("{\"a\": 1}").is_none());
    assert!(parse_canonical("nope").is_none());
    assert!(parse_canonical("{\"a\":1}garbage").is_none());
}

#[test]
fn integrity_tag_is_lowercase_hex_of_a_wide_digest() {
    let doc = obj(vec![("id", s("a")), ("role", s("user"))]);
    let stamped = ridb::integrity::IntegrityPlugin {}.add_integrity(&doc).unwrap();
    let tag = match &stamped {
        Value::Obj(fields) => match ridb::value::obj_get_value(fields, "__integrity") {
            Some(Value::Str(t)) => t.clone(),
            _ => panic!("a stamped document carries a string tag"),
        },
        _ => panic!("a stamped document is an object"),
    };
    assert_eq!(tag.len(), 128);
    assert!(tag.chars().all(|c| c.is_ascii_hexdigit() && !c.is_ascii_uppercase()));
    // Re-stamping leaves the tag alone; a changed field changes it.
    let again = ridb::integrity::IntegrityPlugin {}.add_integrity(&stamped).unwrap();
    assert_eq!(again, stamped);
    let other = ridb::integrity::IntegrityPlugin {}.add_integrity(&obj(vec![("id", s("b"))])).unwrap();
    match (&again, &other) {
        (Value::Obj(a), Value::Obj(b)) => {
            assert_ne!(
                ridb::value::obj_get_value(a, "__integrity"),
                ridb::value::obj_get_value(b, "__integrity")
            );
        }
        _ => panic!("stamped documents are objects"),
    }
    // Verification accepts the stamped form and refuses a tampered tag.
    assert!(ridb::integrity::IntegrityPlugin {}.check_integrity(&stamped).is_ok());
    let mut bad = stamped.deep_copy();
    match &mut bad {
        Value::Obj(fields) => obj_set_value(fields, "__integrity", s("00")),
        _ => panic!(),
    }
    assert_eq!(
        ridb::integrity::IntegrityPlugin {}.check_integrity(&bad).unwrap_err().message,
        "Integrity check failed"
    );
}

#[test]
fn error_constructors_carry_their_codes() {
    let e = RIDBError::error("boom");
    assert_eq!(e.code, Errors::Error);
    assert_eq!(e.message, "Serialization Error: boom");
    let v = RIDBError::validation("boom");
    assert_eq!(v.code, Errors::ValidationError);
    assert_eq!(v.message, "Validation Error: boom");
    let ser = RIDBError::serialisation("boom");
    assert_eq!(ser.code, Errors::SerializationError);
    assert_eq!(ser.message, "Error: boom");
}

#[test]
fn schema_getters_echo_the_definition() {
    let def = obj(vec![
        ("version", Value::Int(1)),
        ("primaryKey", s("id")),
        ("type", s("object")),
        ("required", Value::Arr(vec![s("id")])),
        ("properties", obj(vec![("id", obj(vec![("type", s("string"))]))])),
    ]);
    let schema = ridb::schema::Schema::create(&def).unwrap();
    assert_eq!(schema.get_version(), 1);
    assert_eq!(schema.get_primary_key(), "id");
    assert_eq!(schema.get_schema_type(), "object");
    assert_eq!(schema.get_required().as_ref().unwrap(), &vec!["id".to_string()]);
    assert!(schema.get_encrypted().is_none());
    assert!(schema.get_indexes().is_none());
    assert_eq!(schema.get_properties().len(), 1);
    assert!(schema.is_valid().unwrap());
}

#[test]
fn invalid_schemas_are_refused() {
    let bad_type = obj(vec![
        ("version", Value::Int(1)),
        ("primaryKey", s("id")),
        ("type", s("invalid")),
        ("properties", obj(vec![("id", obj(vec![("type", s("string"))]))])),
    ]);
    assert!(ridb::schema::Schema::create(&bad_type).is_err());
    let bad_prop = obj(vec![
        ("version", Value::Int(1)),
        ("primaryKey", s("id")),
        ("type", s("object")),
        (
            "properties",
            obj(vec![(
                "id",
                obj(vec![
                    ("type", s("string")),
                    ("minLength", Value::Int(20)),
                    ("maxLength", Value::Int(10)),
                ]),
            )]),
        ),
    ]);
    assert!(ridb::schema::Schema::create(&bad_prop).is_err());
}

#[test]
fn required_fields_must_be_present_with_their_types() {
    let def = obj(vec![
        ("version", Value::Int(1)),
        ("primaryKey", s("id")),
        ("type", s("object")),
        ("required", Value::Arr(vec![s("id"), s("name")])),
        (
            "properties",
            obj(vec![
                ("id", obj(vec![("type", s("string"))])),
                ("name", obj(vec![("type", s("string"))])),
                ("age", obj(vec![("type", s("number"))])),
            ]),
        ),
    ]);
    let schema = ridb::schema::Schema::create(&def).unwrap();
    let ok = obj(vec![("id", s("1")), ("name", s("n"))]);
    assert!(schema.validate_schema(&ok).is_ok());
    let missing = obj(vec![("id", s("1"))]);
    assert!(schema.validate_schema(&missing).is_err());
    let wrong_type = obj(vec![("id", s("1")), ("name", s("n")), ("age", s("old"))]);
    assert!(schema.validate_schema(&wrong_type).is_err());
}
