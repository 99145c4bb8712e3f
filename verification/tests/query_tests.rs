//! Query normalization, validation, evaluation, and the backend scan.

use ridb::eval::CoreStorage;
use ridb::inmemory::InMemory;
use ridb::operation::{OpType, Operation};
use ridb::query::{normalize_query, Query};
use ridb::schema::Schema;
use ridb::value::{obj_set_value, Value};

fn obj(fields: Vec<(&str, Value)>) -> Value {
    let mut out: Vec<(String, Value)> = Vec::new();
    for (k, v) in fields {
        obj_set_value(&mut out, k, v);
    }
    Value::Obj(out)
}

fn s(text: &str) -> Value {
    Value::Str(text.to_string())
}

fn get<'a>(doc: &'a Value, key: &str) -> Option<&'a Value> {
    match doc {
        Value::Obj(fields) => ridb::value::obj_get_value(fields, key),
        _ => None,
    }
}

fn people_schema() -> Schema {
    let def = obj(vec![
        ("version", Value::Int(1)),
        ("primaryKey", s("id")),
        ("type", s("object")),
        (
            "properties",
            obj(vec![
                ("id", obj(vec![("type", s("string"))])),
                ("status", obj(vec![("type", s("string"))])),
                ("age", obj(vec![("type", s("number"))])),
            ]),
        ),
    ]);
    Schema::create(&def).unwrap()
}

fn canon_text(v: &Value) -> String {
    ridb::canon::to_canonical_chars(v).into_iter().collect()
}

#[test]
fn normalization_wraps_attributes_under_and() {
    let q = obj(vec![("id", s("123")), ("name", s("Alice"))]);
    let normalized = normalize_query(&q).unwrap();
    assert_eq!(
        canon_text(&normalized),
        "{\"$and\":[{\"id\":\"123\"},{\"name\":\"Alice\"}]}"
    );
}

#[test]
fn normalization_keeps_single_conditions_bare() {
    let q = obj(vec![("id", s("123"))]);
    let normalized = normalize_query(&q).unwrap();
    assert_eq!(canon_text(&normalized), "{\"id\":\"123\"}");
}

#[test]
fn normalization_recurses_into_logical_lists() {
    let inner = obj(vec![
        ("age", obj(vec![("$gt", Value::Int(30))])),
        ("status", s("active")),
    ]);
    let q = obj(vec![("$or", Value::Arr(vec![inner]))]);
    let normalized = normalize_query(&q).unwrap();
    assert_eq!(
        canon_text(&normalized),
        "{\"$or\":[{\"$and\":[{\"age\":{\"$gt\":30}},{\"status\":\"active\"}]}]}"
    );
}

#[test]
fn normalization_is_idempotent_on_a_sample() {
    let q = obj(vec![
        ("id", s("123")),
        (
            "$or",
            Value::Arr(vec![
                obj(vec![("age", obj(vec![("$gt", Value::Int(30))]))]),
                obj(vec![("age", obj(vec![("$lt", Value::Int(20))]))]),
            ]),
        ),
    ]);
    let once = normalize_query(&q).unwrap();
    let twice = normalize_query(&once).unwrap();
    assert_eq!(canon_text(&once), canon_text(&twice));
}

#[test]
fn normalization_refuses_non_array_logical_operators() {
    let q = obj(vec![("$and", s("not-an-array"))]);
    assert!(normalize_query(&q).is_err());
}

#[test]
fn parse_accepts_valid_queries_unchanged() {
    let schema = people_schema();
    let q = obj(vec![
        ("id", s("12345")),
        ("age", obj(vec![("$gt", Value::Int(30))])),
    ]);
    let query = Query::new(q.deep_copy(), &schema).unwrap();
    let parsed = query.parse().unwrap();
    assert_eq!(canon_text(&parsed), canon_text(&q));
}

#[test]
fn parse_refuses_unknown_properties() {
    let schema = people_schema();
    let query = Query::new(obj(vec![("foo", Value::Int(1))]), &schema).unwrap();
    let result = query.parse();
    match result {
        Ok(_) => panic!("an unknown property must be refused"),
        Err(e) => {
            assert_eq!(e.message, "Invalid property: foo");
            assert_eq!(e.code, ridb::error::Errors::ValidationError);
        }
    }
}

#[test]
fn parse_refuses_unknown_operators_and_wrong_types() {
    let schema = people_schema();
    let q1 = Query::new(obj(vec![("age", obj(vec![("$unknown", Value::Int(1))]))]), &schema)
        .unwrap();
    assert_eq!(q1.parse().unwrap_err().message, "Invalid operator: $unknown");
    let q2 = Query::new(obj(vec![("age", s("thirty"))]), &schema).unwrap();
    assert_eq!(q2.parse().unwrap_err().message, "Expected a number");
    let q3 = Query::new(obj(vec![("status", Value::Int(4))]), &schema).unwrap();
    assert_eq!(q3.parse().unwrap_err().message, "Expected a string");
    let q4 = Query::new(obj(vec![("status", obj(vec![("$in", s("x"))]))]), &schema).unwrap();
    assert_eq!(q4.parse().unwrap_err().message, "$in operator requires an array");
}

#[test]
fn parse_accepts_empty_and_logical_queries() {
    let schema = people_schema();
    assert!(Query::new(obj(vec![]), &schema).unwrap().parse().is_ok());
    let q = obj(vec![("$and", Value::Arr(vec![]))]);
    assert!(Query::new(q, &schema).unwrap().parse().is_ok());
    let q2 = obj(vec![(
        "$and",
        Value::Arr(vec![
            obj(vec![("status", s("active"))]),
            obj(vec![("age", obj(vec![("$gte", Value::Int(25))]))]),
        ]),
    )]);
    assert!(Query::new(q2, &schema).unwrap().parse().is_ok());
}

#[test]
fn evaluator_applies_operators_and_equality() {
    let core = CoreStorage {};
    let doc = obj(vec![("age", Value::Int(35)), ("status", s("active"))]);
    let q = obj(vec![
        ("age", obj(vec![("$gt", Value::Int(30)), ("$lt", Value::Int(40))])),
        ("status", s("active")),
    ]);
    assert!(core.document_matches_query(&doc, &q).unwrap());
    let q2 = obj(vec![("age", obj(vec![("$gte", Value::Int(36))]))]);
    assert!(!core.document_matches_query(&doc, &q2).unwrap());
    let q3 = obj(vec![("status", obj(vec![("$in", Value::Arr(vec![s("active"), s("x")]))]))]);
    assert!(core.document_matches_query(&doc, &q3).unwrap());
    // An empty $and holds, an empty $or does not.
    let and_empty = obj(vec![("$and", Value::Arr(vec![]))]);
    assert!(core.document_matches_query(&doc, &and_empty).unwrap());
    let or_empty = obj(vec![("$or", Value::Arr(vec![]))]);
    assert!(!core.document_matches_query(&doc, &or_empty).unwrap());
    // The empty query matches everything.
    assert!(core.document_matches_query(&doc, &obj(vec![])).unwrap());
    // Comparing a missing field never matches.
    let q4 = obj(vec![("height", obj(vec![("$gt", Value::Int(1))]))]);
    assert!(!core.document_matches_query(&doc, &q4).unwrap());
}

#[test]
fn evaluator_agrees_with_the_normal_form() {
    let core = CoreStorage {};
    let doc = obj(vec![("age", Value::Int(35)), ("status", s("active"))]);
    let q = obj(vec![
        ("status", s("active")),
        (
            "$or",
            Value::Arr(vec![
                obj(vec![("age", obj(vec![("$gt", Value::Int(30))]))]),
                obj(vec![("age", obj(vec![("$lt", Value::Int(10))]))]),
            ]),
        ),
    ]);
    let n = normalize_query(&q).unwrap();
    assert_eq!(
        core.document_matches_query(&doc, &q).unwrap(),
        core.document_matches_query(&doc, &n).unwrap()
    );
}

fn seeded_backend() -> InMemory {
    let def = obj(vec![
        ("version", Value::Int(1)),
        ("primaryKey", s("id")),
        ("type", s("object")),
        (
            "properties",
            obj(vec![
                ("id", obj(vec![("type", s("string"))])),
                ("status", obj(vec![("type", s("string"))])),
                ("age", obj(vec![("type", s("number"))])),
            ]),
        ),
    ]);
    let schema = Schema::create(&def).unwrap();
    let mut backend = InMemory::create("scan_db", vec![("demo".to_string(), schema)]);
    let docs = vec![
        obj(vec![("id", s("1")), ("status", s("active")), ("age", Value::Int(30))]),
        obj(vec![("id", s("2")), ("status", s("active")), ("age", Value::Int(35))]),
        obj(vec![("id", s("3")), ("status", s("inactive")), ("age", Value::Int(40))]),
    ];
    for d in docs {
        let op = Operation {
            collection: "demo".to_string(),
            op_type: OpType::CREATE,
            data: d,
            indexes: vec![],
        };
        backend.write(&op).unwrap();
    }
    backend
}

#[test]
fn find_returns_exactly_the_matching_documents() {
    let backend = seeded_backend();
    let q = obj(vec![("status", s("active")), ("age", obj(vec![("$gt", Value::Int(30))]))]);
    let found = backend.find("demo", &q).unwrap();
    assert_eq!(found.len(), 1);
    assert_eq!(get(&found[0], "id"), Some(&s("2")));
    assert_eq!(backend.count("demo", &q).unwrap(), 1);
    let all = backend.find("demo", &obj(vec![])).unwrap();
    assert_eq!(all.len(), 3);
}

#[test]
fn backend_write_enforces_the_primary_key_discipline() {
    let mut backend = seeded_backend();
    // A second create under a stored key fails.
    let dup = Operation {
        collection: "demo".to_string(),
        op_type: OpType::CREATE,
        data: obj(vec![("id", s("1")), ("status", s("x")), ("age", Value::Int(1))]),
        indexes: vec![],
    };
    assert!(backend.write(&dup).is_err());
    // An update under an unknown key fails.
    let upd = Operation {
        collection: "demo".to_string(),
        op_type: OpType::UPDATE,
        data: obj(vec![("id", s("9")), ("status", s("x")), ("age", Value::Int(1))]),
        indexes: vec![],
    };
    assert!(backend.write(&upd).is_err());
    // A delete under an unknown key fails; under a stored one it lands.
    let del_missing = Operation {
        collection: "demo".to_string(),
        op_type: OpType::DELETE,
        data: s("9"),
        indexes: vec![],
    };
    assert!(backend.write(&del_missing).is_err());
    let del = Operation {
        collection: "demo".to_string(),
        op_type: OpType::DELETE,
        data: s("1"),
        indexes: vec![],
    };
    backend.write(&del).unwrap();
    assert!(backend.find_document_by_id("demo", &s("1")).is_err());
}

#[test]
fn unknown_collections_are_refused() {
    let backend = seeded_backend();
    assert!(backend.find("nope", &obj(vec![])).is_err());
    assert!(backend.count("nope", &obj(vec![])).is_err());
    assert!(backend.find_document_by_id("nope", &s("1")).is_err());
}

#[test]
fn parse_refuses_malformed_query_shapes() {
    let schema = people_schema();
    let q1 = Query::new(s("not an object"), &schema).unwrap();
    assert_eq!(q1.parse().unwrap_err().message, "Query must be an object");
    let q2 = Query::new(obj(vec![("$and", s("x"))]), &schema).unwrap();
    assert_eq!(q2.parse().unwrap_err().message, "$and must be an array");
    let q3 = Query::new(obj(vec![("$or", Value::Int(2))]), &schema).unwrap();
    assert_eq!(q3.parse().unwrap_err().message, "$or must be an array");
    // The first failing member of a logical list names the fault.
    let q4 = Query::new(
        obj(vec![("$and", Value::Arr(vec![obj(vec![("nope", Value::Int(1))])]))]),
        &schema,
    )
    .unwrap();
    assert_eq!(q4.parse().unwrap_err().message, "Invalid property: nope");
}

#[test]
fn evaluator_names_an_unsupported_operator() {
    let core = CoreStorage {};
    let doc = obj(vec![("age", Value::Int(35))]);
    let q = obj(vec![("age", obj(vec![("$near", Value::Int(1))]))]);
    assert_eq!(
        core.document_matches_query(&doc, &q).unwrap_err().message,
        "Unsupported operator: $near"
    );
}
