//! End-to-end scenarios over the database engine.

use ridb::database::Database;
use ridb::error::{Errors, RIDBError};
use ridb::migration::{Migrations, NoMigrations};
use ridb::value::{obj_set_value, Value};

fn obj(fields: Vec<(&str, Value)>) -> Value {
    let mut out: Vec<(String, Value)> = Vec::new();
    for (k, v) in fields {
        obj_set_value(&mut out, k, v);
    }
    Value::Obj(out)
}

fn s(text: &str) -> Value {
    Value::Str(text.to_string())
}

fn get<'a>(doc: &'a Value, key: &str) -> Option<&'a Value> {
    match doc {
        Value::Obj(fields) => ridb::value::obj_get_value(fields, key),
        _ => None,
    }
}

fn string_prop() -> Value {
    obj(vec![("type", s("string"))])
}

fn defaults_schema() -> Value {
    obj(vec![
        ("version", Value::Int(0)),
        ("primaryKey", s("id")),
        ("type", s("object")),
        (
            "properties",
            obj(vec![
                ("id", string_prop()),
                ("role", obj(vec![("type", s("string")), ("default", s("user"))])),
            ]),
        ),
    ])
}

fn no_migrations(collection: &str) -> Vec<(String, NoMigrations)> {
    vec![(collection.to_string(), NoMigrations {})]
}

#[test]
fn defaults_fill_unset_fields() {
    let defs = vec![("users".to_string(), defaults_schema())];
    let mut db = Database::create("defaults_db", &defs, no_migrations("users"), None).unwrap();
    db.collection("users").unwrap().create(&obj(vec![("id", s("a"))])).unwrap();
    let stored = db.collection("users").unwrap().find_by_id(&s("a")).unwrap();
    assert_eq!(get(&stored, "role"), Some(&s("user")));
    assert_eq!(get(&stored, "id"), Some(&s("a")));
}

#[test]
fn integrity_tamper_is_detected() {
    let defs = vec![("users".to_string(), defaults_schema())];
    let mut db = Database::create("tamper_db", &defs, no_migrations("users"), None).unwrap();
    db.collection("users").unwrap().create(&obj(vec![("id", s("a"))])).unwrap();
    // Flip a stored field without refreshing the integrity tag.
    {
        let table = &mut db.storage.internal.by_index[0].1;
        let doc = &mut table[0].1;
        match doc {
            Value::Obj(fields) => obj_set_value(fields, "role", s("admin")),
            _ => panic!("stored document should be an object"),
        }
    }
    let users = db.collection("users").unwrap();
    let result = users.find_by_id(&s("a"));
    match result {
        Ok(_) => panic!("tampered document must be refused"),
        Err(e) => {
            assert_eq!(e.message, "Integrity check failed");
            assert_eq!(e.code, Errors::Error);
        }
    }
}

fn encrypted_schema() -> Value {
    obj(vec![
        ("version", Value::Int(0)),
        ("primaryKey", s("id")),
        ("type", s("object")),
        ("encrypted", Value::Arr(vec![s("secret")])),
        (
            "properties",
            obj(vec![("id", string_prop()), ("secret", string_prop())]),
        ),
    ])
}

#[test]
fn encryption_hides_and_restores_fields() {
    let defs = vec![("vault".to_string(), encrypted_schema())];
    let mut db =
        Database::create("enc_db", &defs, no_migrations("vault"), Some("pw".to_string())).unwrap();
    db.collection("vault")
        .unwrap()
        .create(&obj(vec![("id", s("a")), ("secret", s("x"))]))
        .unwrap();
    // The backend record holds no plaintext, only the blob.
    let stored = db.storage.internal.by_index[0].1[0].1.deep_copy();
    assert!(get(&stored, "secret").is_none());
    assert!(get(&stored, "__encrypted").is_some());
    // Recovery restores the field.
    {
        let vault = db.collection("vault").unwrap();
        let recovered = vault.find_by_id(&s("a")).unwrap();
        assert_eq!(get(&recovered, "secret"), Some(&s("x")));
    }
    // A different password cannot open the blob.
    let mut db2 =
        Database::create("enc_db2", &defs, no_migrations("vault"), Some("pw2".to_string())).unwrap();
    db2.storage
        .internal
        .by_index
        .push(("pk_vault_id".to_string(), vec![("a".to_string(), stored)]));
    let vault2 = db2.collection("vault").unwrap();
    let result = vault2.find_by_id(&s("a"));
    match result {
        Ok(_) => panic!("a wrong password must be refused"),
        Err(e) => assert_eq!(e.message, "Decryption failed"),
    }
}

#[test]
fn two_blobs_for_one_document_differ() {
    // The salt and nonce are drawn fresh for every write.
    let schema_def = encrypted_schema();
    let schema = ridb::schema::Schema::create(&schema_def).unwrap();
    let doc = obj(vec![("id", s("a")), ("secret", s("x"))]);
    let plugin = ridb::encryption::EncryptionPlugin::new("pw".to_string()).unwrap();
    let one =
        ridb::encryption::encrypt_single_document(&schema, &plugin.password, &doc).unwrap();
    let two =
        ridb::encryption::encrypt_single_document(&schema, &plugin.password, &doc).unwrap();
    assert_ne!(get(&one, "__encrypted"), get(&two, "__encrypted"));
    // Both decrypt back to the same fields.
    let back = ridb::encryption::decrypt_single_document(&schema, "pw", &one).unwrap();
    assert_eq!(get(&back, "secret"), Some(&s("x")));
}

#[test]
fn encrypted_field_missing_from_document_is_permitted() {
    let defs = vec![("vault".to_string(), encrypted_schema())];
    let mut db =
        Database::create("enc_db3", &defs, no_migrations("vault"), Some("pw".to_string())).unwrap();
    db.collection("vault").unwrap().create(&obj(vec![("id", s("a"))])).unwrap();
    let stored = db.storage.internal.by_index[0].1[0].1.deep_copy();
    assert!(get(&stored, "__encrypted").is_none());
    let vault = db.collection("vault").unwrap();
    let recovered = vault.find_by_id(&s("a")).unwrap();
    assert_eq!(get(&recovered, "id"), Some(&s("a")));
}

#[test]
fn primary_key_is_not_encryptable() {
    let bad = obj(vec![
        ("version", Value::Int(0)),
        ("primaryKey", s("id")),
        ("type", s("object")),
        ("encrypted", Value::Arr(vec![s("id")])),
        ("properties", obj(vec![("id", string_prop())])),
    ]);
    let defs = vec![("vault".to_string(), bad)];
    let result = Database::create(
        "enc_db4",
        &defs,
        no_migrations("vault"),
        Some("pw".to_string()),
    );
    assert!(result.is_err());
}

struct FlagMigrations;

impl Migrations for FlagMigrations {
    fn has(&self, _version: i32) -> bool {
        false
    }

    fn apply_spec(&self, _version: i32, doc: ridb::value::Val) -> ridb::value::Val {
        doc
    }

    fn has_migration(&self, version: i32) -> bool {
        version >= 1 && version <= 3
    }

    fn apply(&self, version: i32, doc: &Value) -> Result<Value, RIDBError> {
        let mut out = doc.deep_copy();
        match &mut out {
            Value::Obj(fields) => {
                if version == 2 {
                    obj_set_value(fields, "v2", Value::Bool(true));
                }
                if version == 3 {
                    obj_set_value(fields, "v3", Value::Bool(true));
                }
            }
            _ => {}
        }
        Ok(out)
    }
}

#[test]
fn migration_chain_upgrades_old_documents() {
    let schema = obj(vec![
        ("version", Value::Int(3)),
        ("primaryKey", s("id")),
        ("type", s("object")),
        ("properties", obj(vec![("id", string_prop())])),
    ]);
    let defs = vec![("docs".to_string(), schema)];
    let migrations = vec![("docs".to_string(), FlagMigrations)];
    let mut db = Database::create("mig_db", &defs, migrations, None).unwrap();
    // A record written before the upgrade, stored with its tag.
    let old_doc = obj(vec![("id", s("a")), ("__version", Value::Int(1))]);
    let stored = ridb::integrity::IntegrityPlugin {}.add_integrity(&old_doc).unwrap();
    db.storage
        .internal
        .by_index
        .push(("pk_docs_id".to_string(), vec![("a".to_string(), stored)]));
    let docs = db.collection("docs").unwrap();
    let upgraded = docs.find_by_id(&s("a")).unwrap();
    assert_eq!(get(&upgraded, "v2"), Some(&Value::Bool(true)));
    assert_eq!(get(&upgraded, "v3"), Some(&Value::Bool(true)));
    assert_eq!(get(&upgraded, "__version"), Some(&Value::Int(3)));
}

#[test]
fn missing_migration_fails_construction() {
    let schema = obj(vec![
        ("version", Value::Int(3)),
        ("primaryKey", s("id")),
        ("type", s("object")),
        ("properties", obj(vec![("id", string_prop())])),
    ]);
    let defs = vec![("docs".to_string(), schema)];
    let result = Database::create("mig_db2", &defs, no_migrations("docs"), None);
    assert!(result.is_err());
}

#[test]
fn delete_and_write_enforce_the_primary_key() {
    let defs = vec![("users".to_string(), defaults_schema())];
    let mut db = Database::create("pk_db", &defs, no_migrations("users"), None).unwrap();
    // Deleting a missing document fails.
    assert!(db.collection("users").unwrap().delete(&s("a")).is_err());
    db.collection("users").unwrap().create(&obj(vec![("id", s("a"))])).unwrap();
    // Writes are upserts: a second create of the same key lands as an update.
    db.collection("users").unwrap().create(&obj(vec![("id", s("a"))])).unwrap();
    db.collection("users").unwrap().delete(&s("a")).unwrap();
    assert!(db.collection("users").unwrap().delete(&s("a")).is_err());
    // A document without its primary key is refused.
    assert!(db.collection("users").unwrap().create(&obj(vec![("role", s("x"))])).is_err());
}

#[test]
fn close_drops_all_contents() {
    let defs = vec![("users".to_string(), defaults_schema())];
    let mut db = Database::create("close_db", &defs, no_migrations("users"), None).unwrap();
    db.start().unwrap();
    assert!(db.started());
    assert!(db.start().is_err());
    db.collection("users").unwrap().create(&obj(vec![("id", s("a"))])).unwrap();
    db.close().unwrap();
    assert!(!db.started());
    db.start().unwrap();
    let users = db.collection("users").unwrap();
    assert_eq!(users.find_by_id(&s("a")).unwrap(), Value::Null);
}

#[test]
fn collections_lists_every_name() {
    let defs = vec![
        ("alpha".to_string(), defaults_schema()),
        ("beta".to_string(), defaults_schema()),
    ];
    let migrations = vec![
        ("alpha".to_string(), NoMigrations {}),
        ("beta".to_string(), NoMigrations {}),
    ];
    let db = Database::create("names_db", &defs, migrations, None).unwrap();
    let names = db.collections();
    assert_eq!(names, vec!["alpha".to_string(), "beta".to_string()]);
}

#[test]
fn duplicate_collection_names_are_refused() {
    let defs = vec![
        ("users".to_string(), defaults_schema()),
        ("users".to_string(), defaults_schema()),
    ];
    let migrations = vec![
        ("users".to_string(), NoMigrations {}),
        ("users".to_string(), NoMigrations {}),
    ];
    let result = Database::create("dup_db", &defs, migrations, None);
    assert_eq!(result.unwrap_err().message, "Validation Error: Duplicate collection name");
}

#[test]
fn missing_migration_step_is_named_on_recover() {
    let def = obj(vec![
        ("version", Value::Int(1)),
        ("primaryKey", s("id")),
        ("type", s("object")),
        ("properties", obj(vec![("id", string_prop())])),
    ]);
    let schema = ridb::schema::Schema::create(&def).unwrap();
    let doc = obj(vec![("id", s("a")), ("__version", Value::Int(0))]);
    let err = ridb::migration::MigrationPlugin {}
        .recover_hook(&schema, &NoMigrations {}, &doc)
        .unwrap_err();
    assert_eq!(err.message, "Migrating function 1 to schema version not found");
}
