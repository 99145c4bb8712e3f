//! The storage facade: schemas, the hook chain, and the backend.
//!
//! Writes run the create chain (defaults, version stamp, integrity tag,
//! and, with a password, encryption) and then reach the backend; reads run
//! the inverse chain. The facade enforces the primary-key discipline and
//! document validation before anything reaches the backend.

use vstd::prelude::*;

use crate::defaults::defaults_fields;
use crate::error::{Errors, RIDBError};
use crate::inmemory::{schema_of, InMemory};
use crate::integrity::{integrity_tag, obj_get_tag, with_integrity};
use crate::migration::{migrate_chain, stamped, version_of, Migrations};
use crate::operation::{OpType, Operation};
use crate::property::PropertyType;
use crate::schema::{doc_conforms, Schema};
use crate::value::{obj_get, obj_insert, Val, Value};

verus! {

/// Which direction the hook chain runs.
#[derive(Clone, Copy, Debug, PartialEq, Eq, Structural)]
pub enum HookType {
    Create,
    Recover,
}

/// The migration set bound to a collection name, scanning in order.
pub open spec fn migration_of<M>(ms: Seq<(String, M)>, name: Seq<char>) -> Option<M>
    decreases ms.len(),
{
    if ms.len() == 0 {
        None
    } else if ms[0].0@ == name {
        Some(ms[0].1)
    } else {
        migration_of(ms.subrange(1, ms.len() as int), name)
    }
}

/// The document after the password-less part of the create chain:
/// defaults filled, version stamped, integrity tag set.
pub open spec fn plain_create_chain(s: Schema, d: Val) -> Val {
    with_integrity(stamped(s, Val::Obj(defaults_fields(s.properties@, d->Obj_0))))
}

/// A document the facade accepts for a write: an object that carries its
/// primary key, non-null and of the declared type, and conforms to the
/// schema.
pub open spec fn write_accepted(s: Schema, d: Val) -> bool {
    &&& d is Obj
    &&& doc_conforms(s, d)
    &&& match obj_get(d->Obj_0, s.primary_key@) {
        Some(pkv) => pkv != Val::Null && crate::query::prop_type_of(
            s.properties@,
            s.primary_key@,
        ) is Some && crate::schema::type_matches(
            crate::query::prop_type_of(s.properties@, s.primary_key@)->0,
            pkv,
        ),
        None => false,
    }
}

/// Represents the storage system: per-collection migrations, the optional
/// password, and the backend, which holds the parsed schemas.
#[derive(Debug)]
pub struct Storage<M> {
    pub internal: InMemory,
    pub migrations: Vec<(String, M)>,
    pub password: Option<String>,
}

/// Looks a collection's migration set up.
#[verifier::loop_isolation(false)]
pub fn find_migration<'a, M>(ms: &'a Vec<(String, M)>, name: &str) -> (r: Option<&'a M>)
    ensures
        match r {
            Some(m) => migration_of(ms@, name@) == Some(*m),
            None => migration_of(ms@, name@) is None,
        },
{
    proof {
        assert(ms@.subrange(0, ms@.len() as int) =~= ms@);
    }
    let mut i: usize = 0;
    loop
        invariant
            i <= ms@.len(),
            migration_of(ms@, name@) == migration_of(
                ms@.subrange(i as int, ms@.len() as int),
                name@,
            ),
        decreases ms@.len() - i,
    {
        proof {
            if i < ms@.len() {
                assert(ms@.subrange(i as int, ms@.len() as int)[0] == ms@[i as int]);
                assert(ms@.subrange(i as int, ms@.len() as int).subrange(
                    1,
                    ms@.len() - i,
                ) =~= ms@.subrange(i + 1, ms@.len() as int));
            }
        }
        if i >= ms.len() {
            return None;
        }
        if crate::value::str_eq(ms[i].0.as_str(), name) {
            return Some(&ms[i].1);
        }
        i = i + 1;
    }
}

/// A runtime value matches a declared type, as backends read it: booleans
/// accept anything truthy or falsy, which is everything.
pub open spec fn storage_type_matches(t: PropertyType, v: Val) -> bool {
    match t {
        PropertyType::String => v is Str,
        PropertyType::Number => v is Int,
        PropertyType::Boolean => true,
        PropertyType::Object => v is Obj,
        PropertyType::Array => v is Arr,
    }
}

impl<M: Migrations> Storage<M> {
    /// Bundles migrations, a password, and a backend holding the schemas.
    pub fn create(
        migrations: Vec<(String, M)>,
        password: Option<String>,
        internal: InMemory,
    ) -> (r: Result<Storage<M>, RIDBError>)
        ensures
            r is Ok,
            r->Ok_0.migrations == migrations,
            r->Ok_0.password == password,
            r->Ok_0.internal == internal,
    {
        Ok(Storage { internal, migrations, password })
    }

    /// The schema of a collection.
    pub fn get_schema<'a>(&'a self, collection_name: &str) -> (r: Result<&'a Schema, RIDBError>)
        ensures
            r is Ok <==> schema_of(self.internal.schemas@, collection_name@) is Some,
            r is Ok ==> Some(*r->Ok_0) == schema_of(self.internal.schemas@, collection_name@),
    {
        match crate::inmemory::find_schema(&self.internal.schemas, collection_name) {
            Some(s) => Ok(s),
            None => Err(RIDBError::error("Invalid collection, not found")),
        }
    }

    /// The migration set of a collection.
    pub fn get_migration<'a>(&'a self, collection_name: &str) -> (r: Result<&'a M, RIDBError>)
        ensures
            r is Ok <==> migration_of(self.migrations@, collection_name@) is Some,
            r is Ok ==> Some(*r->Ok_0) == migration_of(self.migrations@, collection_name@),
    {
        match find_migration(&self.migrations, collection_name) {
            Some(m) => Ok(m),
            None => Err(RIDBError::error("Invalid collection, not found")),
        }
    }

    /// Whether a value matches a declared type, as backends read it.
    pub fn is_type_correct(&self, value: &Value, prop_type: PropertyType) -> (r: bool)
        ensures
            r == storage_type_matches(prop_type, value@),
    {
        match prop_type {
            PropertyType::String => matches!(value, Value::Str(_)),
            PropertyType::Number => matches!(value, Value::Int(_)),
            PropertyType::Object => matches!(value, Value::Obj(_)),
            PropertyType::Array => matches!(value, Value::Arr(_)),
            PropertyType::Boolean => true,
        }
    }

    /// Checks that the document carries its primary key with the declared
    /// type; the engine never invents one.
    pub fn ensure_primary_key(&self, collection_name: &str, document: &Value) -> (r: Result<
        (),
        RIDBError,
    >)
        ensures
            r is Ok ==> schema_of(self.internal.schemas@, collection_name@) is Some,
            r is Ok ==> document@ is Obj,
            ({
                let sopt = schema_of(self.internal.schemas@, collection_name@);
                sopt matches Some(schema) ==> {
                    let pk = obj_get(
                        if document@ is Obj {
                            document@->Obj_0
                        } else {
                            Seq::empty()
                        },
                        schema.primary_key@,
                    );
                    &&& r is Ok <==> document@ is Obj && pk is Some && pk->0 != Val::Null
                        && crate::query::prop_type_of(
                        schema.properties@,
                        schema.primary_key@,
                    ) is Some && crate::schema::type_matches(
                        crate::query::prop_type_of(schema.properties@, schema.primary_key@)->0,
                        pk->0,
                    )
                }
            }),
    {
        let schema = match self.get_schema(collection_name) {
            Ok(s) => s,
            Err(e) => {
                return Err(e);
            },
        };
        let fields = match document {
            Value::Obj(fields) => fields,
            _ => {
                return Err(RIDBError::validation("Document must be an object"));
            },
        };
        let pk_type = match crate::query::find_prop_type(schema, schema.primary_key.as_str()) {
            Some(t) => t,
            None => {
                return Err(RIDBError::validation("Invalid Schema cannot find primaryKey field"));
            },
        };
        match crate::value::obj_get_value(fields, schema.primary_key.as_str()) {
            Some(Value::Null) => Err(RIDBError::validation("A primary key is required")),
            Some(v) => {
                if crate::schema::is_type_correct(v, pk_type) {
                    Ok(())
                } else {
                    Err(RIDBError::validation("Unexpected primary key type"))
                }
            },
            None => Err(RIDBError::validation("A primary key is required")),
        }
    }

    /// Validates a document: the primary key must be present with its
    /// declared type, and the document must conform to the schema.
    pub fn validate_schema(&self, collection_name: &str, document: &Value) -> (r: Result<
        Value,
        RIDBError,
    >)
        ensures
            r is Ok ==> r->Ok_0@ == document@,
            r is Ok <==> schema_of(self.internal.schemas@, collection_name@) is Some
                && write_accepted(
                schema_of(self.internal.schemas@, collection_name@)->0,
                document@,
            ),
    {
        match self.ensure_primary_key(collection_name, document) {
            Ok(()) => {},
            Err(e) => {
                return Err(e);
            },
        }
        let schema = match self.get_schema(collection_name) {
            Ok(s) => s,
            Err(e) => {
                return Err(e);
            },
        };
        match schema.validate_schema(document) {
            Ok(()) => Ok(document.deep_copy()),
            Err(e) => Err(e),
        }
    }

    /// Runs the hook chain over one document: defaults, version stamp and
    /// integrity tag on create (with encryption outermost when a password
    /// is set), and the inverse order on recover.
    pub fn call(&self, collection_name: &str, hook_type: HookType, doc: &Value) -> (r: Result<
        Value,
        RIDBError,
    >)
        ensures
            schema_of(self.internal.schemas@, collection_name@) is None ==> r is Err,
            migration_of(self.migrations@, collection_name@) is None ==> r is Err,
            ({
                let sopt = schema_of(self.internal.schemas@, collection_name@);
                sopt matches Some(schema) ==> {
                    &&& (hook_type == HookType::Create && doc@ is Obj && self.password is None
                        && migration_of(self.migrations@, collection_name@) is Some) ==> r is Ok
                        && r->Ok_0@ == plain_create_chain(schema, doc@)
                    &&& (hook_type == HookType::Recover && self.password is None
                        && migration_of(self.migrations@, collection_name@) is Some
                        && obj_get_tag(doc@) == Some(integrity_tag(doc@))) ==> match version_of(
                        doc@,
                    ) {
                        Some(v) => v >= schema.version as int ==> r is Ok && r->Ok_0@ == doc@,
                        None => true,
                    }
                    &&& (hook_type == HookType::Recover && self.password is None && (!(doc@
                        is Obj) || obj_get_tag(doc@) is None)) ==> r is Err
                    &&& (hook_type == HookType::Recover && self.password is None
                        && migration_of(self.migrations@, collection_name@) is Some) ==> match
                        obj_get_tag(doc@) {
                        Some(t) => t != integrity_tag(doc@) ==> r is Err && r->Err_0.message@
                            == "Integrity check failed"@,
                        None => true,
                    }
                }
            }),
    {
        let schema = match self.get_schema(collection_name) {
            Ok(s) => s,
            Err(e) => {
                return Err(e);
            },
        };
        let migration = match self.get_migration(collection_name) {
            Ok(m) => m,
            Err(e) => {
                return Err(e);
            },
        };
        match hook_type {
            HookType::Create => {
                let defaults = crate::defaults::DefaultsPlugin {  };
                let d1 = match defaults.add_defaults(schema, doc) {
                    Ok(d) => d,
                    Err(e) => {
                        return Err(e);
                    },
                };
                let migration_plugin = crate::migration::MigrationPlugin {  };
                let d2 = match migration_plugin.create_hook(schema, &d1) {
                    Ok(d) => d,
                    Err(e) => {
                        return Err(e);
                    },
                };
                let integrity = crate::integrity::IntegrityPlugin {  };
                let d3 = match integrity.add_integrity(&d2) {
                    Ok(d) => d,
                    Err(e) => {
                        return Err(e);
                    },
                };
                match &self.password {
                    None => Ok(d3),
                    Some(pw) => crate::encryption::encrypt_single_document(
                        schema,
                        pw.as_str(),
                        &d3,
                    ),
                }
            },
            HookType::Recover => {
                let d1 = match &self.password {
                    None => doc.deep_copy(),
                    Some(pw) => {
                        match crate::encryption::decrypt_single_document(
                            schema,
                            pw.as_str(),
                            doc,
                        ) {
                            Ok(d) => d,
                            Err(e) => {
                                return Err(e);
                            },
                        }
                    },
                };
                let integrity = crate::integrity::IntegrityPlugin {  };
                let d2 = match integrity.check_integrity(&d1) {
                    Ok(d) => d,
                    Err(e) => {
                        return Err(e);
                    },
                };
                let migration_plugin = crate::migration::MigrationPlugin {  };
                migration_plugin.recover_hook(schema, migration, &d2)
            },
        }
    }

    /// Validates and writes one document: an upsert that creates when the
    /// primary key is new and updates when it is stored already.
    pub fn write(&mut self, collection_name: &str, document: &Value) -> (r: Result<
        Value,
        RIDBError,
    >)
        ensures
            final(self).internal.schemas == old(self).internal.schemas,
            final(self).migrations == old(self).migrations,
            final(self).password == old(self).password,
            r is Ok ==> r->Ok_0@ == document@,
            ({
                let sopt = schema_of(old(self).internal.schemas@, collection_name@);
                sopt matches Some(schema) ==> {
                    let docs = old(self).internal.contents(collection_name@);
                    let pk = obj_get(
                        if document@ is Obj {
                            document@->Obj_0
                        } else {
                            Seq::empty()
                        },
                        schema.primary_key@,
                    );
                    &&& r is Ok ==> document@ is Obj && doc_conforms(schema, document@) && pk
                        is Some
                    &&& r is Ok ==> match pk {
                        Some(pkv) => match crate::inmemory::pk_string_of(pkv) {
                            Some(pks) => final(self).internal.contents(collection_name@)
                                == obj_insert(docs, pks, document@),
                            None => false,
                        },
                        None => true,
                    }
                    &&& (write_accepted(schema, document@) && pk is Some
                        && crate::inmemory::pk_string_of(pk->0) is Some) ==> r is Ok
                }
            }),
    {
        let validated = match self.validate_schema(collection_name, document) {
            Ok(d) => d,
            Err(e) => {
                return Err(e);
            },
        };
        let schema = match crate::inmemory::find_schema(&self.internal.schemas, collection_name) {
            Some(s) => s,
            None => {
                return Err(RIDBError::error("Invalid collection, not found"));
            },
        };
        let primary_key = schema.get_primary_key();
        let mut indexes: Vec<String> = match schema.get_indexes() {
            Some(existing) => {
                let mut out: Vec<String> = Vec::new();
                let mut i: usize = 0;
                while i < existing.len()
                    invariant
                        i <= existing@.len(),
                    decreases existing@.len() - i,
                {
                    out.push(existing[i].clone());
                    i = i + 1;
                }
                out
            },
            None => Vec::new(),
        };
        indexes.push(primary_key.clone());
        let fields = match &validated {
            Value::Obj(fields) => fields,
            _ => {
                return Err(RIDBError::validation("Document must be an object"));
            },
        };
        let pk_value = match crate::value::obj_get_value(fields, primary_key.as_str()) {
            Some(v) => v.deep_copy(),
            None => {
                return Err(RIDBError::validation("A primary key is required"));
            },
        };
        let existing = self.internal.find_document_by_id(collection_name, &pk_value);
        let op_type = match existing {
            Ok(_) => OpType::UPDATE,
            Err(_) => OpType::CREATE,
        };
        let op = Operation {
            collection: String::from_str(collection_name),
            op_type,
            data: validated,
            indexes,
        };
        self.internal.write(&op)
    }

    /// Returns the stored document under a primary key; absence, an
    /// unknown collection, or an unusable key comes back as a null value,
    /// not as an error.
    pub fn find_document_by_id(&self, collection_name: &str, primary_key: &Value) -> (r: Result<
        Value,
        RIDBError,
    >)
        ensures
            r is Ok,
            ({
                let sopt = schema_of(self.internal.schemas@, collection_name@);
                &&& sopt is None ==> r->Ok_0@ == Val::Null
                &&& sopt is Some ==> match crate::inmemory::pk_string_of(primary_key@) {
                    Some(pks) => match obj_get(
                        self.internal.contents(collection_name@),
                        pks,
                    ) {
                        Some(d) => r->Ok_0@ == d,
                        None => r->Ok_0@ == Val::Null,
                    },
                    None => r->Ok_0@ == Val::Null,
                }
            }),
    {
        match self.internal.find_document_by_id(collection_name, primary_key) {
            Ok(doc) => Ok(doc),
            Err(_) => Ok(Value::Null),
        }
    }

    /// Deletes the document under a primary key; a missing document is
    /// refused.
    pub fn remove(&mut self, collection_name: &str, primary_key: &Value) -> (r: Result<
        Value,
        RIDBError,
    >)
        ensures
            final(self).internal.schemas == old(self).internal.schemas,
            final(self).migrations == old(self).migrations,
            final(self).password == old(self).password,
            ({
                let sopt = schema_of(old(self).internal.schemas@, collection_name@);
                sopt matches Some(schema) ==> match crate::inmemory::pk_string_of(primary_key@) {
                    Some(pks) => {
                        let docs = old(self).internal.contents(collection_name@);
                        &&& !crate::value::obj_has(docs, pks) ==> r is Err
                            && r->Err_0.message@ == "Invalid primary key value"@
                        &&& r is Ok ==> final(self).internal.contents(collection_name@)
                            == crate::value::obj_remove(docs, pks)
                        &&& (crate::value::obj_has(docs, pks) && obj_get(docs, pks) != Some(
                            Val::Null,
                        )) ==> r is Ok
                    },
                    None => r is Err && r->Err_0.message@ == "Invalid primary key value"@,
                }
            }),
    {
        let found = self.find_document_by_id(collection_name, primary_key);
        let missing = match &found {
            Ok(Value::Null) => true,
            Ok(_) => false,
            Err(_) => true,
        };
        if missing {
            return Err(
                RIDBError {
                    code: Errors::Error,
                    message: String::from_str("Invalid primary key value"),
                },
            );
        }
        let schema = match crate::inmemory::find_schema(&self.internal.schemas, collection_name) {
            Some(s) => s,
            None => {
                return Err(RIDBError::error("Invalid collection, not found"));
            },
        };
        let mut indexes: Vec<String> = Vec::new();
        indexes.push(schema.get_primary_key());
        let op = Operation {
            collection: String::from_str(collection_name),
            op_type: OpType::DELETE,
            data: primary_key.deep_copy(),
            indexes,
        };
        self.internal.write(&op)
    }
}

/// Law: recovering what the create chain wrote gives the document back,
/// with every user-visible field as it was.
///
/// For a well-formed fresh document (no `__version` of its own, no field
/// named non-null), over a schema that declares no reserved field, the
/// written form `plain_create_chain(s, d)` carries a tag equal to its own
/// recomputed integrity tag and the schema's version. The read chain's
/// contract (`Storage::call`, recover direction) then returns that form
/// unchanged, and each user field `k` holds exactly `d`'s value.
pub proof fn lemma_create_recover_identity(s: Schema, d: Val, k: Seq<char>)
    requires
        d is Obj,
        crate::value::wf_val(d),
        !crate::value::obj_has(d->Obj_0, "__version"@),
        forall|i: int|
            0 <= i < s.properties@.len() ==> (#[trigger] s.properties@[i]).0@ != "__version"@
                && s.properties@[i].0@ != "__integrity"@,
        k != "__version"@,
        k != "__integrity"@,
        obj_get(d->Obj_0, k) is Some,
        obj_get(d->Obj_0, k) != Some(Val::Null),
    ensures
        ({
            let c = plain_create_chain(s, d);
            &&& crate::integrity::obj_get_tag(c) == Some(integrity_tag(c))
            &&& version_of(c) == Some(s.version as int)
            &&& obj_get(c->Obj_0, k) == obj_get(d->Obj_0, k)
        }),
{
    reveal_strlit("__version");
    reveal_strlit("__integrity");
    assert("__version"@.len() == 9);
    assert("__integrity"@.len() == 11);
    assert("__version"@ != "__integrity"@);
    let df = defaults_fields(s.properties@, d->Obj_0);
    crate::defaults::lemma_defaults_sorted(s.properties@, d->Obj_0);
    crate::defaults::lemma_defaults_keep_set_fields(s.properties@, d->Obj_0, k);
    crate::defaults::lemma_defaults_keep_undeclared(s.properties@, d->Obj_0, "__version"@);
    crate::defaults::lemma_defaults_keep_undeclared(s.properties@, d->Obj_0, "__integrity"@);
    let st = obj_insert(df, "__version"@, Val::Int(s.version as int));
    assert(stamped(s, Val::Obj(df)) == Val::Obj(st));
    crate::value::obj_insert_sorted(df, "__version"@, Val::Int(s.version as int));
    crate::value::obj_insert_get(df, "__version"@, Val::Int(s.version as int), "__integrity"@);
    crate::value::obj_insert_get(df, "__version"@, Val::Int(s.version as int), "__version"@);
    crate::value::obj_insert_get(df, "__version"@, Val::Int(s.version as int), k);
    let stripped = crate::value::obj_remove(st, "__integrity"@);
    crate::value::obj_remove_sorted(st, "__integrity"@);
    crate::value::obj_remove_get(st, "__integrity"@, "__integrity"@);
    crate::value::obj_remove_get(st, "__integrity"@, "__version"@);
    crate::value::obj_remove_get(st, "__integrity"@, k);
    let c = plain_create_chain(s, d);
    let tag = integrity_tag(Val::Obj(st));
    assert(c == Val::Obj(obj_insert(stripped, "__integrity"@, Val::Str(tag))));
    crate::value::obj_insert_get(stripped, "__integrity"@, Val::Str(tag), "__integrity"@);
    crate::value::obj_insert_get(stripped, "__integrity"@, Val::Str(tag), "__version"@);
    crate::value::obj_insert_get(stripped, "__integrity"@, Val::Str(tag), k);
    // The stored tag equals the tag recomputed over the stored form.
    crate::value::obj_remove_of_insert(stripped, "__integrity"@, Val::Str(tag));
    assert(crate::value::obj_remove(c->Obj_0, "__integrity"@) == stripped);
    assert(crate::integrity::strip_integrity(c) == Val::Obj(stripped));
    assert(crate::integrity::strip_integrity(Val::Obj(st)) == Val::Obj(stripped));
    assert(integrity_tag(c) == tag);
}

/// Law: with encryption on, recovering what the create chain wrote still
/// gives the document back.
///
/// The plain chain's output is a sorted object without an `__encrypted`
/// field, its gathered payload is well formed, and merging that payload
/// back over the stored form restores the written fields exactly. With
/// the write chain's contract (`encrypt_single_document`) and the read
/// chain's owed round trip (`decrypt_single_document`), decryption hands
/// the integrity check the very document the chain tagged, and the
/// password-less law then applies unchanged.
pub proof fn lemma_create_recover_identity_encrypted(s: Schema, d: Val, blob: Val, k: Seq<char>)
    requires
        d is Obj,
        crate::value::wf_val(d),
        !crate::value::obj_has(d->Obj_0, "__version"@),
        !crate::value::obj_has(d->Obj_0, "__encrypted"@),
        forall|i: int|
            0 <= i < s.properties@.len() ==> (#[trigger] s.properties@[i]).0@ != "__version"@
                && s.properties@[i].0@ != "__integrity"@ && s.properties@[i].0@ != "__encrypted"@,
        forall|i: int|
            0 <= i < s.properties@.len() ==> ((#[trigger] s.properties@[i]).1.default matches Some(
                dv,
            ) ==> crate::value::wf_val(dv@)),
        forall|i: int|
            0 <= i < crate::encryption::enc_names(s).len() ==> (#[trigger] crate::encryption::enc_names(
                s,
            )[i])@ != "__encrypted"@,
        k != "__version"@,
        k != "__integrity"@,
        obj_get(d->Obj_0, k) is Some,
        obj_get(d->Obj_0, k) != Some(Val::Null),
    ensures
        ({
            let c = plain_create_chain(s, d);
            let names = crate::encryption::enc_names(s);
            let gathered = crate::encryption::split_enc(names, c->Obj_0, Seq::empty()).0;
            let stored = obj_insert(
                crate::encryption::split_enc(names, c->Obj_0, Seq::empty()).1,
                "__encrypted"@,
                blob,
            );
            &&& crate::value::wf_val(Val::Obj(gathered))
            &&& crate::encryption::merge_enc(
                names,
                gathered,
                crate::value::obj_remove(stored, "__encrypted"@),
            ) =~= c->Obj_0
            &&& crate::integrity::obj_get_tag(c) == Some(integrity_tag(c))
            &&& version_of(c) == Some(s.version as int)
            &&& obj_get(c->Obj_0, k) == obj_get(d->Obj_0, k)
        }),
{
    lemma_create_recover_identity(s, d, k);
    reveal_strlit("__version");
    reveal_strlit("__integrity");
    reveal_strlit("__encrypted");
    assert("__version"@.len() == 9);
    assert("__integrity"@.len() == 11);
    assert("__encrypted"@.len() == 11);
    assert("__encrypted"@[2] == 'e' && "__integrity"@[2] == 'i');
    assert("__version"@ != "__integrity"@);
    assert("__version"@ != "__encrypted"@);
    assert("__integrity"@ != "__encrypted"@);
    let df = defaults_fields(s.properties@, d->Obj_0);
    crate::defaults::lemma_defaults_sorted(s.properties@, d->Obj_0);
    crate::defaults::lemma_defaults_keep_undeclared(s.properties@, d->Obj_0, "__version"@);
    crate::defaults::lemma_defaults_keep_undeclared(s.properties@, d->Obj_0, "__encrypted"@);
    let st = obj_insert(df, "__version"@, Val::Int(s.version as int));
    crate::value::obj_insert_sorted(df, "__version"@, Val::Int(s.version as int));
    let stripped = crate::value::obj_remove(st, "__integrity"@);
    crate::value::obj_remove_sorted(st, "__integrity"@);
    let c = plain_create_chain(s, d);
    let tag = integrity_tag(Val::Obj(st));
    crate::value::obj_insert_sorted(stripped, "__integrity"@, Val::Str(tag));
    assert(c->Obj_0 == obj_insert(stripped, "__integrity"@, Val::Str(tag)));
    assert(crate::value::fields_sorted(c->Obj_0));
    // The written form carries no `__encrypted` of its own.
    crate::value::obj_insert_get(df, "__version"@, Val::Int(s.version as int), "__encrypted"@);
    crate::value::obj_remove_get(st, "__integrity"@, "__encrypted"@);
    crate::value::obj_insert_get(stripped, "__integrity"@, Val::Str(tag), "__encrypted"@);
    assert(!crate::value::obj_has(c->Obj_0, "__encrypted"@));
    // Its field values are all well formed.
    assert forall|i: int| 0 <= i < c->Obj_0.len() implies crate::value::wf_val(
        (#[trigger] c->Obj_0[i]).1,
    ) by {
        lemma_chain_values_wf(s, d, i);
    }
    crate::encryption::lemma_split_gathered_wf(crate::encryption::enc_names(s), c->Obj_0);
    crate::encryption::lemma_gather_merge_round_trip(
        crate::encryption::enc_names(s),
        c->Obj_0,
        blob,
    );
}

/// Every field value of the plain create chain's output is well formed:
/// a value the document held, a schema default, the version stamp, or
/// the tag.
proof fn lemma_chain_values_wf(s: Schema, d: Val, i: int)
    requires
        d is Obj,
        crate::value::wf_val(d),
        forall|j: int|
            0 <= j < s.properties@.len() ==> ((#[trigger] s.properties@[j]).1.default matches Some(
                dv,
            ) ==> crate::value::wf_val(dv@)),
        0 <= i < plain_create_chain(s, d)->Obj_0.len(),
    ensures
        crate::value::wf_val(plain_create_chain(s, d)->Obj_0[i].1),
{
    let df = defaults_fields(s.properties@, d->Obj_0);
    lemma_defaults_values_wf(s.properties@, d->Obj_0);
    let st = obj_insert(df, "__version"@, Val::Int(s.version as int));
    crate::encryption::lemma_obj_insert_vals(df, "__version"@, Val::Int(s.version as int));
    let stamped_d = stamped(s, Val::Obj(df));
    let stripped = crate::value::obj_remove(stamped_d->Obj_0, "__integrity"@);
    let c = plain_create_chain(s, d);
    let tag = integrity_tag(stamped_d);
    crate::encryption::lemma_obj_insert_vals(stripped, "__integrity"@, Val::Str(tag));
    assert forall|j: int| 0 <= j < stripped.len() implies crate::value::wf_val(
        (#[trigger] stripped[j]).1,
    ) by {
        crate::encryption::obj_remove_vals(stamped_d->Obj_0, "__integrity"@, j);
    }
    if c->Obj_0[i].1 != Val::Str(tag) {
    }
}

/// Every value the defaults pass leaves is a document value or a default.
proof fn lemma_defaults_values_wf(
    ps: Seq<(String, crate::property::Property)>,
    fs: Seq<(Seq<char>, Val)>,
)
    requires
        forall|i: int| 0 <= i < fs.len() ==> crate::value::wf_val((#[trigger] fs[i]).1),
        forall|j: int|
            0 <= j < ps.len() ==> ((#[trigger] ps[j]).1.default matches Some(dv)
                ==> crate::value::wf_val(dv@)),
    ensures
        forall|i: int|
            0 <= i < defaults_fields(ps, fs).len() ==> crate::value::wf_val(
                (#[trigger] defaults_fields(ps, fs)[i]).1,
            ),
    decreases ps.len(),
{
    if ps.len() > 0 {
        let key = ps[0].0@;
        let p = ps[0].1;
        let unset = obj_get(fs, key) is None || obj_get(fs, key) == Some(Val::Null);
        let rest = ps.subrange(1, ps.len() as int);
        assert forall|j: int|
            0 <= j < rest.len() implies ((#[trigger] rest[j]).1.default matches Some(dv)
            ==> crate::value::wf_val(dv@)) by {
            assert(rest[j] == ps[j + 1]);
        }
        if unset && p.default is Some {
            let fs1 = obj_insert(fs, key, p.default->0@);
            crate::encryption::lemma_obj_insert_vals(fs, key, p.default->0@);
            assert(crate::value::wf_val((ps[0]).1.default->0@));
            assert forall|i: int| 0 <= i < fs1.len() implies crate::value::wf_val(
                (#[trigger] fs1[i]).1,
            ) by {
                assert(fs1[i] == obj_insert(fs, key, p.default->0@)[i]);
            }
            lemma_defaults_values_wf(rest, fs1);
            assert(defaults_fields(ps, fs) == defaults_fields(rest, fs1));
            assert forall|i: int|
                0 <= i < defaults_fields(ps, fs).len() implies crate::value::wf_val(
                (#[trigger] defaults_fields(ps, fs)[i]).1,
            ) by {
                assert(defaults_fields(rest, fs1)[i] == defaults_fields(ps, fs)[i]);
            }
        } else {
            lemma_defaults_values_wf(rest, fs);
            assert(defaults_fields(ps, fs) == defaults_fields(rest, fs));
            assert forall|i: int|
                0 <= i < defaults_fields(ps, fs).len() implies crate::value::wf_val(
                (#[trigger] defaults_fields(ps, fs)[i]).1,
            ) by {
                assert(defaults_fields(rest, fs)[i] == defaults_fields(ps, fs)[i]);
            }
        }
    }
}

} // verus!
