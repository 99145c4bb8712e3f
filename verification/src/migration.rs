//! The migration plugin: stamp `__version` on write, upgrade on read.

use vstd::prelude::*;
use vstd::string::StringExecFns;

use crate::error::RIDBError;
use crate::schema::Schema;
use crate::value::{obj_get, obj_insert, Val, Value};

verus! {

/// The per-collection migration functions, supplied by the application.
/// An implementation promises that each migration computes a function of
/// the document alone and keeps it well-formed; the engine proves what the
/// chain does given those promises.
pub trait Migrations {
    /// Whether a migration to `version` is on hand.
    spec fn has(&self, version: i32) -> bool;

    /// What the migration to `version` turns a document into.
    spec fn apply_spec(&self, version: i32, doc: Val) -> Val;

    /// Reports whether a migration to `version` is on hand.
    fn has_migration(&self, version: i32) -> (r: bool)
        ensures
            r == self.has(version),
    ;

    /// Runs the migration to `version`; it may fail, but a success is the
    /// promised function of the document.
    fn apply(&self, version: i32, doc: &Value) -> (r: Result<Value, RIDBError>)
        requires
            self.has(version),
        ensures
            r is Ok ==> r->Ok_0@ == self.apply_spec(version, doc@),
            r is Ok ==> crate::value::wf_val(r->Ok_0@),
    ;
}

/// An empty migration set, for schemas that never changed shape.
#[derive(Debug)]
pub struct NoMigrations {}

impl Migrations for NoMigrations {
    open spec fn has(&self, version: i32) -> bool {
        false
    }

    open spec fn apply_spec(&self, version: i32, doc: Val) -> Val {
        doc
    }

    fn has_migration(&self, version: i32) -> bool {
        false
    }

    fn apply(&self, version: i32, doc: &Value) -> Result<Value, RIDBError> {
        Err(RIDBError::error("No migration on hand"))
    }
}

/// A document with its version stamped.
pub open spec fn stamp_version(d: Val, v: int) -> Val {
    if d is Obj {
        Val::Obj(obj_insert(d->Obj_0, "__version"@, Val::Int(v)))
    } else {
        d
    }
}

/// The document after stamping `__version` if it was missing.
pub open spec fn stamped(s: Schema, d: Val) -> Val {
    if d is Obj && obj_get(d->Obj_0, "__version"@) is None {
        stamp_version(d, s.version as int)
    } else {
        d
    }
}

/// The migration chain: apply each migration from `from + 1` up to `to` in
/// order, stamping the version after each step.
pub open spec fn migrate_chain<M: Migrations>(m: &M, from: int, to: int, d: Val) -> Val
    decreases to - from,
{
    if from >= to {
        d
    } else {
        migrate_chain(m, from + 1, to, stamp_version(m.apply_spec((from + 1) as i32, d), from + 1))
    }
}

/// Every migration the chain needs is on hand.
pub open spec fn chain_covered<M: Migrations>(m: &M, from: int, to: int) -> bool {
    forall|v: int| from < v <= to ==> m.has(#[trigger] (v as i32))
}

/// The integer under `__version`, if the document carries one.
pub open spec fn version_of(d: Val) -> Option<int> {
    if d is Obj {
        match obj_get(d->Obj_0, "__version"@) {
            Some(Val::Int(v)) => Some(v),
            _ => None,
        }
    } else {
        None
    }
}

/// The migration plugin: its create hook stamps a missing version, its
/// recover hook runs the upgrade chain.
#[derive(Debug)]
pub struct MigrationPlugin {}

impl MigrationPlugin {
    /// Stamps `schema.version` under `__version` unless the document already
    /// holds one; anything but an object passes through untouched.
    pub fn create_hook(&self, schema: &Schema, document: &Value) -> (r: Result<Value, RIDBError>)
        ensures
            r is Ok,
            r->Ok_0@ == stamped(*schema, document@),
    {
        match document {
            Value::Obj(fields) => {
                match crate::value::obj_find(fields, "__version") {
                    Some(_) => Ok(document.deep_copy()),
                    None => {
                        let mut out = document.deep_copy();
                        match &mut out {
                            Value::Obj(ofields) => {
                                crate::value::obj_set_value(
                                    ofields,
                                    "__version",
                                    Value::Int(schema.version as i64),
                                );
                            },
                            _ => {
                                return Err(RIDBError::error("Document changed shape"));
                            },
                        }
                        Ok(out)
                    },
                }
            },
            _ => Ok(document.deep_copy()),
        }
    }

    /// The decimal text of a version number.
    fn version_text(v: i32) -> (r: String)
        ensures
            r@ == crate::canon::dec_int(v as int),
    {
        let mut cs: Vec<char> = Vec::new();
        crate::canon::write_int(v as i64, &mut cs);
        proof {
            assert(cs@ =~= crate::canon::dec_int(v as int));
        }
        crate::trusted::chars_to_string(&cs)
    }

    /// Recovers a document read from storage: stamps a missing `__version`,
    /// then applies the migration chain up to the schema version.
    ///
    /// On success the result is exactly the chain of the supplied migration
    /// functions, applied in order to the stamped document.
    #[verifier::loop_isolation(false)]
    #[verifier::rlimit(100)]
    pub fn recover_hook<M: Migrations>(
        &self,
        schema: &Schema,
        migrations: &M,
        document: &Value,
    ) -> (r:
        Result<Value, RIDBError>)
        ensures
            ({
                let d1 = stamped(*schema, document@);
                &&& version_of(d1) is None ==> r is Err
                &&& version_of(d1) matches Some(v0) ==> {
                    &&& v0 >= schema.version as int ==> r is Ok && r->Ok_0@ == d1
                    &&& (v0 < schema.version as int && !chain_covered(
                        migrations,
                        v0,
                        schema.version as int,
                    )) ==> r is Err
                    &&& (r is Ok && v0 < schema.version as int) ==> r->Ok_0@ == migrate_chain(
                        migrations,
                        v0,
                        schema.version as int,
                        d1,
                    )
                }
            }),
            ({
                let d1 = stamped(*schema, document@);
                version_of(d1) matches Some(v0) ==> ((-2147483648 <= v0 && v0 < schema.version
                    as int && !migrations.has((v0 + 1) as i32)) ==> r is Err && r->Err_0.message@
                    == "Migrating function "@ + crate::canon::dec_int(v0 + 1)
                    + " to schema version not found"@)
            }),
    {
        let content = match self.create_hook(schema, document) {
            Ok(c) => c,
            Err(e) => {
                return Err(e);
            },
        };
        let version = schema.version;
        let doc_version_wide: i64 = match &content {
            Value::Obj(fields) => {
                match crate::value::obj_get_value(fields, "__version") {
                    Some(Value::Int(v)) => *v,
                    _ => {
                        return Err(RIDBError::error("__version should be a number"));
                    },
                }
            },
            _ => {
                return Err(RIDBError::error("Document must be an object"));
            },
        };
        if doc_version_wide >= version as i64 {
            return Ok(content);
        }
        if doc_version_wide < -2147483648i64 {
            return Err(RIDBError::error("__version out of range"));
        }
        let doc_version: i32 = doc_version_wide as i32;
        let ghost d1 = content@;
        let ghost v0 = doc_version as int;
        let mut current = content;
        let mut v: i32 = doc_version;
        while v < version
            invariant
                doc_version <= v <= version,
                current@ == migrate_chain(migrations, v0, v as int, d1),
                chain_covered(migrations, v0, v as int),
            decreases version - v,
        {
            let next = v + 1;
            if !migrations.has_migration(next) {
                proof {
                    if !migrations.has((v0 + 1) as i32) {
                        assert(v as int == v0);
                    }
                }
                let msg = String::from_str("Migrating function ").concat(
                    Self::version_text(next).as_str(),
                ).concat(" to schema version not found");
                return Err(RIDBError { code: crate::error::Errors::Error, message: msg });
            }
            let upgraded = match migrations.apply(next, &current) {
                Ok(u) => u,
                Err(e) => {
                    return Err(e);
                },
            };
            let mut stamped_doc = upgraded;
            match &mut stamped_doc {
                Value::Obj(ofields) => {
                    crate::value::obj_set_value(ofields, "__version", Value::Int(next as i64));
                },
                _ => {
                    return Err(RIDBError::error("Migration must return an object"));
                },
            }
            proof {
                lemma_chain_step(migrations, v0, v as int, d1);
            }
            current = stamped_doc;
            v = next;
        }
        Ok(current)
    }

}

/// Law: migrating across several versions composes one step at a time;
/// the chain to `mid + 1` is the chain to `mid` with the last migration
/// applied and its version stamped.
pub proof fn lemma_chain_step<M: Migrations>(m: &M, from: int, mid: int, d: Val)
    requires
        from <= mid,
    ensures
        migrate_chain(m, from, mid + 1, d) == stamp_version(
            m.apply_spec((mid + 1) as i32, migrate_chain(m, from, mid, d)),
            mid + 1,
        ),
    decreases mid - from,
{
    if from < mid {
        lemma_chain_step(
            m,
            from + 1,
            mid,
            stamp_version(m.apply_spec((from + 1) as i32, d), from + 1),
        );
    } else {
        let d2 = stamp_version(m.apply_spec((from + 1) as i32, d), from + 1);
        assert(migrate_chain(m, from, mid + 1, d) == migrate_chain(m, from + 1, mid + 1, d2));
        assert(migrate_chain(m, from + 1, mid + 1, d2) == d2);
    }
}

/// A completed chain stamps the target version.
pub proof fn lemma_chain_version<M: Migrations>(m: &M, from: int, to: int, d: Val)
    requires
        from < to,
        migrate_chain(m, from, to, d) is Obj,
    ensures
        obj_get(migrate_chain(m, from, to, d)->Obj_0, "__version"@) == Some(Val::Int(to)),
    decreases to - from,
{
    lemma_chain_step(m, from, to - 1, d);
    let prev = migrate_chain(m, from, to - 1, d);
    let app = m.apply_spec(to as i32, prev);
    if app is Obj {
        crate::value::obj_insert_get(app->Obj_0, "__version"@, Val::Int(to), "__version"@);
    }
}

} // verus!
