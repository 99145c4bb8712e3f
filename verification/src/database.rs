//! The database: construction-time validation and the lifecycle.

use vstd::prelude::*;
use vstd::string::StringExecFns;

use crate::collection::Collection;
use crate::error::RIDBError;
use crate::inmemory::InMemory;
use crate::migration::{chain_covered, Migrations};
use crate::schema::{schema_def_ok, schema_matches, Schema};
use crate::storage::{find_migration, migration_of, Storage};
use crate::value::{obj_get, Val, Value};

verus! {

/// Every collection name appears once among the definitions.
pub open spec fn names_distinct(defs: Seq<(String, Value)>) -> bool {
    forall|i: int, j: int|
        0 <= i < j < defs.len() ==> (#[trigger] defs[i]).0@ != (#[trigger] defs[j]).0@
}

/// No declared encrypted field is the primary key or undeclared.
pub open spec fn encrypted_names_ok(d: Val) -> bool {
    match obj_get(d->Obj_0, "encrypted"@) {
        None => true,
        Some(ev) => forall|j: int|
            0 <= j < ev->Arr_0.len() ==> {
                let n = (#[trigger] ev->Arr_0[j])->Str_0;
                &&& match obj_get(d->Obj_0, "primaryKey"@) {
                    Some(pk) => n != pk->Str_0,
                    None => true,
                }
                &&& match obj_get(d->Obj_0, "properties"@) {
                    Some(pv) => obj_get(pv->Obj_0, n) is Some,
                    None => true,
                }
            },
    }
}

/// The construction-time checks for one collection: the definition parses
/// into a valid schema, the encrypted list is usable, a migration set is
/// on hand, and it covers every version the schema may upgrade from.
pub open spec fn def_entry_ok<M: Migrations>(
    name: Seq<char>,
    d: Val,
    ms: Seq<(String, M)>,
) -> bool {
    &&& schema_def_ok(d)
    &&& encrypted_names_ok(d)
    &&& match migration_of(ms, name) {
        Some(m) => chain_covered(&m, 0, obj_get(d->Obj_0, "version"@)->0->Int_0),
        None => false,
    }
}

/// Every collection passes the construction-time checks.
pub open spec fn defs_accepted<M: Migrations>(
    defs: Seq<(String, Value)>,
    ms: Seq<(String, M)>,
) -> bool {
    &&& names_distinct(defs)
    &&& forall|i: int|
        0 <= i < defs.len() ==> def_entry_ok(
            (#[trigger] defs[i]).0@,
            defs[i].1@,
            ms,
        )
}

/// A database: a storage facade and a lifecycle flag.
#[derive(Debug)]
pub struct Database<M> {
    pub storage: Storage<M>,
    pub started: bool,
}

impl<M: Migrations> Database<M> {
    /// Builds a database over an in-memory backend. Construction fails
    /// fast, before any write: every schema definition must parse and be
    /// valid, no declared encrypted field may be the primary key or
    /// undeclared, and a collection whose version is one or more must have
    /// a migration on hand for every version up to it.
    #[verifier::loop_isolation(false)]
    pub fn create(
        db_name: &str,
        schema_defs: &Vec<(String, Value)>,
        migrations: Vec<(String, M)>,
        password: Option<String>,
    ) -> (r: Result<Database<M>, RIDBError>)
        ensures
            r is Ok <==> defs_accepted(schema_defs@, migrations@),
            r is Ok ==> r->Ok_0.started == false,
            r is Ok ==> r->Ok_0.storage.password == password,
            r is Ok ==> r->Ok_0.storage.migrations == migrations,
            r is Ok ==> r->Ok_0.storage.internal.schemas@.len() == schema_defs@.len(),
            r is Ok ==> forall|i: int|
                0 <= i < schema_defs@.len() ==> (#[trigger] r->Ok_0.storage.internal.schemas@[
                    i
                ]).0@ == schema_defs@[i].0@ && schema_matches(
                    r->Ok_0.storage.internal.schemas@[i].1,
                    schema_defs@[i].1@,
                ),
    {
        let mut schemas: Vec<(String, Schema)> = Vec::new();
        let mut i: usize = 0;
        while i < schema_defs.len()
            invariant
                i <= schema_defs@.len(),
                schemas@.len() == i,
                forall|j: int, k: int|
                    0 <= j < k < i ==> (#[trigger] schema_defs@[j]).0@ != (
                    #[trigger] schema_defs@[k]).0@,
                forall|j: int|
                    0 <= j < i ==> def_entry_ok(
                        (#[trigger] schema_defs@[j]).0@,
                        schema_defs@[j].1@,
                        migrations@,
                    ),
                forall|j: int|
                    0 <= j < i ==> (#[trigger] schemas@[j]).0@ == schema_defs@[j].0@
                        && schema_matches(schemas@[j].1, schema_defs@[j].1@),
            decreases schema_defs@.len() - i,
        {
            let schema = match Schema::create(&schema_defs[i].1) {
                Ok(s) => s,
                Err(e) => {
                    proof {
                        assert(!def_entry_ok(
                            schema_defs@[i as int].0@,
                            schema_defs@[i as int].1@,
                            migrations@,
                        ));
                    }
                    return Err(e);
                },
            };
            let ghost def = schema_defs@[i as int].1@;
            let ghost evo = obj_get(def->Obj_0, "encrypted"@);
            // Reject an unusable encrypted list before anything is stored.
            match &schema.encrypted {
                Some(names) => {
                    let ghost ev = evo->0;
                    let mut c: usize = 0;
                    while c < names.len()
                        invariant
                            c <= names@.len(),
                            forall|j: int|
                                0 <= j < c ==> {
                                    let n = (#[trigger] ev->Arr_0[j])->Str_0;
                                    n != schema.primary_key@ && crate::query::prop_type_of(
                                        schema.properties@,
                                        n,
                                    ) is Some
                                },
                        decreases names@.len() - c,
                    {
                        proof {
                            assert(ev->Arr_0[c as int] == Val::Str(names@[c as int]@));
                        }
                        if crate::value::str_eq(
                            names[c].as_str(),
                            schema.primary_key.as_str(),
                        ) {
                            proof {
                                assert(!encrypted_names_ok(def));
                            }
                            return Err(
                                RIDBError::validation("primary key must not be encrypted"),
                            );
                        }
                        if matches!(
                            crate::query::find_prop_type(&schema, names[c].as_str()),
                            None
                        ) {
                            proof {
                                crate::query::lemma_prop_type_obj_get(
                                    schema.properties@,
                                    obj_get(def->Obj_0, "properties"@)->0->Obj_0,
                                    names@[c as int]@,
                                );
                                assert(!encrypted_names_ok(def));
                            }
                            return Err(
                                RIDBError::validation(
                                    "encrypted field does not exist in the model",
                                ),
                            );
                        }
                        c = c + 1;
                    }
                    proof {
                        assert forall|j: int| 0 <= j < ev->Arr_0.len() implies {
                            let n = (#[trigger] ev->Arr_0[j])->Str_0;
                            &&& match obj_get(def->Obj_0, "primaryKey"@) {
                                Some(pk) => n != pk->Str_0,
                                None => true,
                            }
                            &&& match obj_get(def->Obj_0, "properties"@) {
                                Some(pv) => obj_get(pv->Obj_0, n) is Some,
                                None => true,
                            }
                        } by {
                            crate::query::lemma_prop_type_obj_get(
                                schema.properties@,
                                obj_get(def->Obj_0, "properties"@)->0->Obj_0,
                                ev->Arr_0[j]->Str_0,
                            );
                        }
                        assert(encrypted_names_ok(def));
                    }
                },
                None => {
                    proof {
                        assert(encrypted_names_ok(def));
                    }
                },
            }
            // Every collection carries a migration set; a versioned schema
            // must have its whole chain on hand.
            let migration = match find_migration(&migrations, schema_defs[i].0.as_str()) {
                Some(m) => m,
                None => {
                    proof {
                        assert(!def_entry_ok(
                            schema_defs@[i as int].0@,
                            def,
                            migrations@,
                        ));
                    }
                    return Err(RIDBError::validation("Required migration paths are missing"));
                },
            };
            let ghost mig = migration_of(migrations@, schema_defs@[i as int].0@)->0;
            let version = schema.get_version();
            if version >= 1 {
                let mut v: i64 = 1;
                while v <= version as i64
                    invariant
                        1 <= v <= version + 1,
                        forall|w: int| 0 < w < v ==> mig.has(#[trigger] (w as i32)),
                    decreases version + 1 - v,
                {
                    if !migration.has_migration(v as i32) {
                        proof {
                            assert(!chain_covered(&mig, 0, version as int));
                            assert(!def_entry_ok(
                                schema_defs@[i as int].0@,
                                def,
                                migrations@,
                            ));
                        }
                        return Err(
                            RIDBError::validation("Required migration paths are missing"),
                        );
                    }
                    v = v + 1;
                }
            }
            proof {
                assert(chain_covered(&mig, 0, version as int));
                assert(obj_get(def->Obj_0, "version"@)->0->Int_0 == version as int);
                assert(def_entry_ok(schema_defs@[i as int].0@, def, migrations@));
            }
            // A later collection must not shadow an earlier one of the
            // same name.
            let mut d: usize = 0;
            while d < schemas.len()
                invariant
                    d <= schemas@.len(),
                    forall|j: int| 0 <= j < d ==> (#[trigger] schemas@[j]).0@ != schema_defs@[
                        i as int
                    ].0@,
                decreases schemas@.len() - d,
            {
                if crate::value::str_eq(schemas[d].0.as_str(), schema_defs[i].0.as_str()) {
                    proof {
                        assert(schema_defs@[d as int].0@ == schema_defs@[i as int].0@);
                        assert(!names_distinct(schema_defs@));
                    }
                    return Err(RIDBError::validation("Duplicate collection name"));
                }
                d = d + 1;
            }
            proof {
                assert forall|j: int| 0 <= j < i implies (#[trigger] schema_defs@[j]).0@
                    != schema_defs@[i as int].0@ by {
                    assert(schemas@[j].0@ == schema_defs@[j].0@);
                }
            }
            let name = schema_defs[i].0.clone();
            schemas.push((name, schema));
            i = i + 1;
        }
        proof {
            assert(defs_accepted(schema_defs@, migrations@));
        }
        let internal = InMemory::create(db_name, schemas);
        let storage = match Storage::create(migrations, password, internal) {
            Ok(s) => s,
            Err(e) => {
                return Err(e);
            },
        };
        Ok(Database { storage, started: false })
    }

    /// Starts the database; a second start is refused.
    pub fn start(&mut self) -> (r: Result<(), RIDBError>)
        ensures
            old(self).started ==> r is Err,
            !old(self).started ==> r is Ok && final(self).started
                && final(self).storage.internal.started,
    {
        if self.started {
            return Err(RIDBError::error("Database already started"));
        }
        match self.storage.internal.start() {
            Ok(()) => {},
            Err(_) => {},
        }
        self.started = true;
        Ok(())
    }

    /// Closes the database: the backend drops its contents, and reopening
    /// starts empty.
    pub fn close(&mut self) -> (r: Result<(), RIDBError>)
        ensures
            r is Ok,
            final(self).started == false,
            final(self).storage.internal.by_index@.len() == 0,
    {
        let res = self.storage.internal.close();
        self.started = false;
        res
    }

    /// Whether the database is started.
    pub fn started(&self) -> (r: bool)
        ensures
            r == self.started,
    {
        self.started
    }

    /// The names of the collections the database holds.
    pub fn collections(&self) -> (r: Vec<String>)
        ensures
            r@.len() == self.storage.internal.schemas@.len(),
            forall|i: int|
                0 <= i < r@.len() ==> (#[trigger] r@[i])@
                    == self.storage.internal.schemas@[i].0@,
    {
        let ss = &self.storage.internal.schemas;
        let mut out: Vec<String> = Vec::new();
        let mut i: usize = 0;
        while i < ss.len()
            invariant
                i <= ss@.len(),
                out@.len() == i,
                forall|j: int| 0 <= j < i ==> (#[trigger] out@[j])@ == ss@[j].0@,
            decreases ss@.len() - i,
        {
            out.push(ss[i].0.clone());
            i = i + 1;
        }
        out
    }

    /// A handle on one collection; an unknown name is refused.
    pub fn collection(&mut self, name: &str) -> (r: Result<Collection<'_, M>, RIDBError>)
        ensures
            r is Ok <==> crate::inmemory::schema_of(
                old(self).storage.internal.schemas@,
                name@,
            ) is Some,
            r is Ok ==> r->Ok_0.name@ == name@,
            r is Err ==> r->Err_0.message@ == "Serialization Error: "@
                + "Invalid collection, not found"@,
    {
        match crate::inmemory::find_schema(&self.storage.internal.schemas, name) {
            Some(_) => {},
            None => {
                return Err(RIDBError::error("Invalid collection, not found"));
            },
        }
        Ok(Collection::from(String::from_str(name), &mut self.storage))
    }
}

} // verus!
