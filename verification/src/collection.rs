//! A collection handle: public operations over one named collection.

use vstd::prelude::*;

use crate::error::RIDBError;
use crate::inmemory::schema_of;
use crate::integrity::{integrity_tag, obj_get_tag};
use crate::migration::{version_of, Migrations};
use crate::schema::Schema;
use crate::storage::{migration_of, plain_create_chain, write_accepted, HookType, Storage};
use crate::value::{obj_get, obj_insert, Val, Value};

verus! {

/// A named collection borrowing the storage it operates on.
pub struct Collection<'a, M> {
    pub name: String,
    pub storage: &'a mut Storage<M>,
}

/// The conditions under which a create is owed its round trip: no
/// password, a known collection with its migrations, a fresh well-formed
/// document carrying its primary key, a schema that declares no reserved
/// field and only well-formed defaults, and a chain output the write
/// accepts under a string or number key.
pub open spec fn create_round_trip_ready<M: Migrations>(
    st: Storage<M>,
    name: Seq<char>,
    d: Val,
) -> bool {
    &&& st.password is None
    &&& migration_of(st.migrations@, name) is Some
    &&& match schema_of(st.internal.schemas@, name) {
        Some(schema) => {
            &&& d is Obj
            &&& crate::value::wf_val(d)
            &&& !crate::value::obj_has(d->Obj_0, "__version"@)
            &&& forall|i: int|
                0 <= i < schema.properties@.len() ==> (#[trigger] schema.properties@[i]).0@
                    != "__version"@ && schema.properties@[i].0@ != "__integrity"@
            &&& forall|i: int|
                0 <= i < schema.properties@.len() ==> ((
                #[trigger] schema.properties@[i]).1.default matches Some(dv)
                    ==> crate::value::wf_val(dv@))
            &&& schema.primary_key@ != "__version"@
            &&& schema.primary_key@ != "__integrity"@
            &&& obj_get(d->Obj_0, schema.primary_key@) is Some
            &&& obj_get(d->Obj_0, schema.primary_key@) != Some(Val::Null)
            &&& crate::inmemory::pk_string_of(obj_get(d->Obj_0, schema.primary_key@)->0)
                is Some
            &&& write_accepted(schema, plain_create_chain(schema, d))
        },
        None => false,
    }
}

/// A stored form the password-less read chain must hand back unchanged:
/// it carries a matching tag and a current version.
pub open spec fn read_back_owed<M: Migrations>(
    st: Storage<M>,
    name: Seq<char>,
    d: Val,
    sversion: i32,
) -> bool {
    &&& st.password is None
    &&& migration_of(st.migrations@, name) is Some
    &&& obj_get_tag(d) == Some(integrity_tag(d))
    &&& match version_of(d) {
        Some(v) => v >= sversion as int,
        None => false,
    }
}

impl<'a, M: Migrations> Collection<'a, M> {
    /// Constructs a collection handle.
    pub fn from(name: String, storage: &'a mut Storage<M>) -> (r: Collection<'a, M>)
        ensures
            r.name == name,
    {
        Collection { name, storage }
    }

    /// The name of the collection.
    pub fn name(&self) -> (r: String)
        ensures
            r@ == self.name@,
    {
        self.name.clone()
    }

    /// The schema of the collection.
    pub fn schema(&self) -> (r: Result<&Schema, RIDBError>)
        ensures
            r is Ok <==> schema_of(old(self.storage).internal.schemas@, self.name@) is Some,
            r is Ok ==> Some(*r->Ok_0) == schema_of(
                old(self.storage).internal.schemas@,
                self.name@,
            ),
    {
        self.storage.get_schema(self.name.as_str())
    }

    /// Finds the stored documents matching a query and recovers each one
    /// through the read chain: on success, one result per matching stored
    /// document, in storage order, and without a password each result
    /// whose stored form carries its own tag and a current version is that
    /// stored form itself.
    pub fn find(&self, query: &Value) -> (r: Result<Vec<Value>, RIDBError>)
        ensures
            schema_of(old(self.storage).internal.schemas@, self.name@) is None ==> r is Err
                && r->Err_0.message@ == "Collection not found"@,
            ({
                let st = *old(self.storage);
                let sopt = schema_of(st.internal.schemas@, self.name@);
                sopt matches Some(schema) ==> !crate::query::query_parse_ok(query@, schema)
                    ==> r is Err && r->Err_0.message@ == crate::query::query_err_msg(
                    query@,
                    schema,
                )
            }),
            ({
                let st = *old(self.storage);
                let sopt = schema_of(st.internal.schemas@, self.name@);
                sopt matches Some(schema) ==> match crate::inmemory::filter_matches(
                    st.internal.contents(self.name@),
                    query@,
                ) {
                    Some(ds) => r is Ok ==> r->Ok_0@.len() == ds.len() && forall|i: int|
                        0 <= i < ds.len() ==> (read_back_owed(
                            st,
                            self.name@,
                            #[trigger] ds[i],
                            schema.version,
                        ) ==> r->Ok_0@[i]@ == ds[i]),
                    None => r is Err,
                }
            }),
    {
        let raw = match self.storage.internal.find(self.name.as_str(), query) {
            Ok(docs) => docs,
            Err(e) => {
                return Err(e);
            },
        };
        let ghost ds = crate::inmemory::filter_matches(
            old(self.storage).internal.contents(self.name@),
            query@,
        );
        let mut out: Vec<Value> = Vec::new();
        let mut i: usize = 0;
        while i < raw.len()
            invariant
                i <= raw@.len(),
                out@.len() == i,
                schema_of(old(self.storage).internal.schemas@, self.name@) is Some,
                crate::query::query_parse_ok(
                    query@,
                    schema_of(old(self.storage).internal.schemas@, self.name@)->0,
                ),
                schema_of(old(self.storage).internal.schemas@, self.name@) is Some ==> (ds
                    matches Some(dsv) && crate::value::view_arr(raw@) == dsv && (forall|j: int|
                    0 <= j < i ==> (read_back_owed(
                        *old(self.storage),
                        self.name@,
                        #[trigger] dsv[j],
                        schema_of(old(self.storage).internal.schemas@, self.name@)->0.version,
                    ) ==> out@[j]@ == dsv[j]))),
            decreases raw@.len() - i,
        {
            proof {
                crate::value::view_arr_len(raw@);
                crate::value::view_arr_index(raw@, i as int);
            }
            match self.storage.call(self.name.as_str(), HookType::Recover, &raw[i]) {
                Ok(d) => {
                    out.push(d);
                },
                Err(e) => {
                    return Err(e);
                },
            }
            i = i + 1;
        }
        proof {
            if schema_of(old(self.storage).internal.schemas@, self.name@) is Some {
                crate::value::view_arr_len(raw@);
            }
        }
        Ok(out)
    }

    /// Counts the stored documents matching a query.
    pub fn count(&self, query: &Value) -> (r: Result<usize, RIDBError>)
        ensures
            schema_of(old(self.storage).internal.schemas@, self.name@) is None ==> r is Err
                && r->Err_0.message@ == "Collection not found"@,
            ({
                let sopt = schema_of(old(self.storage).internal.schemas@, self.name@);
                sopt matches Some(schema) ==> !crate::query::query_parse_ok(query@, schema)
                    ==> r is Err && r->Err_0.message@ == crate::query::query_err_msg(
                    query@,
                    schema,
                )
            }),
            ({
                let sopt = schema_of(old(self.storage).internal.schemas@, self.name@);
                sopt matches Some(schema) ==> match crate::inmemory::filter_matches(
                    old(self.storage).internal.contents(self.name@),
                    query@,
                ) {
                    Some(ds) => crate::query::query_parse_ok(query@, schema) ==> r is Ok
                        && r->Ok_0 == ds.len(),
                    None => r is Err,
                }
            }),
    {
        self.storage.internal.count(self.name.as_str(), query)
    }

    /// Returns the document under a primary key, recovered through the
    /// read chain; absence comes back as a null value. Without a password,
    /// a stored document carrying its own tag and a current version comes
    /// back as itself, and one whose tag does not match its fields is
    /// refused with "Integrity check failed".
    pub fn find_by_id(&self, primary_key: &Value) -> (r: Result<Value, RIDBError>)
        ensures
            ({
                let st = *old(self.storage);
                let sopt = schema_of(st.internal.schemas@, self.name@);
                &&& sopt is None ==> r is Ok && r->Ok_0@ == Val::Null
                &&& sopt matches Some(schema) ==> match crate::inmemory::pk_string_of(
                    primary_key@,
                ) {
                    Some(pks) => match obj_get(st.internal.contents(self.name@), pks) {
                        Some(d) => {
                            &&& d == Val::Null ==> r is Ok && r->Ok_0@ == Val::Null
                            &&& (d != Val::Null && read_back_owed(
                                st,
                                self.name@,
                                d,
                                schema.version,
                            )) ==> r is Ok && r->Ok_0@ == d
                            &&& (d != Val::Null && st.password is None && migration_of(
                                st.migrations@,
                                self.name@,
                            ) is Some) ==> match obj_get_tag(d) {
                                Some(t) => t != integrity_tag(d) ==> r is Err
                                    && r->Err_0.message@ == "Integrity check failed"@,
                                None => true,
                            }
                        },
                        None => r is Ok && r->Ok_0@ == Val::Null,
                    },
                    None => r is Ok && r->Ok_0@ == Val::Null,
                }
            }),
    {
        let found = match self.storage.find_document_by_id(self.name.as_str(), primary_key) {
            Ok(d) => d,
            Err(e) => {
                return Err(e);
            },
        };
        match found {
            Value::Null => Ok(Value::Null),
            doc => self.storage.call(self.name.as_str(), HookType::Recover, &doc),
        }
    }

    /// Creates or updates a document: the create chain runs, the result is
    /// written, and the stored form is recovered for the caller. Where the
    /// round trip is owed (`create_round_trip_ready`), the whole operation
    /// succeeds, the caller receives exactly the written form, and the
    /// collection's contents gain it under the document's key.
    pub fn create(self, document: &Value) -> (r: Result<Value, RIDBError>)
        ensures
            ({
                let st = *old(self.storage);
                let sopt = schema_of(st.internal.schemas@, self.name@);
                sopt matches Some(schema) ==> {
                    let c = plain_create_chain(schema, document@);
                    let docs = st.internal.contents(self.name@);
                    &&& (r is Ok && st.password is None && migration_of(
                        st.migrations@,
                        self.name@,
                    ) is Some && document@ is Obj) ==> match obj_get(
                        c->Obj_0,
                        schema.primary_key@,
                    ) {
                        Some(pkv) => match crate::inmemory::pk_string_of(pkv) {
                            Some(pks) => final(self.storage).internal.contents(self.name@)
                                == obj_insert(docs, pks, c),
                            None => false,
                        },
                        None => false,
                    }
                    &&& create_round_trip_ready(st, self.name@, document@) ==> r is Ok
                        && r->Ok_0@ == c
                }
            }),
    {
        let processed = match self.storage.call(self.name.as_str(), HookType::Create, document) {
            Ok(d) => d,
            Err(e) => {
                proof {
                    if create_round_trip_ready(*old(self.storage), self.name@, document@) {
                        round_trip_owed(*old(self.storage), self.name@, document@);
                    }
                }
                return Err(e);
            },
        };
        let written = match self.storage.write(self.name.as_str(), &processed) {
            Ok(d) => d,
            Err(e) => {
                proof {
                    if create_round_trip_ready(*old(self.storage), self.name@, document@) {
                        round_trip_owed(*old(self.storage), self.name@, document@);
                    }
                }
                return Err(e);
            },
        };
        let recovered = self.storage.call(self.name.as_str(), HookType::Recover, &written);
        proof {
            if create_round_trip_ready(*old(self.storage), self.name@, document@) {
                round_trip_owed(*old(self.storage), self.name@, document@);
            }
        }
        recovered
    }

    /// Updates (or creates) a document, like `create`: writes are upserts.
    pub fn update(self, document: &Value) -> (r: Result<Value, RIDBError>)
        ensures
            ({
                let st = *old(self.storage);
                let sopt = schema_of(st.internal.schemas@, self.name@);
                sopt matches Some(schema) ==> (create_round_trip_ready(
                    st,
                    self.name@,
                    document@,
                ) ==> r is Ok && r->Ok_0@ == plain_create_chain(schema, document@))
            }),
    {
        self.create(document)
    }

    /// Deletes the document under a primary key; a missing one is refused.
    /// The handle is consumed: what its storage holds afterwards is stated
    /// over the borrow it carried.
    pub fn delete(self, primary_key: &Value) -> (r: Result<Value, RIDBError>)
        ensures
            ({
                let sopt = schema_of(old(self.storage).internal.schemas@, self.name@);
                sopt matches Some(schema) ==> match crate::inmemory::pk_string_of(primary_key@) {
                    Some(pks) => {
                        let docs = old(self.storage).internal.contents(self.name@);
                        &&& !crate::value::obj_has(docs, pks) ==> r is Err
                            && r->Err_0.message@ == "Invalid primary key value"@
                        &&& r is Ok ==> final(self.storage).internal.contents(self.name@)
                            == crate::value::obj_remove(docs, pks)
                        &&& (crate::value::obj_has(docs, pks) && crate::value::obj_get(
                            docs,
                            pks,
                        ) != Some(crate::value::Val::Null)) ==> r is Ok
                    },
                    None => r is Err && r->Err_0.message@ == "Invalid primary key value"@,
                }
            }),
    {
        self.storage.remove(self.name.as_str(), primary_key)
    }
}

/// Where the round trip is owed, every stage of the create chain is: the
/// law `lemma_create_recover_identity` discharges the read chain's
/// integrity and version conditions for the written form.
proof fn round_trip_owed<M: Migrations>(st: Storage<M>, name: Seq<char>, d: Val)
    requires
        create_round_trip_ready(st, name, d),
    ensures
        ({
            let schema = schema_of(st.internal.schemas@, name)->0;
            let c = plain_create_chain(schema, d);
            &&& obj_get_tag(c) == Some(integrity_tag(c))
            &&& version_of(c) == Some(schema.version as int)
            &&& obj_get(c->Obj_0, schema.primary_key@) == obj_get(
                d->Obj_0,
                schema.primary_key@,
            )
        }),
{
    let schema = schema_of(st.internal.schemas@, name)->0;
    crate::storage::lemma_create_recover_identity(schema, d, schema.primary_key@);
}

} // verus!
