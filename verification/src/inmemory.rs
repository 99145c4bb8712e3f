//! The reference in-memory backend: one key/value table per collection.
//!
//! Documents live under `pk_<collection>_<primaryKey>`, keyed by the
//! string form of their primary key. Writes enforce the primary-key
//! discipline: a create wants the key absent, an update and a delete want
//! it present.

use vstd::prelude::*;
use vstd::string::StringExecFns;

use crate::error::{Errors, RIDBError};
use crate::eval::{eval_query, CoreStorage};
use crate::operation::{OpType, Operation};
use crate::schema::Schema;
use crate::value::{obj_get, obj_insert, obj_remove, view_fields, Val, Value};

verus! {

broadcast use vstd::seq::group_seq_axioms;

/// The schema bound to a collection name, scanning in order.
pub open spec fn schema_of(ss: Seq<(String, Schema)>, name: Seq<char>) -> Option<Schema>
    decreases ss.len(),
{
    if ss.len() == 0 {
        None
    } else if ss[0].0@ == name {
        Some(ss[0].1)
    } else {
        schema_of(ss.subrange(1, ss.len() as int), name)
    }
}

/// The table stored under an index name, scanning in order.
pub open spec fn table_of(
    tbl: Seq<(String, Vec<(String, Value)>)>,
    name: Seq<char>,
) -> Option<Vec<(String, Value)>>
    decreases tbl.len(),
{
    if tbl.len() == 0 {
        None
    } else if tbl[0].0@ == name {
        Some(tbl[0].1)
    } else {
        table_of(tbl.subrange(1, tbl.len() as int), name)
    }
}

/// The key string a primary-key value files under.
pub open spec fn pk_string_of(v: Val) -> Option<Seq<char>> {
    match v {
        Val::Str(s) => Some(s),
        Val::Int(i) => Some(crate::canon::dec_int(i)),
        _ => None,
    }
}

/// The index name of a collection's primary key.
pub open spec fn index_name_of(collection: Seq<char>, pk: Seq<char>) -> Seq<char> {
    "pk_"@ + collection + "_"@ + pk
}

/// The documents a collection holds, keyed by primary-key string.
pub open spec fn stored_docs(
    tbl: Seq<(String, Vec<(String, Value)>)>,
    name: Seq<char>,
) -> Seq<(Seq<char>, Val)> {
    match table_of(tbl, name) {
        Some(t) => view_fields(t@),
        None => Seq::empty(),
    }
}

/// The stored documents that match a query, in storage order; `None` when
/// the evaluator faults on any of them.
pub open spec fn filter_matches(docs: Seq<(Seq<char>, Val)>, q: Val) -> Option<Seq<Val>>
    decreases docs.len(),
{
    if docs.len() == 0 {
        Some(Seq::empty())
    } else {
        match eval_query(q, docs[0].1) {
            None => None,
            Some(m) => match filter_matches(docs.subrange(1, docs.len() as int), q) {
                None => None,
                Some(rest) => Some(
                    if m {
                        seq![docs[0].1] + rest
                    } else {
                        rest
                    },
                ),
            },
        }
    }
}

/// An in-memory storage backend.
#[derive(Debug)]
pub struct InMemory {
    pub name: String,
    pub schemas: Vec<(String, Schema)>,
    pub core: CoreStorage,
    pub by_index: Vec<(String, Vec<(String, Value)>)>,
    pub started: bool,
}

/// Looks a collection's schema up.
#[verifier::loop_isolation(false)]
pub fn find_schema<'a>(ss: &'a Vec<(String, Schema)>, name: &str) -> (r: Option<&'a Schema>)
    ensures
        match r {
            Some(s) => schema_of(ss@, name@) == Some(*s),
            None => schema_of(ss@, name@) is None,
        },
{
    proof {
        assert(ss@.subrange(0, ss@.len() as int) =~= ss@);
    }
    let mut i: usize = 0;
    loop
        invariant
            i <= ss@.len(),
            schema_of(ss@, name@) == schema_of(ss@.subrange(i as int, ss@.len() as int), name@),
        decreases ss@.len() - i,
    {
        proof {
            if i < ss@.len() {
                assert(ss@.subrange(i as int, ss@.len() as int)[0] == ss@[i as int]);
                assert(ss@.subrange(i as int, ss@.len() as int).subrange(
                    1,
                    ss@.len() - i,
                ) =~= ss@.subrange(i + 1, ss@.len() as int));
            }
        }
        if i >= ss.len() {
            return None;
        }
        if crate::value::str_eq(ss[i].0.as_str(), name) {
            return Some(&ss[i].1);
        }
        i = i + 1;
    }
}

/// The position of an index table, if the backend holds it.
#[verifier::loop_isolation(false)]
fn find_table(tbl: &Vec<(String, Vec<(String, Value)>)>, name: &str) -> (r: Option<usize>)
    ensures
        match r {
            Some(i) => i < tbl@.len() && tbl@[i as int].0@ == name@ && table_of(tbl@, name@)
                == Some(tbl@[i as int].1) && (forall|j: int|
                0 <= j < i ==> (#[trigger] tbl@[j]).0@ != name@),
            None => table_of(tbl@, name@) is None,
        },
{
    proof {
        assert(tbl@.subrange(0, tbl@.len() as int) =~= tbl@);
    }
    let mut i: usize = 0;
    loop
        invariant
            i <= tbl@.len(),
            forall|j: int| 0 <= j < i ==> (#[trigger] tbl@[j]).0@ != name@,
            table_of(tbl@, name@) == table_of(
                tbl@.subrange(i as int, tbl@.len() as int),
                name@,
            ),
        decreases tbl@.len() - i,
    {
        proof {
            if i < tbl@.len() {
                assert(tbl@.subrange(i as int, tbl@.len() as int)[0] == tbl@[i as int]);
                assert(tbl@.subrange(i as int, tbl@.len() as int).subrange(
                    1,
                    tbl@.len() - i,
                ) =~= tbl@.subrange(i + 1, tbl@.len() as int));
            }
        }
        if i >= tbl.len() {
            return None;
        }
        if crate::value::str_eq(tbl[i].0.as_str(), name) {
            return Some(i);
        }
        i = i + 1;
    }
}

/// The string form a primary-key value files under.
pub fn pk_to_string(v: &Value) -> (r: Result<String, RIDBError>)
    ensures
        r is Ok <==> pk_string_of(v@) is Some,
        r is Ok ==> Some(r->Ok_0@) == pk_string_of(v@),
{
    match v {
        Value::Str(s) => Ok(s.clone()),
        Value::Int(i) => {
            let mut cs: Vec<char> = Vec::new();
            crate::canon::write_int(*i, &mut cs);
            proof {
                assert(cs@ =~= crate::canon::dec_int(*i as int));
            }
            Ok(crate::trusted::chars_to_string(&cs))
        },
        _ => Err(RIDBError { code: Errors::Error, message: String::from_str("Primary key must be a string or number") }),
    }
}

/// Builds the index name of a collection's primary key.
fn make_index_name(collection: &str, pk: &str) -> (r: String)
    ensures
        r@ == index_name_of(collection@, pk@),
{
    String::from_str("pk_").concat(collection).concat("_").concat(pk)
}

impl InMemory {
    /// Creates an in-memory backend over parsed schemas.
    pub fn create(name: &str, schemas: Vec<(String, Schema)>) -> (r: InMemory)
        ensures
            r.schemas == schemas,
            r.by_index@.len() == 0,
            r.started == false,
    {
        InMemory {
            name: String::from_str(name),
            schemas,
            core: CoreStorage {  },
            by_index: Vec::new(),
            started: false,
        }
    }

    /// What one collection stores, keyed by primary-key string.
    pub open spec fn contents(&self, collection: Seq<char>) -> Seq<(Seq<char>, Val)> {
        match schema_of(self.schemas@, collection) {
            Some(s) => stored_docs(self.by_index@, index_name_of(collection, s.primary_key@)),
            None => Seq::empty(),
        }
    }

    /// Applies a write operation. A create wants the primary key absent, an
    /// update and a delete want it present; the collection's contents
    /// change only on success.
    #[verifier::loop_isolation(false)]
    #[verifier::rlimit(100)]
    pub fn write(&mut self, op: &Operation) -> (r: Result<Value, RIDBError>)
        ensures
            final(self).schemas == old(self).schemas,
            final(self).started == old(self).started,
            schema_of(old(self).schemas@, op.collection@) is None ==> r is Err
                && r->Err_0.message@ == "Collection not found"@,
            r is Err ==> final(self).contents(op.collection@) == old(self).contents(
                op.collection@,
            ),
            r is Err ==> forall|nm: Seq<char>|
                #[trigger] stored_docs(final(self).by_index@, nm) == stored_docs(
                    old(self).by_index@,
                    nm,
                ),
            ({
                let sopt = schema_of(old(self).schemas@, op.collection@);
                sopt matches Some(schema) ==> {
                    let docs = old(self).contents(op.collection@);
                    let newdocs = final(self).contents(op.collection@);
                    &&& (op.op_type == OpType::CREATE || op.op_type == OpType::UPDATE) ==> {
                        let pk = obj_get(
                            if op.data@ is Obj {
                                op.data@->Obj_0
                            } else {
                                Seq::empty()
                            },
                            schema.primary_key@,
                        );
                        &&& (!(op.data@ is Obj) || pk is None || pk_string_of(pk->0) is None
                            || !crate::schema::doc_conforms(schema, op.data@)) ==> r is Err
                        &&& match pk {
                            Some(pkv) => match pk_string_of(pkv) {
                                Some(pks) => {
                                    &&& (op.op_type == OpType::CREATE && crate::value::obj_has(
                                        docs,
                                        pks,
                                    )) ==> r is Err
                                    &&& (op.op_type == OpType::UPDATE && !crate::value::obj_has(
                                        docs,
                                        pks,
                                    )) ==> r is Err
                                    &&& (crate::schema::doc_conforms(schema, op.data@)
                                        && op.op_type == OpType::CREATE && crate::value::obj_has(
                                        docs,
                                        pks,
                                    )) ==> r is Err && r->Err_0.message@
                                        == "Document with this primary key already exists"@
                                    &&& (crate::schema::doc_conforms(schema, op.data@)
                                        && op.op_type == OpType::UPDATE
                                        && !crate::value::obj_has(docs, pks)) ==> r is Err
                                        && r->Err_0.message@
                                        == "Document with this primary key does not exist"@
                                    &&& r is Ok ==> newdocs == obj_insert(docs, pks, op.data@)
                                        && r->Ok_0@ == op.data@
                                    &&& (crate::schema::doc_conforms(schema, op.data@)
                                        && op.op_type == OpType::CREATE
                                        && !crate::value::obj_has(docs, pks)) ==> r is Ok
                                    &&& (crate::schema::doc_conforms(schema, op.data@)
                                        && op.op_type == OpType::UPDATE && crate::value::obj_has(
                                        docs,
                                        pks,
                                    )) ==> r is Ok
                                },
                                None => true,
                            },
                            None => true,
                        }
                    }
                    &&& op.op_type == OpType::DELETE ==> {
                        let pk = pk_string_of(op.data@);
                        &&& pk is None ==> r is Err
                        &&& match pk {
                            Some(pks) => {
                                &&& !crate::value::obj_has(docs, pks) ==> r is Err
                                    && r->Err_0.message@
                                    == "Document with this primary key does not exist"@
                                &&& crate::value::obj_has(docs, pks) ==> r is Ok && newdocs
                                    == obj_remove(docs, pks) && r->Ok_0@ == Val::Str(
                                    "Document deleted"@,
                                )
                            },
                            None => true,
                        }
                    }
                    &&& (op.op_type == OpType::QUERY || op.op_type == OpType::COUNT) ==> r
                        is Err
                    &&& forall|nm: Seq<char>|
                        nm != index_name_of(op.collection@, schema.primary_key@)
                            ==> #[trigger] stored_docs(final(self).by_index@, nm)
                            == stored_docs(old(self).by_index@, nm)
                }
            }),
    {
        let schema = match find_schema(&self.schemas, op.collection.as_str()) {
            Some(s) => s,
            None => {
                return Err(RIDBError { code: Errors::Error, message: String::from_str("Collection not found") });
            },
        };
        let primary_key = schema.primary_key.clone();
        let index_name = make_index_name(op.collection.as_str(), primary_key.as_str());
        match op.op_type {
            OpType::CREATE | OpType::UPDATE => {
                let fields = match &op.data {
                    Value::Obj(fields) => fields,
                    _ => {
                        return Err(RIDBError { code: Errors::Error, message: String::from_str("Document must contain a primary key") });
                    },
                };
                let pk_value = match crate::value::obj_get_value(fields, primary_key.as_str()) {
                    Some(v) => v,
                    None => {
                        return Err(RIDBError { code: Errors::Error, message: String::from_str("Document must contain a primary key") });
                    },
                };
                let pk_str = match pk_to_string(pk_value) {
                    Ok(s) => s,
                    Err(e) => {
                        return Err(e);
                    },
                };
                match schema.validate_schema(&op.data) {
                    Ok(_) => {},
                    Err(e) => {
                        return Err(e);
                    },
                }
                let is_create = matches!(op.op_type, OpType::CREATE);
                let ti: usize = match find_table(&self.by_index, index_name.as_str()) {
                    Some(t) => t,
                    None => {
                        let ghost pre = self.by_index@;
                        let fresh: Vec<(String, Value)> = Vec::new();
                        self.by_index.push((index_name.clone(), fresh));
                        proof {
                            lemma_table_of_none(pre, index_name@);
                            assert(self.by_index@ == pre.push(self.by_index@.last()));
                            lemma_table_of_push(
                                pre,
                                self.by_index@.last().0,
                                self.by_index@.last().1,
                            );
                            assert(view_fields(self.by_index@.last().1@) =~= Seq::<
                                (Seq<char>, Val),
                            >::empty());
                            assert(stored_docs(self.by_index@, index_name@) =~= stored_docs(
                                pre,
                                index_name@,
                            ));
                        }
                        self.by_index.len() - 1
                    },
                };
                proof {
                    assert(table_of(self.by_index@, index_name@) == Some(
                        self.by_index@[ti as int].1,
                    ));
                    assert(forall|j: int|
                        0 <= j < ti ==> (#[trigger] self.by_index@[j]).0@ != index_name@);
                }
                let ghost mid = self.by_index@;
                let ghost docs0 = stored_docs(mid, index_name@);
                let present = match crate::value::obj_find(&self.by_index[ti].1, pk_str.as_str()) {
                    Some(_) => true,
                    None => false,
                };
                if is_create && present {
                    return Err(RIDBError { code: Errors::Error, message: String::from_str("Document with this primary key already exists") });
                }
                if !is_create && !present {
                    return Err(RIDBError { code: Errors::Error, message: String::from_str("Document with this primary key does not exist") });
                }
                let stored = op.data.deep_copy();
                let tbl = &mut self.by_index[ti].1;
                crate::value::obj_set_value(tbl, pk_str.as_str(), stored);
                proof {
                    lemma_table_of_update(mid, self.by_index@, ti as int, index_name@);
                    assert(stored_docs(self.by_index@, index_name@) == obj_insert(
                        docs0,
                        pk_str@,
                        op.data@,
                    ));
                }
                Ok(op.data.deep_copy())
            },
            OpType::DELETE => {
                let pk_str = match pk_to_string(&op.data) {
                    Ok(s) => s,
                    Err(e) => {
                        return Err(e);
                    },
                };
                let ti: usize = match find_table(&self.by_index, index_name.as_str()) {
                    Some(t) => t,
                    None => {
                        return Err(
                            RIDBError { code: Errors::Error, message: String::from_str("Document with this primary key does not exist") },
                        );
                    },
                };
                let ghost mid = self.by_index@;
                let ghost docs0 = stored_docs(mid, index_name@);
                let present = match crate::value::obj_find(&self.by_index[ti].1, pk_str.as_str()) {
                    Some(_) => true,
                    None => false,
                };
                if !present {
                    return Err(RIDBError { code: Errors::Error, message: String::from_str("Document with this primary key does not exist") });
                }
                let tbl = &mut self.by_index[ti].1;
                crate::value::obj_remove_value(tbl, pk_str.as_str());
                proof {
                    lemma_table_of_update(mid, self.by_index@, ti as int, index_name@);
                    assert(stored_docs(self.by_index@, index_name@) == obj_remove(
                        docs0,
                        pk_str@,
                    ));
                }
                Ok(Value::Str(String::from_str("Document deleted")))
            },
            _ => Err(RIDBError { code: Errors::Error, message: String::from_str("Unsupported operation type") }),
        }
    }

    /// Returns the stored documents matching a query, in storage order.
    #[verifier::loop_isolation(false)]
    #[verifier::rlimit(100)]
    pub fn find(&self, collection_name: &str, query: &Value) -> (r: Result<Vec<Value>, RIDBError>)
        ensures
            schema_of(self.schemas@, collection_name@) is None ==> r is Err
                && r->Err_0.message@ == "Collection not found"@,
            ({
                let sopt = schema_of(self.schemas@, collection_name@);
                sopt matches Some(schema) ==> {
                    let docs = self.contents(collection_name@);
                    &&& !crate::query::query_parse_ok(query@, schema) ==> (r is Err
                        && r->Err_0.message@ == crate::query::query_err_msg(query@, schema))
                    &&& crate::query::query_parse_ok(query@, schema) ==> match filter_matches(
                        docs,
                        query@,
                    ) {
                        None => r is Err,
                        Some(ds) => r is Ok && crate::value::view_arr(r->Ok_0@) == ds,
                    }
                }
            }),
    {
        let schema = match find_schema(&self.schemas, collection_name) {
            Some(s) => s,
            None => {
                return Err(RIDBError { code: Errors::Error, message: String::from_str("Collection not found") });
            },
        };
        let parsed = match crate::query::process_query(query, schema) {
            Ok(p) => p,
            Err(e) => {
                return Err(e);
            },
        };
        let index_name = make_index_name(collection_name, schema.primary_key.as_str());
        let mut results: Vec<Value> = Vec::new();
        let ti = match find_table(&self.by_index, index_name.as_str()) {
            Some(ti) => ti,
            None => {
                proof {
                    assert(crate::value::view_arr(results@) =~= Seq::<Val>::empty());
                }
                return Ok(results);
            },
        };
        let tbl = &self.by_index[ti].1;
        let ghost docs = view_fields(tbl@);
        proof {
            crate::value::view_fields_len(tbl@);
            assert(docs.subrange(0, docs.len() as int) =~= docs);
        }
        let mut i: usize = 0;
        while i < tbl.len()
            invariant
                i <= tbl@.len(),
                match filter_matches(docs.subrange(i as int, docs.len() as int), query@) {
                    None => filter_matches(docs, query@) is None,
                    Some(rest) => filter_matches(docs, query@) == Some(
                        crate::value::view_arr(results@) + rest,
                    ),
                },
            decreases tbl@.len() - i,
        {
            let ghost tail = docs.subrange(i as int, docs.len() as int);
            proof {
                assert(tail[0] == docs[i as int]);
                crate::value::view_fields_index(tbl@, i as int);
                assert(tail.subrange(1, tail.len() as int) =~= docs.subrange(
                    i + 1,
                    docs.len() as int,
                ));
            }
            let doc = &tbl[i].1;
            let matched = match self.core.document_matches_query(doc, &parsed) {
                Ok(m) => m,
                Err(e) => {
                    return Err(e);
                },
            };
            if matched {
                let ghost pre = results@;
                results.push(doc.deep_copy());
                proof {
                    crate::value::view_arr_push(pre, results@.last());
                    if filter_matches(docs.subrange(i + 1, docs.len() as int), query@) is Some {
                        let rest = filter_matches(
                            docs.subrange(i + 1, docs.len() as int),
                            query@,
                        )->0;
                        assert(crate::value::view_arr(pre).push(doc@) + rest =~= crate::value::view_arr(
                            pre,
                        ) + (seq![doc@] + rest));
                    }
                }
            }
            i = i + 1;
        }
        proof {
            assert(docs.subrange(docs.len() as int, docs.len() as int) =~= Seq::<
                (Seq<char>, Val),
            >::empty());
            if filter_matches(docs, query@) is Some {
                assert(crate::value::view_arr(results@) + Seq::<Val>::empty() =~= crate::value::view_arr(
                    results@,
                ));
            }
        }
        Ok(results)
    }

    /// Counts the stored documents matching a query.
    pub fn count(&self, collection_name: &str, query: &Value) -> (r: Result<usize, RIDBError>)
        ensures
            schema_of(self.schemas@, collection_name@) is None ==> r is Err
                && r->Err_0.message@ == "Collection not found"@,
            ({
                let sopt = schema_of(self.schemas@, collection_name@);
                sopt matches Some(schema) ==> {
                    let docs = self.contents(collection_name@);
                    &&& !crate::query::query_parse_ok(query@, schema) ==> (r is Err
                        && r->Err_0.message@ == crate::query::query_err_msg(query@, schema))
                    &&& crate::query::query_parse_ok(query@, schema) ==> match filter_matches(
                        docs,
                        query@,
                    ) {
                        None => r is Err,
                        Some(ds) => r is Ok && r->Ok_0 == ds.len(),
                    }
                }
            }),
    {
        match self.find(collection_name, query) {
            Ok(results) => {
                proof {
                    crate::value::view_arr_len(results@);
                }
                Ok(results.len())
            },
            Err(e) => Err(e),
        }
    }

    /// Returns the stored document under a primary key, or fails when the
    /// collection does not hold one.
    pub fn find_document_by_id(&self, collection_name: &str, primary_key: &Value) -> (r: Result<
        Value,
        RIDBError,
    >)
        ensures
            schema_of(self.schemas@, collection_name@) is None ==> r is Err,
            pk_string_of(primary_key@) is None ==> r is Err,
            ({
                let sopt = schema_of(self.schemas@, collection_name@);
                &&& sopt is Some ==> match pk_string_of(primary_key@) {
                    Some(pks) => match obj_get(self.contents(collection_name@), pks) {
                        Some(d) => r is Ok && r->Ok_0@ == d,
                        None => r is Err,
                    },
                    None => r is Err,
                }
            }),
    {
        let schema = match find_schema(&self.schemas, collection_name) {
            Some(s) => s,
            None => {
                return Err(RIDBError { code: Errors::Error, message: String::from_str("Collection not found") });
            },
        };
        let pk_str = match pk_to_string(primary_key) {
            Ok(s) => s,
            Err(e) => {
                return Err(e);
            },
        };
        let index_name = make_index_name(collection_name, schema.primary_key.as_str());
        let ti = match find_table(&self.by_index, index_name.as_str()) {
            Some(ti) => ti,
            None => {
                return Err(RIDBError { code: Errors::Error, message: String::from_str("Document not found") });
            },
        };
        let tbl = &self.by_index[ti].1;
        match crate::value::obj_get_value(tbl, pk_str.as_str()) {
            Some(doc) => Ok(doc.deep_copy()),
            None => Err(RIDBError { code: Errors::Error, message: String::from_str("Document not found") }),
        }
    }

    /// Clears all data and resets the lifecycle state.
    pub fn close(&mut self) -> (r: Result<(), RIDBError>)
        ensures
            r is Ok,
            final(self).by_index@.len() == 0,
            final(self).started == false,
            final(self).schemas == old(self).schemas,
    {
        self.by_index.clear();
        self.started = false;
        Ok(())
    }

    /// Marks the backend started; a second start is refused.
    pub fn start(&mut self) -> (r: Result<(), RIDBError>)
        ensures
            old(self).started ==> r is Err && *final(self) == *old(self),
            !old(self).started ==> r is Ok && *final(self) == (InMemory {
                started: true,
                ..*old(self)
            }),
    {
        if self.started {
            return Err(RIDBError::error("In-memory database already started"));
        }
        self.started = true;
        Ok(())
    }
}

/// An unbound name occurs nowhere in the table list.
proof fn lemma_table_of_none(tbl: Seq<(String, Vec<(String, Value)>)>, name: Seq<char>)
    requires
        table_of(tbl, name) is None,
    ensures
        forall|j: int| 0 <= j < tbl.len() ==> (#[trigger] tbl[j]).0@ != name,
    decreases tbl.len(),
{
    if tbl.len() > 0 {
        let rest = tbl.subrange(1, tbl.len() as int);
        lemma_table_of_none(rest, name);
        assert forall|j: int| 0 <= j < tbl.len() implies (#[trigger] tbl[j]).0@ != name by {
            if j > 0 {
                assert(tbl[j] == rest[j - 1]);
            }
        }
    }
}

/// Appending a fresh table binds its own name and nothing else.
proof fn lemma_table_of_push(
    pre: Seq<(String, Vec<(String, Value)>)>,
    s: String,
    t: Vec<(String, Value)>,
)
    requires
        table_of(pre, s@) is None,
    ensures
        table_of(pre.push((s, t)), s@) == Some(t),
        forall|nm: Seq<char>|
            nm != s@ ==> #[trigger] table_of(pre.push((s, t)), nm) == table_of(pre, nm),
    decreases pre.len(),
{
    let post = pre.push((s, t));
    if pre.len() == 0 {
        assert(post[0] == (s, t));
        assert forall|nm: Seq<char>| nm != s@ implies #[trigger] table_of(post, nm) == table_of(
            pre,
            nm,
        ) by {
            assert(post.subrange(1, post.len() as int) =~= pre);
        }
    } else {
        let rest = pre.subrange(1, pre.len() as int);
        lemma_table_of_push(rest, s, t);
        assert(post[0] == pre[0]);
        assert(post.subrange(1, post.len() as int) =~= rest.push((s, t)));
        assert forall|nm: Seq<char>| nm != s@ implies #[trigger] table_of(post, nm) == table_of(
            pre,
            nm,
        ) by {
            if pre[0].0@ != nm {
                assert(table_of(post, nm) == table_of(rest.push((s, t)), nm));
            }
        }
    }
}

/// Replacing the table at one position changes only its binding.
proof fn lemma_table_of_update(
    pre: Seq<(String, Vec<(String, Value)>)>,
    post: Seq<(String, Vec<(String, Value)>)>,
    i: int,
    name: Seq<char>,
)
    requires
        0 <= i < pre.len(),
        post.len() == pre.len(),
        forall|j: int| 0 <= j < pre.len() && j != i ==> post[j] == pre[j],
        post[i].0 == pre[i].0,
        pre[i].0@ == name,
        forall|j: int| 0 <= j < i ==> (#[trigger] pre[j]).0@ != name,
    ensures
        table_of(post, name) == Some(post[i].1),
        forall|nm: Seq<char>| nm != name ==> #[trigger] table_of(post, nm) == table_of(pre, nm),
    decreases i,
{
    if i == 0 {
        assert forall|nm: Seq<char>| nm != name implies #[trigger] table_of(post, nm) == table_of(
            pre,
            nm,
        ) by {
            assert(post.subrange(1, post.len() as int) =~= pre.subrange(1, pre.len() as int));
        }
    } else {
        let prest = pre.subrange(1, pre.len() as int);
        let porest = post.subrange(1, post.len() as int);
        assert(post[0] == pre[0]);
        assert forall|j: int| 0 <= j < prest.len() && j != i - 1 implies porest[j] == prest[j] by {
            assert(porest[j] == post[j + 1]);
            assert(prest[j] == pre[j + 1]);
        }
        assert(porest[i - 1] == post[i]);
        assert(prest[i - 1] == pre[i]);
        assert forall|j: int| 0 <= j < i - 1 implies (#[trigger] prest[j]).0@ != name by {
            assert(prest[j] == pre[j + 1]);
        }
        lemma_table_of_update(prest, porest, i - 1, name);
        assert forall|nm: Seq<char>| nm != name implies #[trigger] table_of(post, nm) == table_of(
            pre,
            nm,
        ) by {
            if pre[0].0@ != nm {
                assert(table_of(post, nm) == table_of(porest, nm));
                assert(table_of(pre, nm) == table_of(prest, nm));
            }
        }
    }
}

} // verus!
