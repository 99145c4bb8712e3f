//! The query evaluator: does a document match a query?
//!
//! A query is a JSON object mixing attribute conditions with the logical
//! operators `$and` and `$or`. The evaluator walks the query fields in
//! order; a logical operator decides the whole query on the spot, an
//! attribute condition must hold and the walk goes on. The spec functions
//! here give the evaluator's semantics: `Some(b)` for a verdict, `None`
//! where the query is malformed (a logical operator without an array, an
//! unknown operator, an operator over a non-number).

use vstd::prelude::*;
use vstd::string::StringExecFns;

use crate::error::RIDBError;
use crate::value::{obj_get, Val, Value};

verus! {

/// Whether a key is one of the logical operators.
pub open spec fn is_logical(k: Seq<char>) -> bool {
    k == "$and"@ || k == "$or"@
}

/// JavaScript-style truthiness of a present value.
pub open spec fn val_truthy(v: Val) -> bool {
    match v {
        Val::Null => false,
        Val::Bool(b) => b,
        Val::Int(i) => i != 0,
        Val::Str(s) => s.len() > 0,
        Val::Arr(_) => true,
        Val::Obj(_) => true,
    }
}

/// Truthiness of a possibly absent document field.
pub open spec fn opt_truthy(v: Option<Val>) -> bool {
    v is Some && val_truthy(v->0)
}

/// The boolean reading of a value: only booleans have one.
pub open spec fn opt_as_bool(v: Option<Val>) -> Option<bool> {
    match v {
        Some(Val::Bool(b)) => Some(b),
        _ => None,
    }
}

/// The numeric reading of a value: only numbers have one.
pub open spec fn opt_as_num(v: Option<Val>) -> Option<int> {
    match v {
        Some(Val::Int(i)) => Some(i),
        _ => None,
    }
}

/// Type-aware equality between a document field and a condition value.
pub open spec fn values_equal(dv: Option<Val>, cv: Val) -> bool {
    if dv is Some && dv->0 is Str && cv is Str {
        dv->0 == cv
    } else if dv is Some && dv->0 is Int {
        opt_as_num(dv) == opt_as_num(Some(cv))
    } else if opt_truthy(dv) || !val_truthy(cv) {
        opt_as_bool(dv) == opt_as_bool(Some(cv))
    } else {
        false
    }
}

/// The field a query key selects, absent when the document is no object.
pub open spec fn doc_field(d: Val, k: Seq<char>) -> Option<Val> {
    if d is Obj {
        obj_get(d->Obj_0, k)
    } else {
        None
    }
}

/// The verdict of a whole query over a document.
pub open spec fn eval_query(q: Val, d: Val) -> Option<bool>
    decreases q, 1int,
{
    if q is Obj {
        eval_fields(q->Obj_0, d)
    } else {
        None
    }
}

/// The verdict of the remaining query fields.
pub open spec fn eval_fields(fs: Seq<(Seq<char>, Val)>, d: Val) -> Option<bool>
    decreases fs, 1int,
{
    if fs.len() == 0 {
        Some(true)
    } else {
        let k = fs[0].0;
        let v = fs[0].1;
        if k == "$and"@ {
            if v is Arr {
                eval_all(v->Arr_0, d)
            } else {
                None
            }
        } else if k == "$or"@ {
            if v is Arr {
                eval_any(v->Arr_0, d)
            } else {
                None
            }
        } else {
            match eval_condition(doc_field(d, k), v) {
                None => None,
                Some(false) => Some(false),
                Some(true) => eval_fields(fs.subrange(1, fs.len() as int), d),
            }
        }
    }
}

/// All sub-queries must match; the first failure or fault decides.
pub open spec fn eval_all(items: Seq<Val>, d: Val) -> Option<bool>
    decreases items, 2int,
{
    if items.len() == 0 {
        Some(true)
    } else {
        match eval_query(items[0], d) {
            None => None,
            Some(false) => Some(false),
            Some(true) => eval_all(items.subrange(1, items.len() as int), d),
        }
    }
}

/// At least one sub-query must match; the first match or fault decides.
pub open spec fn eval_any(items: Seq<Val>, d: Val) -> Option<bool>
    decreases items, 2int,
{
    if items.len() == 0 {
        Some(false)
    } else {
        match eval_query(items[0], d) {
            None => None,
            Some(true) => Some(true),
            Some(false) => eval_any(items.subrange(1, items.len() as int), d),
        }
    }
}

/// The verdict of one condition over a document field: an object holds
/// operators that must all hold, anything else is compared for equality.
pub open spec fn eval_condition(dv: Option<Val>, cond: Val) -> Option<bool>
    decreases cond, 1int,
{
    if cond is Obj {
        eval_ops(cond->Obj_0, dv)
    } else {
        Some(values_equal(dv, cond))
    }
}

/// One comparison operator: absent fields never match, present ones must
/// be numbers, as must the operand.
pub open spec fn eval_cmp(dv: Option<Val>, cv: Val, k: Seq<char>) -> Option<bool> {
    if dv is None {
        Some(false)
    } else if !(dv->0 is Int) || !(cv is Int) {
        None
    } else {
        let a = dv->0->Int_0;
        let b = cv->Int_0;
        if k == "$gt"@ {
            Some(a > b)
        } else if k == "$gte"@ {
            Some(a >= b)
        } else if k == "$lt"@ {
            Some(a < b)
        } else {
            Some(a <= b)
        }
    }
}

/// Whether some element of a `$in` list equals the document field.
pub open spec fn in_list(dv: Option<Val>, items: Seq<Val>) -> bool {
    exists|i: int| 0 <= i < items.len() && values_equal(dv, #[trigger] items[i])
}

/// The verdict of the remaining operator entries of a condition object.
pub open spec fn eval_ops(ops: Seq<(Seq<char>, Val)>, dv: Option<Val>) -> Option<bool>
    decreases ops,
{
    if ops.len() == 0 {
        Some(true)
    } else {
        let k = ops[0].0;
        let v = ops[0].1;
        let step: Option<bool> = if k == "$gt"@ || k == "$gte"@ || k == "$lt"@ || k == "$lte"@ {
            eval_cmp(dv, v, k)
        } else if k == "$in"@ {
            if v is Arr {
                Some(in_list(dv, v->Arr_0))
            } else {
                None
            }
        } else {
            None
        };
        match step {
            None => None,
            Some(false) => Some(false),
            Some(true) => eval_ops(ops.subrange(1, ops.len() as int), dv),
        }
    }
}

/// The stateless evaluation core shared by backends.
#[derive(Debug)]
pub struct CoreStorage {}

/// Whether a present runtime value is truthy.
fn value_truthy(v: &Value) -> (r: bool)
    ensures
        r == val_truthy(v@),
{
    match v {
        Value::Null => false,
        Value::Bool(b) => *b,
        Value::Int(i) => *i != 0,
        Value::Str(s) => s.unicode_len() > 0,
        Value::Arr(_) => true,
        Value::Obj(_) => true,
    }
}

/// Type-aware equality between a document field and a condition value.
fn values_equal_exec(dv: Option<&Value>, cv: &Value) -> (r: bool)
    ensures
        r == values_equal(view_opt(dv), cv@),
{
    match (dv, cv) {
        (Some(Value::Str(a)), Value::Str(b)) => crate::value::str_eq(a.as_str(), b.as_str()),
        _ => {
            let dv_int = match dv {
                Some(Value::Int(i)) => Some(*i),
                _ => None,
            };
            if let Some(a) = dv_int {
                match cv {
                    Value::Int(b) => a == *b,
                    _ => false,
                }
            } else {
                let dv_truthy = match dv {
                    Some(v) => value_truthy(v),
                    None => false,
                };
                if dv_truthy || !value_truthy(cv) {
                    let da = match dv {
                        Some(Value::Bool(b)) => Some(*b),
                        _ => None,
                    };
                    let db = match cv {
                        Value::Bool(b) => Some(*b),
                        _ => None,
                    };
                    match (da, db) {
                        (Some(x), Some(y)) => x == y,
                        (None, None) => true,
                        _ => false,
                    }
                } else {
                    false
                }
            }
        },
    }
}

/// The model of a possibly borrowed value.
pub open spec fn view_opt(v: Option<&Value>) -> Option<Val> {
    match v {
        Some(x) => Some(x@),
        None => None,
    }
}

impl CoreStorage {
    /// Decides whether a document matches a query; a malformed query is
    /// refused with an error.
    #[verifier::loop_isolation(false)]
    #[verifier::rlimit(100)]
    pub fn document_matches_query(&self, document: &Value, query: &Value) -> (r: Result<
        bool,
        RIDBError,
    >)
        ensures
            match eval_query(query@, document@) {
                Some(b) => r == Ok::<bool, RIDBError>(b),
                None => r is Err,
            },
        decreases query,
    {
        broadcast use crate::value::group_value_views;

        let fields = match query {
            Value::Obj(fields) => fields,
            _ => {
                return Err(RIDBError::error("Query must be an object"));
            },
        };
        proof {
            crate::value::view_fields_len(fields@);
            assert(crate::value::view_fields(fields@).subrange(0, fields@.len() as int)
                =~= crate::value::view_fields(fields@));
        }
        let mut i: usize = 0;
        loop
            invariant
                i <= fields@.len(),
                eval_fields(crate::value::view_fields(fields@), document@) == eval_fields(
                    crate::value::view_fields(fields@).subrange(
                        i as int,
                        fields@.len() as int,
                    ),
                    document@,
                ),
            decreases fields@.len() - i,
        {
            let ghost fsv = crate::value::view_fields(fields@);
            let ghost tail = fsv.subrange(i as int, fields@.len() as int);
            if i >= fields.len() {
                return Ok(true);
            }
            proof {
                assert(tail[0] == fsv[i as int]);
            }
            let key = &fields[i].0;
            let value = &fields[i].1;
            if crate::value::str_eq(key.as_str(), "$and") {
                match value {
                    Value::Arr(items) => {
                        proof {
                            crate::value::view_arr_len(items@);
                            assert(crate::value::view_arr(items@).subrange(
                                0,
                                items@.len() as int,
                            ) =~= crate::value::view_arr(items@));
                        }
                        let mut j: usize = 0;
                        loop
                            invariant
                                j <= items@.len(),
                                eval_all(crate::value::view_arr(items@), document@) == eval_all(
                                    crate::value::view_arr(items@).subrange(
                                        j as int,
                                        items@.len() as int,
                                    ),
                                    document@,
                                ),
                            decreases items@.len() - j,
                        {
                            let ghost isv = crate::value::view_arr(items@);
                            let ghost itail = isv.subrange(j as int, items@.len() as int);
                            if j >= items.len() {
                                return Ok(true);
                            }
                            proof {
                                assert(itail[0] == isv[j as int]);
                                assert(decreases_to!(*query =>
                                    query->Obj_0@[i as int].1->Arr_0@[j as int]));
                            }
                            match self.document_matches_query(document, &items[j]) {
                                Ok(m) => {
                                    if !m {
                                        return Ok(false);
                                    }
                                },
                                Err(e) => {
                                    return Err(e);
                                },
                            }
                            proof {
                                assert(itail.subrange(1, itail.len() as int) =~= isv.subrange(
                                    j + 1,
                                    items@.len() as int,
                                ));
                            }
                            j = j + 1;
                        }
                    },
                    _ => {
                        return Err(RIDBError::error("$and must be an array"));
                    },
                }
            } else if crate::value::str_eq(key.as_str(), "$or") {
                match value {
                    Value::Arr(items) => {
                        proof {
                            crate::value::view_arr_len(items@);
                            assert(crate::value::view_arr(items@).subrange(
                                0,
                                items@.len() as int,
                            ) =~= crate::value::view_arr(items@));
                        }
                        let mut j: usize = 0;
                        loop
                            invariant
                                j <= items@.len(),
                                eval_any(crate::value::view_arr(items@), document@) == eval_any(
                                    crate::value::view_arr(items@).subrange(
                                        j as int,
                                        items@.len() as int,
                                    ),
                                    document@,
                                ),
                            decreases items@.len() - j,
                        {
                            let ghost isv = crate::value::view_arr(items@);
                            let ghost itail = isv.subrange(j as int, items@.len() as int);
                            if j >= items.len() {
                                return Ok(false);
                            }
                            proof {
                                assert(itail[0] == isv[j as int]);
                                assert(decreases_to!(*query =>
                                    query->Obj_0@[i as int].1->Arr_0@[j as int]));
                            }
                            match self.document_matches_query(document, &items[j]) {
                                Ok(m) => {
                                    if m {
                                        return Ok(true);
                                    }
                                },
                                Err(e) => {
                                    return Err(e);
                                },
                            }
                            proof {
                                assert(itail.subrange(1, itail.len() as int) =~= isv.subrange(
                                    j + 1,
                                    items@.len() as int,
                                ));
                            }
                            j = j + 1;
                        }
                    },
                    _ => {
                        return Err(RIDBError::error("$or must be an array"));
                    },
                }
            } else {
                let doc_value: Option<&Value> = match document {
                    Value::Obj(dfields) => crate::value::obj_get_value(dfields, key.as_str()),
                    _ => None,
                };
                proof {
                    assert(view_opt(doc_value) == doc_field(document@, key@));
                }
                match self.evaluate_condition(doc_value, value) {
                    Ok(m) => {
                        if !m {
                            return Ok(false);
                        }
                    },
                    Err(e) => {
                        return Err(e);
                    },
                }
                proof {
                    assert(tail.subrange(1, tail.len() as int) =~= fsv.subrange(
                        i + 1,
                        fields@.len() as int,
                    ));
                }
                i = i + 1;
            }
        }
    }

    /// Applies one condition to a document field: an object of operators,
    /// or a direct equality test.
    #[verifier::loop_isolation(false)]
    #[verifier::rlimit(100)]
    fn evaluate_condition(&self, doc_value: Option<&Value>, condition: &Value) -> (r: Result<
        bool,
        RIDBError,
    >)
        ensures
            match eval_condition(view_opt(doc_value), condition@) {
                Some(b) => r == Ok::<bool, RIDBError>(b),
                None => r is Err,
            },
    {
        broadcast use crate::value::group_value_views;

        let ops = match condition {
            Value::Obj(ops) => ops,
            _ => {
                return Ok(values_equal_exec(doc_value, condition));
            },
        };
        proof {
            crate::value::view_fields_len(ops@);
            assert(crate::value::view_fields(ops@).subrange(0, ops@.len() as int)
                =~= crate::value::view_fields(ops@));
        }
        let mut i: usize = 0;
        loop
            invariant
                i <= ops@.len(),
                eval_ops(crate::value::view_fields(ops@), view_opt(doc_value)) == eval_ops(
                    crate::value::view_fields(ops@).subrange(i as int, ops@.len() as int),
                    view_opt(doc_value),
                ),
            decreases ops@.len() - i,
        {
            let ghost osv = crate::value::view_fields(ops@);
            let ghost tail = osv.subrange(i as int, ops@.len() as int);
            if i >= ops.len() {
                return Ok(true);
            }
            proof {
                assert(tail[0] == osv[i as int]);
            }
            let key = &ops[i].0;
            let value = &ops[i].1;
            let is_cmp = crate::value::str_eq(key.as_str(), "$gt") || crate::value::str_eq(
                key.as_str(),
                "$gte",
            ) || crate::value::str_eq(key.as_str(), "$lt") || crate::value::str_eq(
                key.as_str(),
                "$lte",
            );
            let step: bool = if is_cmp {
                let a = match doc_value {
                    Some(Value::Int(x)) => Some(*x),
                    Some(_) => {
                        return Err(RIDBError::error("Document value is not a number"));
                    },
                    None => None,
                };
                match a {
                    None => false,
                    Some(x) => {
                        let y = match value {
                            Value::Int(y) => *y,
                            _ => {
                                return Err(RIDBError::error("Condition value is not a number"));
                            },
                        };
                        if crate::value::str_eq(key.as_str(), "$gt") {
                            x > y
                        } else if crate::value::str_eq(key.as_str(), "$gte") {
                            x >= y
                        } else if crate::value::str_eq(key.as_str(), "$lt") {
                            x < y
                        } else {
                            x <= y
                        }
                    },
                }
            } else if crate::value::str_eq(key.as_str(), "$in") {
                match value {
                    Value::Arr(items) => {
                        let mut j: usize = 0;
                        let mut found = false;
                        while j < items.len()
                            invariant
                                j <= items@.len(),
                                found == exists|x: int|
                                    0 <= x < j && values_equal(
                                        view_opt(doc_value),
                                        #[trigger] crate::value::view_arr(items@)[x],
                                    ),
                            decreases items@.len() - j,
                        {
                            proof {
                                crate::value::view_arr_index(items@, j as int);
                            }
                            if values_equal_exec(doc_value, &items[j]) {
                                found = true;
                            }
                            j = j + 1;
                        }
                        found
                    },
                    _ => {
                        return Err(RIDBError::error("$in value must be an array"));
                    },
                }
            } else {
                let msg = String::from_str("Unsupported operator: ").concat(key.as_str());
                return Err(RIDBError { code: crate::error::Errors::Error, message: msg });
            };
            if !step {
                return Ok(false);
            }
            proof {
                assert(tail.subrange(1, tail.len() as int) =~= osv.subrange(
                    i + 1,
                    ops@.len() as int,
                ));
            }
            i = i + 1;
        }
    }
}

} // verus!
