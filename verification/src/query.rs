//! The query model: normalization and schema-directed validation.

use vstd::prelude::*;
use vstd::string::StringExecFns;

use crate::error::{Errors, RIDBError};
use crate::eval::is_logical;
use crate::property::{Property, PropertyType};
use crate::schema::Schema;
use crate::value::{view_arr, view_fields, Val, Value};

verus! {

broadcast use vstd::seq::group_seq_axioms;

/// The normal form of a query: a `$and`/`$or` tree over single-condition
/// objects, `None` where the query is malformed.
pub open spec fn normalize(q: Val) -> Option<Val>
    decreases q,
{
    if q is Obj {
        match norm_conds(q->Obj_0) {
            None => None,
            Some(conds) => Some(
                if conds.len() == 1 {
                    conds[0]
                } else {
                    Val::Obj(seq![("$and"@, Val::Arr(conds))])
                },
            ),
        }
    } else {
        None
    }
}

/// Each query field as a single-condition object, in order.
pub open spec fn norm_conds(fs: Seq<(Seq<char>, Val)>) -> Option<Seq<Val>>
    decreases fs,
{
    if fs.len() == 0 {
        Some(Seq::empty())
    } else {
        let k = fs[0].0;
        let v = fs[0].1;
        let c: Option<Val> = if is_logical(k) {
            if v is Arr {
                match norm_items(v->Arr_0) {
                    None => None,
                    Some(its) => Some(Val::Obj(seq![(k, Val::Arr(its))])),
                }
            } else {
                None
            }
        } else {
            Some(Val::Obj(seq![(k, v)]))
        };
        match c {
            None => None,
            Some(c0) => match norm_conds(fs.subrange(1, fs.len() as int)) {
                None => None,
                Some(cs) => Some(seq![c0] + cs),
            },
        }
    }
}

/// The members of a logical operator's list, each normalized.
pub open spec fn norm_items(items: Seq<Val>) -> Option<Seq<Val>>
    decreases items,
{
    if items.len() == 0 {
        Some(Seq::empty())
    } else {
        match normalize(items[0]) {
            None => None,
            Some(n0) => match norm_items(items.subrange(1, items.len() as int)) {
                None => None,
                Some(ns) => Some(seq![n0] + ns),
            },
        }
    }
}

/// The complaint normalization raises for a query it refuses.
pub open spec fn norm_err_msg(q: Val) -> Seq<char>
    decreases q,
{
    if q is Obj {
        nconds_err_msg(q->Obj_0)
    } else {
        "Query must be an object"@
    }
}

/// The first complaint among the query fields, walking them in order.
pub open spec fn nconds_err_msg(fs: Seq<(Seq<char>, Val)>) -> Seq<char>
    decreases fs,
{
    if fs.len() == 0 {
        Seq::empty()
    } else {
        let k = fs[0].0;
        let v = fs[0].1;
        if is_logical(k) {
            if !(v is Arr) {
                k + " must be an array"@
            } else if norm_items(v->Arr_0) is None {
                nitems_err_msg(v->Arr_0)
            } else {
                nconds_err_msg(fs.subrange(1, fs.len() as int))
            }
        } else {
            nconds_err_msg(fs.subrange(1, fs.len() as int))
        }
    }
}

/// The first complaint among a logical operator's members.
pub open spec fn nitems_err_msg(items: Seq<Val>) -> Seq<char>
    decreases items,
{
    if items.len() == 0 {
        Seq::empty()
    } else if normalize(items[0]) is None {
        norm_err_msg(items[0])
    } else {
        nitems_err_msg(items.subrange(1, items.len() as int))
    }
}

/// Normalization is idempotent: a normalized query normalizes to itself.
pub proof fn lemma_normalize_idempotent(q: Val)
    requires
        normalize(q) is Some,
    ensures
        normalize(normalize(q)->0) == normalize(q),
    decreases q,
{
    let conds = norm_conds(q->Obj_0).unwrap();
    lemma_conds_fixed(q->Obj_0);
    if conds.len() == 1 {
    } else {
        let wrap = Val::Obj(seq![("$and"@, Val::Arr(conds))]);
        let wfs = wrap->Obj_0;
        lemma_items_of_fixed(conds);
        assert(norm_items(conds) == Some(conds));
        let c0 = Val::Obj(seq![("$and"@, Val::Arr(conds))]);
        assert(wfs.subrange(1, wfs.len() as int) =~= Seq::<(Seq<char>, Val)>::empty());
        assert(norm_conds(wfs) == Some(seq![c0] + Seq::<Val>::empty()));
        assert(seq![c0] + Seq::<Val>::empty() =~= seq![c0]);
        if (seq![c0]).len() == 1 {
            assert(normalize(wrap) == Some(c0));
        }
    }
}

/// Every condition normalization emits normalizes to itself.
proof fn lemma_conds_fixed(fs: Seq<(Seq<char>, Val)>)
    requires
        norm_conds(fs) is Some,
    ensures
        forall|i: int|
            0 <= i < norm_conds(fs)->0.len() ==> normalize(#[trigger] norm_conds(fs)->0[i])
                == Some(norm_conds(fs)->0[i]),
    decreases fs,
{
    if fs.len() == 0 {
    } else {
        let k = fs[0].0;
        let v = fs[0].1;
        let rest = fs.subrange(1, fs.len() as int);
        lemma_conds_fixed(rest);
        let conds = norm_conds(fs)->0;
        let cs = norm_conds(rest)->0;
        let c0 = conds[0];
        if is_logical(k) {
            let its = norm_items(v->Arr_0)->0;
            lemma_items_fixed(v->Arr_0);
            lemma_items_of_fixed(its);
            // c0 is {k: its}; normalizing it re-normalizes `its` in place.
            let cfs = c0->Obj_0;
            assert(cfs.subrange(1, cfs.len() as int) =~= Seq::<(Seq<char>, Val)>::empty());
            assert(norm_conds(cfs) == Some(seq![c0] + Seq::<Val>::empty()));
            assert(seq![c0] + Seq::<Val>::empty() =~= seq![c0]);
            assert(normalize(c0) == Some(c0));
        } else {
            let cfs = c0->Obj_0;
            assert(cfs.subrange(1, cfs.len() as int) =~= Seq::<(Seq<char>, Val)>::empty());
            assert(norm_conds(cfs) == Some(seq![c0] + Seq::<Val>::empty()));
            assert(seq![c0] + Seq::<Val>::empty() =~= seq![c0]);
            assert(normalize(c0) == Some(c0));
        }
        assert forall|i: int| 0 <= i < conds.len() implies normalize(#[trigger] conds[i]) == Some(
            conds[i],
        ) by {
            if i == 0 {
            } else {
                assert(conds[i] == cs[i - 1]);
            }
        }
    }
}

/// Every member normalization emits normalizes to itself.
proof fn lemma_items_fixed(items: Seq<Val>)
    requires
        norm_items(items) is Some,
    ensures
        forall|i: int|
            0 <= i < norm_items(items)->0.len() ==> normalize(
                #[trigger] norm_items(items)->0[i],
            ) == Some(norm_items(items)->0[i]),
    decreases items,
{
    if items.len() == 0 {
    } else {
        let rest = items.subrange(1, items.len() as int);
        lemma_normalize_idempotent(items[0]);
        lemma_items_fixed(rest);
        let its = norm_items(items)->0;
        let ns = norm_items(rest)->0;
        assert forall|i: int| 0 <= i < its.len() implies normalize(#[trigger] its[i]) == Some(
            its[i],
        ) by {
            if i > 0 {
                assert(its[i] == ns[i - 1]);
            }
        }
    }
}

/// Builds the normal form of a query.
#[verifier::loop_isolation(false)]
#[verifier::rlimit(100)]
pub fn normalize_query(q: &Value) -> (r: Result<Value, RIDBError>)
    ensures
        match normalize(q@) {
            Some(n) => r is Ok && r->Ok_0@ == n,
            None => r is Err && r->Err_0.code == Errors::ValidationError
                && r->Err_0.message@ == norm_err_msg(q@),
        },
    decreases q,
{
    let fields = match q {
        Value::Obj(fields) => fields,
        _ => {
            return Err(
                RIDBError {
                    code: Errors::ValidationError,
                    message: String::from_str("Query must be an object"),
                },
            );
        },
    };
    proof {
        crate::value::view_fields_len(fields@);
        assert(view_fields(fields@).subrange(0, fields@.len() as int) =~= view_fields(fields@));
    }
    let mut conds: Vec<Value> = Vec::new();
    let mut i: usize = 0;
    while i < fields.len()
        invariant
            i <= fields@.len(),
            match norm_conds(view_fields(fields@).subrange(i as int, fields@.len() as int)) {
                Some(cs) => norm_conds(view_fields(fields@)) == Some(view_arr(conds@) + cs),
                None => norm_conds(view_fields(fields@)) is None,
            },
            norm_conds(view_fields(fields@)) is None ==> nconds_err_msg(view_fields(fields@))
                == nconds_err_msg(
                view_fields(fields@).subrange(i as int, fields@.len() as int),
            ),
        decreases fields@.len() - i,
    {
        let ghost fsv = view_fields(fields@);
        let ghost tail = fsv.subrange(i as int, fields@.len() as int);
        proof {
            assert(tail[0] == fsv[i as int]);
            crate::value::view_fields_index(fields@, i as int);
        }
        let key = &fields[i].0;
        let value = &fields[i].1;
        let is_and = crate::value::str_eq(key.as_str(), "$and");
        let is_or = crate::value::str_eq(key.as_str(), "$or");
        let cond: Value = if is_and || is_or {
            match value {
                Value::Arr(items) => {
                    proof {
                        crate::value::view_arr_len(items@);
                        assert(view_arr(items@).subrange(0, items@.len() as int) =~= view_arr(
                            items@,
                        ));
                    }
                    let mut norm_list: Vec<Value> = Vec::new();
                    let mut j: usize = 0;
                    while j < items.len()
                        invariant
                            j <= items@.len(),
                            match norm_items(
                                view_arr(items@).subrange(j as int, items@.len() as int),
                            ) {
                                Some(ns) => norm_items(view_arr(items@)) == Some(
                                    view_arr(norm_list@) + ns,
                                ),
                                None => norm_items(view_arr(items@)) is None,
                            },
                            norm_items(view_arr(items@)) is None ==> nitems_err_msg(view_arr(
                                items@,
                            )) == nitems_err_msg(
                                view_arr(items@).subrange(j as int, items@.len() as int),
                            ),
                        decreases items@.len() - j,
                    {
                        let ghost isv = view_arr(items@);
                        let ghost itail = isv.subrange(j as int, items@.len() as int);
                        proof {
                            assert(itail[0] == isv[j as int]);
                            crate::value::view_arr_index(items@, j as int);
                            assert(decreases_to!(*q =>
                                q->Obj_0@[i as int].1->Arr_0@[j as int]));
                        }
                        let ghost pre = norm_list@;
                        match normalize_query(&items[j]) {
                            Ok(n) => {
                                norm_list.push(n);
                            },
                            Err(e) => {
                                proof {
                                    assert(normalize(isv[j as int]) is None);
                                    assert(nitems_err_msg(itail) == norm_err_msg(isv[j as int]));
                                    assert(norm_items(itail) is None);
                                    assert(nitems_err_msg(isv) == nitems_err_msg(itail));
                                    assert(value@->Arr_0 == isv);
                                    assert(norm_conds(tail) is None);
                                    assert(nconds_err_msg(tail) == nitems_err_msg(isv));
                                    assert(nconds_err_msg(fsv) == norm_err_msg(isv[j as int]));
                                }
                                return Err(e);
                            },
                        }
                        proof {
                            assert(itail.subrange(1, itail.len() as int) =~= isv.subrange(
                                j + 1,
                                items@.len() as int,
                            ));
                            crate::value::view_arr_push(pre, norm_list@.last());
                            let ns1 = norm_items(isv.subrange(j + 1, items@.len() as int));
                            if ns1 is Some {
                                assert(view_arr(pre).push(norm_list@.last()@) + ns1->0
                                    =~= view_arr(pre) + (seq![norm_list@.last()@] + ns1->0));
                            }
                        }
                        j = j + 1;
                    }
                    proof {
                        assert(view_arr(items@).subrange(
                            items@.len() as int,
                            items@.len() as int,
                        ) =~= Seq::<Val>::empty());
                        assert(view_arr(norm_list@) + Seq::<Val>::empty() =~= view_arr(
                            norm_list@,
                        ));
                    }
                    let kc = key.clone();
                    let built = Value::Obj(vec![(kc, Value::Arr(norm_list))]);
                    proof {
                        crate::value::view_fields_single(built->Obj_0@);
                    }
                    built
                },
                _ => {
                    proof {
                        assert(!(value@ is Arr));
                        assert(norm_conds(tail) is None);
                        assert(nconds_err_msg(fsv) == key@ + " must be an array"@);
                    }
                    let msg = String::from_str(key.as_str()).concat(" must be an array");
                    return Err(RIDBError { code: Errors::ValidationError, message: msg });
                },
            }
        } else {
            let kc = key.clone();
            let built = Value::Obj(vec![(kc, value.deep_copy())]);
            proof {
                crate::value::view_fields_single(built->Obj_0@);
            }
            built
        };
        let ghost cpre = conds@;
        conds.push(cond);
        proof {
            assert(tail.subrange(1, tail.len() as int) =~= fsv.subrange(
                i + 1,
                fields@.len() as int,
            ));
            crate::value::view_arr_push(cpre, conds@.last());
            let cs1 = norm_conds(fsv.subrange(i + 1, fields@.len() as int));
            if cs1 is Some {
                assert(view_arr(cpre).push(conds@.last()@) + cs1->0 =~= view_arr(cpre) + (seq![
                    conds@.last()@,
                ] + cs1->0));
            }
        }
        i = i + 1;
    }
    proof {
        assert(view_fields(fields@).subrange(fields@.len() as int, fields@.len() as int)
            =~= Seq::<(Seq<char>, Val)>::empty());
        assert(view_arr(conds@) + Seq::<Val>::empty() =~= view_arr(conds@));
    }
    let ghost cfull = conds@;
    proof {
        crate::value::view_arr_len(cfull);
    }
    if conds.len() == 1 {
        match conds.pop() {
            Some(c) => {
                proof {
                    crate::value::view_arr_index(cfull, 0);
                    assert(c == cfull[0]);
                }
                return Ok(c);
            },
            None => {
                return Err(
                    RIDBError {
                        code: Errors::Error,
                        message: String::from_str("Query must be an object"),
                    },
                );
            },
        }
    }
    let wrapped = Value::Obj(vec![(String::from_str("$and"), Value::Arr(conds))]);
    proof {
        crate::value::view_fields_single(wrapped->Obj_0@);
        assert(wrapped@ == Val::Obj(seq![("$and"@, Val::Arr(view_arr(cfull)))]));
    }
    Ok(wrapped)
}

/// The evaluator reads a logical operator as deciding the whole query, so
/// the two forms agree only where logical keys close their objects: in
/// every query object, reachable logical lists included, at most the last
/// field may be `$and` or `$or`.
pub open spec fn logical_keys_last(q: Val) -> bool
    decreases q,
{
    if q is Obj {
        lkl_fields(q->Obj_0)
    } else {
        true
    }
}

/// The remaining fields keep logical keys last.
pub open spec fn lkl_fields(fs: Seq<(Seq<char>, Val)>) -> bool
    decreases fs,
{
    if fs.len() == 0 {
        true
    } else {
        &&& (fs.len() > 1 ==> !is_logical(fs[0].0))
        &&& (is_logical(fs[0].0) && fs[0].1 is Arr ==> lkl_items(fs[0].1->Arr_0))
        &&& lkl_fields(fs.subrange(1, fs.len() as int))
    }
}

/// Every member of a logical list keeps logical keys last.
pub open spec fn lkl_items(items: Seq<Val>) -> bool
    decreases items,
{
    if items.len() == 0 {
        true
    } else {
        logical_keys_last(items[0]) && lkl_items(items.subrange(1, items.len() as int))
    }
}

/// Normalization emits one condition per query field.
proof fn lemma_norm_conds_len(fs: Seq<(Seq<char>, Val)>)
    requires
        norm_conds(fs) is Some,
    ensures
        norm_conds(fs)->0.len() == fs.len(),
    decreases fs,
{
    if fs.len() > 0 {
        lemma_norm_conds_len(fs.subrange(1, fs.len() as int));
    }
}

/// The evaluator gives a query and its normal form the same verdict on
/// every document.
pub proof fn lemma_normalized_query_equivalent(q: Val, d: Val)
    requires
        normalize(q) is Some,
        logical_keys_last(q),
    ensures
        crate::eval::eval_query(normalize(q)->0, d) == crate::eval::eval_query(q, d),
    decreases q, 3int,
{
    let fs = q->Obj_0;
    let conds = norm_conds(fs)->0;
    lemma_norm_conds_len(fs);
    if conds.len() == 1 {
        let k = fs[0].0;
        let v = fs[0].1;
        if is_logical(k) {
            let items = v->Arr_0;
            let nitems = norm_items(items)->0;
            let c0 = Val::Obj(seq![(k, Val::Arr(nitems))]);
            assert(conds[0] == c0);
            if k == "$and"@ {
                lemma_norm_all_equiv(items, d);
            } else {
                lemma_norm_any_equiv(items, d);
            }
        } else {
            let c0 = Val::Obj(seq![(k, v)]);
            assert(conds[0] == c0);
            assert(c0->Obj_0 =~= fs);
        }
    } else {
        let wrap = Val::Obj(seq![("$and"@, Val::Arr(conds))]);
        let wfs = wrap->Obj_0;
        assert(crate::eval::eval_query(wrap, d) == crate::eval::eval_all(conds, d));
        lemma_fields_as_all(fs, d);
    }
}

/// A conjunction list of single conditions evaluates as the fields do.
proof fn lemma_fields_as_all(fs: Seq<(Seq<char>, Val)>, d: Val)
    requires
        norm_conds(fs) is Some,
        lkl_fields(fs),
    ensures
        crate::eval::eval_all(norm_conds(fs)->0, d) == crate::eval::eval_fields(fs, d),
    decreases fs, 3int,
{
    if fs.len() == 0 {
    } else {
        let k = fs[0].0;
        let v = fs[0].1;
        let rest = fs.subrange(1, fs.len() as int);
        let conds = norm_conds(fs)->0;
        let cs = norm_conds(rest)->0;
        let c0 = conds[0];
        assert(conds.subrange(1, conds.len() as int) =~= cs);
        if is_logical(k) {
            // A logical key stands last, so the rest is empty.
            assert(rest.len() == 0);
            let items = v->Arr_0;
            let nitems = norm_items(items)->0;
            assert(c0 == Val::Obj(seq![(k, Val::Arr(nitems))]));
            if k == "$and"@ {
                lemma_norm_all_equiv(items, d);
            } else {
                lemma_norm_any_equiv(items, d);
            }
            assert(crate::eval::eval_query(c0, d) == crate::eval::eval_fields(fs, d));
            match crate::eval::eval_query(c0, d) {
                None => {},
                Some(b) => {
                    if b {
                        assert(crate::eval::eval_all(cs, d) == Some(true));
                    }
                },
            }
        } else {
            assert(c0 == Val::Obj(seq![(k, v)]));
            let cfs = c0->Obj_0;
            assert(cfs.subrange(1, cfs.len() as int) =~= Seq::<(Seq<char>, Val)>::empty());
            lemma_fields_as_all(rest, d);
        }
    }
}

/// Each member of a `$and` list evaluates as its normal form does.
proof fn lemma_norm_all_equiv(items: Seq<Val>, d: Val)
    requires
        norm_items(items) is Some,
        lkl_items(items),
    ensures
        crate::eval::eval_all(norm_items(items)->0, d) == crate::eval::eval_all(items, d),
    decreases items, 4int,
{
    if items.len() > 0 {
        let rest = items.subrange(1, items.len() as int);
        let ns = norm_items(items)->0;
        lemma_normalized_query_equivalent(items[0], d);
        lemma_norm_all_equiv(rest, d);
        assert(ns.subrange(1, ns.len() as int) =~= norm_items(rest)->0);
    }
}

/// Each member of a `$or` list evaluates as its normal form does.
proof fn lemma_norm_any_equiv(items: Seq<Val>, d: Val)
    requires
        norm_items(items) is Some,
        lkl_items(items),
    ensures
        crate::eval::eval_any(norm_items(items)->0, d) == crate::eval::eval_any(items, d),
    decreases items, 4int,
{
    if items.len() > 0 {
        let rest = items.subrange(1, items.len() as int);
        let ns = norm_items(items)->0;
        lemma_normalized_query_equivalent(items[0], d);
        lemma_norm_any_equiv(rest, d);
        assert(ns.subrange(1, ns.len() as int) =~= norm_items(rest)->0);
    }
}

/// The declared type of a named property, scanning in order.
pub open spec fn prop_type_of(ps: Seq<(String, Property)>, k: Seq<char>) -> Option<PropertyType>
    decreases ps.len(),
{
    if ps.len() == 0 {
        None
    } else if ps[0].0@ == k {
        Some(ps[0].1.property_type)
    } else {
        prop_type_of(ps.subrange(1, ps.len() as int), k)
    }
}

/// A parsed property list knows a name exactly when the definition object
/// binds it.
pub proof fn lemma_prop_type_obj_get(
    ps: Seq<(String, Property)>,
    pfs: Seq<(Seq<char>, Val)>,
    k: Seq<char>,
)
    requires
        crate::schema::prop_list_matches(ps, pfs),
    ensures
        (prop_type_of(ps, k) is Some) == (crate::value::obj_get(pfs, k) is Some),
    decreases ps.len(),
{
    if ps.len() > 0 {
        assert(ps[0].0@ == pfs[0].0);
        if ps[0].0@ != k {
            let ps1 = ps.subrange(1, ps.len() as int);
            let pfs1 = pfs.subrange(1, pfs.len() as int);
            assert forall|i: int| 0 <= i < ps1.len() implies (#[trigger] ps1[i]).0@ == pfs1[i].0
                && crate::schema::prop_matches(ps1[i].1, pfs1[i].1) by {
                assert(ps1[i] == ps[i + 1]);
                assert(pfs1[i] == pfs[i + 1]);
            }
            lemma_prop_type_obj_get(ps1, pfs1, k);
        }
    }
}

/// A direct condition value matches the declared type: numbers and strings
/// exactly, booleans by the truthy test (which accepts anything), and
/// array- or object-typed fields admit no query at all.
pub open spec fn scalar_ok(v: Val, t: PropertyType) -> bool {
    match t {
        PropertyType::Number => v is Int,
        PropertyType::String => v is Str,
        PropertyType::Boolean => true,
        PropertyType::Array => false,
        PropertyType::Object => false,
    }
}

/// One operator entry of a condition object is well-typed.
pub open spec fn op_entry_ok(k: Seq<char>, cv: Val, t: PropertyType) -> bool {
    if k == "$in"@ {
        cv is Arr && forall|j: int|
            0 <= j < cv->Arr_0.len() ==> scalar_ok(#[trigger] cv->Arr_0[j], t)
    } else if k == "$gt"@ || k == "$gte"@ || k == "$lt"@ || k == "$lte"@ {
        scalar_ok(cv, t)
    } else {
        false
    }
}

/// A condition is well-typed for the declared property type.
pub open spec fn cond_ok(v: Val, t: PropertyType) -> bool {
    if v is Obj {
        forall|i: int|
            0 <= i < v->Obj_0.len() ==> op_entry_ok(
                (#[trigger] v->Obj_0[i]).0,
                v->Obj_0[i].1,
                t,
            )
    } else {
        scalar_ok(v, t)
    }
}

/// A query passes schema-directed validation.
pub open spec fn query_parse_ok(q: Val, s: Schema) -> bool
    decreases q,
{
    q is Obj && qfields_ok(q->Obj_0, s)
}

/// The remaining query fields pass validation.
pub open spec fn qfields_ok(fs: Seq<(Seq<char>, Val)>, s: Schema) -> bool
    decreases fs,
{
    if fs.len() == 0 {
        true
    } else {
        let k = fs[0].0;
        let v = fs[0].1;
        let head_ok: bool = if is_logical(k) {
            v is Arr && qitems_ok(v->Arr_0, s)
        } else {
            prop_type_of(s.properties@, k) is Some && cond_ok(v, prop_type_of(s.properties@, k)->0)
        };
        head_ok && qfields_ok(fs.subrange(1, fs.len() as int), s)
    }
}

/// Every member of a logical operator's list passes validation.
pub open spec fn qitems_ok(items: Seq<Val>, s: Schema) -> bool
    decreases items,
{
    if items.len() == 0 {
        true
    } else {
        query_parse_ok(items[0], s) && qitems_ok(items.subrange(1, items.len() as int), s)
    }
}

/// The complaint a direct condition value draws when it misses its type.
pub open spec fn scalar_err_msg(t: PropertyType) -> Seq<char> {
    match t {
        PropertyType::Number => "Expected a number"@,
        PropertyType::String => "Expected a string"@,
        PropertyType::Boolean => Seq::empty(),
        PropertyType::Array => "Unsupported property type"@,
        PropertyType::Object => "Unsupported property type"@,
    }
}

/// The first complaint among a condition object's operator entries.
pub open spec fn ops_err_msg(ops: Seq<(Seq<char>, Val)>, t: PropertyType) -> Seq<char>
    decreases ops.len(),
{
    if ops.len() == 0 {
        Seq::empty()
    } else {
        let k = ops[0].0;
        let cv = ops[0].1;
        if op_entry_ok(k, cv, t) {
            ops_err_msg(ops.subrange(1, ops.len() as int), t)
        } else if k == "$in"@ {
            if cv is Arr {
                scalar_err_msg(t)
            } else {
                "$in operator requires an array"@
            }
        } else if k == "$gt"@ || k == "$gte"@ || k == "$lt"@ || k == "$lte"@ {
            scalar_err_msg(t)
        } else {
            "Invalid operator: "@ + k
        }
    }
}

/// The complaint a condition draws.
pub open spec fn cond_err_msg(v: Val, t: PropertyType) -> Seq<char> {
    if v is Obj {
        ops_err_msg(v->Obj_0, t)
    } else {
        scalar_err_msg(t)
    }
}

/// The first complaint validation raises over the query fields, walking
/// them in order.
pub open spec fn qfields_err_msg(fs: Seq<(Seq<char>, Val)>, s: Schema) -> Seq<char>
    decreases fs,
{
    if fs.len() == 0 {
        Seq::empty()
    } else {
        let k = fs[0].0;
        let v = fs[0].1;
        if is_logical(k) {
            if !(v is Arr) {
                k + " must be an array"@
            } else if !qitems_ok(v->Arr_0, s) {
                qitems_err_msg(v->Arr_0, s)
            } else {
                qfields_err_msg(fs.subrange(1, fs.len() as int), s)
            }
        } else if prop_type_of(s.properties@, k) is None {
            "Invalid property: "@ + k
        } else if !cond_ok(v, prop_type_of(s.properties@, k)->0) {
            cond_err_msg(v, prop_type_of(s.properties@, k)->0)
        } else {
            qfields_err_msg(fs.subrange(1, fs.len() as int), s)
        }
    }
}

/// The first complaint among a logical operator's members.
pub open spec fn qitems_err_msg(items: Seq<Val>, s: Schema) -> Seq<char>
    decreases items,
{
    if items.len() == 0 {
        Seq::empty()
    } else if !query_parse_ok(items[0], s) {
        query_err_msg(items[0], s)
    } else {
        qitems_err_msg(items.subrange(1, items.len() as int), s)
    }
}

/// The complaint validation raises for a query, walking it in order.
pub open spec fn query_err_msg(q: Val, s: Schema) -> Seq<char>
    decreases q,
{
    if q is Obj {
        qfields_err_msg(q->Obj_0, s)
    } else {
        "Query must be an object"@
    }
}

/// Looks up the declared type of a property by name.
#[verifier::loop_isolation(false)]
pub fn find_prop_type(schema: &Schema, key: &str) -> (r: Option<PropertyType>)
    ensures
        r == prop_type_of(schema.properties@, key@),
{
    let ps = &schema.properties;
    proof {
        assert(ps@.subrange(0, ps@.len() as int) =~= ps@);
    }
    let mut i: usize = 0;
    loop
        invariant
            i <= ps@.len(),
            prop_type_of(ps@, key@) == prop_type_of(
                ps@.subrange(i as int, ps@.len() as int),
                key@,
            ),
        decreases ps@.len() - i,
    {
        proof {
            if i < ps@.len() {
                assert(ps@.subrange(i as int, ps@.len() as int)[0] == ps@[i as int]);
                assert(ps@.subrange(i as int, ps@.len() as int).subrange(
                    1,
                    ps@.len() - i,
                ) =~= ps@.subrange(i + 1, ps@.len() as int));
            }
        }
        if i >= ps.len() {
            return None;
        }
        if crate::value::str_eq(ps[i].0.as_str(), key) {
            return Some(ps[i].1.property_type);
        }
        i = i + 1;
    }
}

/// Checks a direct condition value against the declared type.
fn validate_value(value: &Value, t: PropertyType) -> (r: Result<(), RIDBError>)
    ensures
        r is Ok <==> scalar_ok(value@, t),
        r is Err ==> r->Err_0.code == Errors::ValidationError && r->Err_0.message@
            == scalar_err_msg(t),
{
    match t {
        PropertyType::Number => {
            match value {
                Value::Int(_) => Ok(()),
                _ => Err(
                    RIDBError {
                        code: Errors::ValidationError,
                        message: String::from_str("Expected a number"),
                    },
                ),
            }
        },
        PropertyType::String => {
            match value {
                Value::Str(_) => Ok(()),
                _ => Err(
                    RIDBError {
                        code: Errors::ValidationError,
                        message: String::from_str("Expected a string"),
                    },
                ),
            }
        },
        PropertyType::Boolean => Ok(()),
        _ => Err(
            RIDBError {
                code: Errors::ValidationError,
                message: String::from_str("Unsupported property type"),
            },
        ),
    }
}

/// Validates a query against a schema; a valid query comes back unchanged.
#[verifier::loop_isolation(false)]
#[verifier::rlimit(100)]
pub fn process_query(q: &Value, schema: &Schema) -> (r: Result<Value, RIDBError>)
    ensures
        r is Ok <==> query_parse_ok(q@, *schema),
        r is Ok ==> r->Ok_0@ == q@,
        r is Err ==> r->Err_0.code == Errors::ValidationError && r->Err_0.message@
            == query_err_msg(q@, *schema),
    decreases q,
{
    let fields = match q {
        Value::Obj(fields) => fields,
        _ => {
            return Err(
                RIDBError {
                    code: Errors::ValidationError,
                    message: String::from_str("Query must be an object"),
                },
            );
        },
    };
    proof {
        crate::value::view_fields_len(fields@);
        assert(view_fields(fields@).subrange(0, fields@.len() as int) =~= view_fields(fields@));
    }
    let mut i: usize = 0;
    while i < fields.len()
        invariant
            i <= fields@.len(),
            qfields_ok(view_fields(fields@), *schema) == qfields_ok(
                view_fields(fields@).subrange(i as int, fields@.len() as int),
                *schema,
            ),
            qfields_err_msg(view_fields(fields@), *schema) == qfields_err_msg(
                view_fields(fields@).subrange(i as int, fields@.len() as int),
                *schema,
            ),
        decreases fields@.len() - i,
    {
        let ghost fsv = view_fields(fields@);
        let ghost tail = fsv.subrange(i as int, fields@.len() as int);
        proof {
            assert(tail[0] == fsv[i as int]);
            crate::value::view_fields_index(fields@, i as int);
            assert(tail.subrange(1, tail.len() as int) =~= fsv.subrange(
                i + 1,
                fields@.len() as int,
            ));
        }
        let key = &fields[i].0;
        let value = &fields[i].1;
        let is_and = crate::value::str_eq(key.as_str(), "$and");
        let is_or = crate::value::str_eq(key.as_str(), "$or");
        if is_and || is_or {
            match value {
                Value::Arr(items) => {
                    proof {
                        crate::value::view_arr_len(items@);
                        assert(view_arr(items@).subrange(0, items@.len() as int) =~= view_arr(
                            items@,
                        ));
                    }
                    let mut j: usize = 0;
                    while j < items.len()
                        invariant
                            j <= items@.len(),
                            qitems_ok(view_arr(items@), *schema) == qitems_ok(
                                view_arr(items@).subrange(j as int, items@.len() as int),
                                *schema,
                            ),
                            qitems_err_msg(view_arr(items@), *schema) == qitems_err_msg(
                                view_arr(items@).subrange(j as int, items@.len() as int),
                                *schema,
                            ),
                        decreases items@.len() - j,
                    {
                        let ghost isv = view_arr(items@);
                        let ghost itail = isv.subrange(j as int, items@.len() as int);
                        proof {
                            assert(itail[0] == isv[j as int]);
                            crate::value::view_arr_index(items@, j as int);
                            assert(itail.subrange(1, itail.len() as int) =~= isv.subrange(
                                j + 1,
                                items@.len() as int,
                            ));
                            assert(decreases_to!(*q =>
                                q->Obj_0@[i as int].1->Arr_0@[j as int]));
                        }
                        match process_query(&items[j], schema) {
                            Ok(_) => {},
                            Err(e) => {
                                proof {
                                    assert(!query_parse_ok(isv[j as int], *schema));
                                    assert(qitems_err_msg(itail, *schema) == query_err_msg(
                                        isv[j as int],
                                        *schema,
                                    ));
                                    assert(!qitems_ok(itail, *schema));
                                    assert(value@->Arr_0 == isv);
                                    assert(!qfields_ok(tail, *schema));
                                    assert(qfields_err_msg(tail, *schema) == qitems_err_msg(
                                        isv,
                                        *schema,
                                    ));
                                    assert(qfields_err_msg(fsv, *schema) == query_err_msg(
                                        isv[j as int],
                                        *schema,
                                    ));
                                }
                                return Err(e);
                            },
                        }
                        j = j + 1;
                    }
                },
                _ => {
                    proof {
                        assert(!(value@ is Arr));
                        assert(!qfields_ok(tail, *schema));
                        assert(qfields_err_msg(fsv, *schema) == key@ + " must be an array"@);
                    }
                    let msg = String::from_str(key.as_str()).concat(" must be an array");
                    return Err(RIDBError { code: Errors::ValidationError, message: msg });
                },
            }
        } else {
            let t = match find_prop_type(schema, key.as_str()) {
                Some(t) => t,
                None => {
                    proof {
                        assert(!is_logical(key@));
                        assert(!qfields_ok(tail, *schema));
                        assert(qfields_err_msg(fsv, *schema) == "Invalid property: "@ + key@);
                    }
                    let msg = String::from_str("Invalid property: ").concat(key.as_str());
                    return Err(RIDBError { code: Errors::ValidationError, message: msg });
                },
            };
            match value {
                Value::Obj(ops) => {
                    proof {
                        crate::value::view_fields_len(ops@);
                        assert(value@->Obj_0 == view_fields(ops@));
                        assert(view_fields(ops@).subrange(0, ops@.len() as int) =~= view_fields(
                            ops@,
                        ));
                    }
                    let mut j: usize = 0;
                    while j < ops.len()
                        invariant
                            j <= ops@.len(),
                            forall|x: int|
                                0 <= x < j ==> op_entry_ok(
                                    (#[trigger] view_fields(ops@)[x]).0,
                                    view_fields(ops@)[x].1,
                                    t,
                                ),
                            ops_err_msg(view_fields(ops@), t) == ops_err_msg(
                                view_fields(ops@).subrange(j as int, ops@.len() as int),
                                t,
                            ),
                        decreases ops@.len() - j,
                    {
                        let ghost opsv = view_fields(ops@);
                        let ghost otail = opsv.subrange(j as int, ops@.len() as int);
                        proof {
                            crate::value::view_fields_index(ops@, j as int);
                            assert(otail[0] == opsv[j as int]);
                            assert(otail.subrange(1, otail.len() as int) =~= opsv.subrange(
                                j + 1,
                                ops@.len() as int,
                            ));
                        }
                        let ok = &ops[j].0;
                        let ov = &ops[j].1;
                        let is_in = crate::value::str_eq(ok.as_str(), "$in");
                        let is_cmp = crate::value::str_eq(ok.as_str(), "$gt")
                            || crate::value::str_eq(ok.as_str(), "$gte")
                            || crate::value::str_eq(ok.as_str(), "$lt")
                            || crate::value::str_eq(ok.as_str(), "$lte");
                        if is_in {
                            match ov {
                                Value::Arr(list) => {
                                    proof {
                                        crate::value::view_arr_len(list@);
                                    }
                                    let mut x: usize = 0;
                                    while x < list.len()
                                        invariant
                                            x <= list@.len(),
                                            forall|y: int|
                                                0 <= y < x ==> scalar_ok(
                                                    #[trigger] view_arr(list@)[y],
                                                    t,
                                                ),
                                        decreases list@.len() - x,
                                    {
                                        proof {
                                            crate::value::view_arr_index(list@, x as int);
                                        }
                                        match validate_value(&list[x], t) {
                                            Ok(_) => {},
                                            Err(e) => {
                                                proof {
                                                    crate::value::view_fields_index(ops@, j as int);
                                                    assert(!scalar_ok(view_arr(list@)[x as int], t));
                                                    assert(view_fields(ops@)[j as int].1->Arr_0[x as int]
                                                        == view_arr(list@)[x as int]);
                                                    assert(!op_entry_ok(
                                                        view_fields(ops@)[j as int].0,
                                                        view_fields(ops@)[j as int].1,
                                                        t,
                                                    ));
                                                    assert(!cond_ok(value@, t));
                                                    assert(otail[0].0 == "$in"@);
                                                    assert(otail[0].1 is Arr);
                                                    assert(ops_err_msg(otail, t) == scalar_err_msg(
                                                        t,
                                                    ));
                                                    assert(cond_err_msg(value@, t)
                                                        == scalar_err_msg(t));
                                                    assert(!qfields_ok(tail, *schema));
                                                    assert(qfields_err_msg(fsv, *schema)
                                                        == scalar_err_msg(t));
                                                }
                                                return Err(e);
                                            },
                                        }
                                        x = x + 1;
                                    }
                                },
                                _ => {
                                    proof {
                                        assert(!op_entry_ok(
                                            view_fields(ops@)[j as int].0,
                                            view_fields(ops@)[j as int].1,
                                            t,
                                        ));
                                        assert(!cond_ok(value@, t));
                                        assert(otail[0].0 == "$in"@);
                                        assert(!(otail[0].1 is Arr));
                                        assert(ops_err_msg(otail, t)
                                            == "$in operator requires an array"@);
                                        assert(!qfields_ok(tail, *schema));
                                        assert(qfields_err_msg(fsv, *schema)
                                            == "$in operator requires an array"@);
                                    }
                                    return Err(
                                        RIDBError {
                                            code: Errors::ValidationError,
                                            message: String::from_str(
                                                "$in operator requires an array",
                                            ),
                                        },
                                    );
                                },
                            }
                        } else if is_cmp {
                            match validate_value(ov, t) {
                                Ok(_) => {},
                                Err(e) => {
                                    proof {
                                        assert(!op_entry_ok(
                                            view_fields(ops@)[j as int].0,
                                            view_fields(ops@)[j as int].1,
                                            t,
                                        ));
                                        assert(!cond_ok(value@, t));
                                        assert(otail[0].0 != "$in"@);
                                        assert(ops_err_msg(otail, t) == scalar_err_msg(t));
                                        assert(!qfields_ok(tail, *schema));
                                        assert(qfields_err_msg(fsv, *schema) == scalar_err_msg(
                                            t,
                                        ));
                                    }
                                    return Err(e);
                                },
                            }
                        } else {
                            proof {
                                assert(!op_entry_ok(
                                    view_fields(ops@)[j as int].0,
                                    view_fields(ops@)[j as int].1,
                                    t,
                                ));
                                assert(!cond_ok(value@, t));
                                assert(otail[0].0 != "$in"@);
                                assert(otail[0].0 != "$gt"@ && otail[0].0 != "$gte"@ && otail[0].0
                                    != "$lt"@ && otail[0].0 != "$lte"@);
                                assert(ops_err_msg(otail, t) == "Invalid operator: "@ + otail[0].0);
                                assert(otail[0].0 == ok@);
                                assert(!qfields_ok(tail, *schema));
                                assert(qfields_err_msg(fsv, *schema) == "Invalid operator: "@
                                    + ok@);
                            }
                            let msg = String::from_str("Invalid operator: ").concat(ok.as_str());
                            return Err(RIDBError { code: Errors::ValidationError, message: msg });
                        }
                        j = j + 1;
                    }
                },
                _ => {
                    match validate_value(value, t) {
                        Ok(_) => {},
                        Err(e) => {
                            proof {
                                assert(!(value@ is Obj));
                                assert(!scalar_ok(value@, t));
                                assert(cond_err_msg(value@, t) == scalar_err_msg(t));
                                assert(!qfields_ok(tail, *schema));
                                assert(qfields_err_msg(fsv, *schema) == scalar_err_msg(t));
                            }
                            return Err(e);
                        },
                    }
                },
            }
        }
        i = i + 1;
    }
    Ok(q.deep_copy())
}

/// A query paired with the schema it will be validated against.
#[derive(Debug)]
pub struct Query<'a> {
    pub query: Value,
    pub schema: &'a Schema,
}

impl<'a> Query<'a> {
    /// Wraps a query value with its schema.
    pub fn new(query: Value, schema: &'a Schema) -> (r: Result<Query<'a>, RIDBError>)
        ensures
            r is Ok,
            r->Ok_0.query == query,
            r->Ok_0.schema == schema,
    {
        Ok(Query { query, schema })
    }

    /// The normalized form of the query.
    pub fn get_query(&self) -> (r: Result<Value, RIDBError>)
        ensures
            match normalize(self.query@) {
                Some(n) => r is Ok && r->Ok_0@ == n,
                None => r is Err && r->Err_0.code == Errors::ValidationError
                    && r->Err_0.message@ == norm_err_msg(self.query@),
            },
    {
        normalize_query(&self.query)
    }

    /// The query, validated against the schema.
    pub fn parse(&self) -> (r: Result<Value, RIDBError>)
        ensures
            r is Ok <==> query_parse_ok(self.query@, *self.schema),
            r is Ok ==> r->Ok_0@ == self.query@,
            r is Err ==> r->Err_0.code == Errors::ValidationError && r->Err_0.message@
                == query_err_msg(self.query@, *self.schema),
    {
        process_query(&self.query, self.schema)
    }
}

/// A list whose members normalize to themselves is fixed by `norm_items`.
proof fn lemma_items_of_fixed(items: Seq<Val>)
    requires
        forall|i: int|
            0 <= i < items.len() ==> normalize(#[trigger] items[i]) == Some(items[i]),
    ensures
        norm_items(items) == Some(items),
    decreases items,
{
    if items.len() == 0 {
        assert(norm_items(items) == Some(Seq::<Val>::empty()));
        assert(items =~= Seq::<Val>::empty());
    } else {
        let rest = items.subrange(1, items.len() as int);
        lemma_items_of_fixed(rest);
        assert(seq![items[0]] + rest =~= items);
    }
}

} // verus!
