//! The defaults plugin: fill unset fields from schema defaults on write.

use vstd::prelude::*;

use crate::error::RIDBError;
use crate::property::Property;
use crate::schema::Schema;
use crate::value::{obj_get, obj_insert, view_fields, Val, Value};

verus! {

/// What filling the defaults leaves: each declared property with a default
/// whose field is absent or null gets that default, in declaration order.
pub open spec fn defaults_fields(
    ps: Seq<(String, Property)>,
    fs: Seq<(Seq<char>, Val)>,
) -> Seq<(Seq<char>, Val)>
    decreases ps.len(),
{
    if ps.len() == 0 {
        fs
    } else {
        let key = ps[0].0@;
        let p = ps[0].1;
        let unset = obj_get(fs, key) is None || obj_get(fs, key) == Some(Val::Null);
        let fs1 = if unset && p.default is Some {
            obj_insert(fs, key, p.default->0@)
        } else {
            fs
        };
        defaults_fields(ps.subrange(1, ps.len() as int), fs1)
    }
}

/// A field that holds a value other than null keeps it.
pub proof fn lemma_defaults_keep_set_fields(
    ps: Seq<(String, Property)>,
    fs: Seq<(Seq<char>, Val)>,
    k: Seq<char>,
)
    requires
        obj_get(fs, k) is Some,
        obj_get(fs, k) != Some(Val::Null),
    ensures
        obj_get(defaults_fields(ps, fs), k) == obj_get(fs, k),
    decreases ps.len(),
{
    if ps.len() > 0 {
        let key = ps[0].0@;
        let p = ps[0].1;
        let unset = obj_get(fs, key) is None || obj_get(fs, key) == Some(Val::Null);
        if unset && p.default is Some {
            let fs1 = obj_insert(fs, key, p.default->0@);
            crate::value::obj_insert_get(fs, key, p.default->0@, k);
            lemma_defaults_keep_set_fields(ps.subrange(1, ps.len() as int), fs1, k);
        } else {
            lemma_defaults_keep_set_fields(ps.subrange(1, ps.len() as int), fs, k);
        }
    }
}

/// A key no property declares is untouched by the defaults.
pub proof fn lemma_defaults_keep_undeclared(
    ps: Seq<(String, Property)>,
    fs: Seq<(Seq<char>, Val)>,
    k: Seq<char>,
)
    requires
        forall|i: int| 0 <= i < ps.len() ==> (#[trigger] ps[i]).0@ != k,
    ensures
        obj_get(defaults_fields(ps, fs), k) == obj_get(fs, k),
    decreases ps.len(),
{
    if ps.len() > 0 {
        let key = ps[0].0@;
        let p = ps[0].1;
        let unset = obj_get(fs, key) is None || obj_get(fs, key) == Some(Val::Null);
        let rest = ps.subrange(1, ps.len() as int);
        assert forall|i: int| 0 <= i < rest.len() implies (#[trigger] rest[i]).0@ != k by {
            assert(rest[i] == ps[i + 1]);
        }
        if unset && p.default is Some {
            let fs1 = obj_insert(fs, key, p.default->0@);
            crate::value::obj_insert_get(fs, key, p.default->0@, k);
            lemma_defaults_keep_undeclared(rest, fs1, k);
        } else {
            lemma_defaults_keep_undeclared(rest, fs, k);
        }
    }
}

/// Filling defaults keeps the fields sorted.
pub proof fn lemma_defaults_sorted(ps: Seq<(String, Property)>, fs: Seq<(Seq<char>, Val)>)
    requires
        crate::value::fields_sorted(fs),
    ensures
        crate::value::fields_sorted(defaults_fields(ps, fs)),
    decreases ps.len(),
{
    if ps.len() > 0 {
        let key = ps[0].0@;
        let p = ps[0].1;
        let unset = obj_get(fs, key) is None || obj_get(fs, key) == Some(Val::Null);
        if unset && p.default is Some {
            crate::value::obj_insert_sorted(fs, key, p.default->0@);
            lemma_defaults_sorted(ps.subrange(1, ps.len() as int), obj_insert(fs, key, p.default->0@));
        } else {
            lemma_defaults_sorted(ps.subrange(1, ps.len() as int), fs);
        }
    }
}

/// The defaults plugin: its create hook fills unset fields from the
/// schema's defaults; it has no recover hook.
#[derive(Debug)]
pub struct DefaultsPlugin {}

impl DefaultsPlugin {
    /// Fills unset fields from the schema's defaults; anything but an object
    /// passes through untouched.
    #[verifier::loop_isolation(false)]
    pub fn add_defaults(&self, schema: &Schema, document: &Value) -> (r: Result<Value, RIDBError>)
        ensures
            r is Ok,
            document@ is Obj ==> r->Ok_0@ == Val::Obj(
                defaults_fields(schema.properties@, document@->Obj_0),
            ),
            !(document@ is Obj) ==> r->Ok_0@ == document@,
    {
        let mut fields = match document {
            Value::Obj(fields) => {
                let mut copy: Vec<(String, Value)> = Vec::new();
                let mut i: usize = 0;
                while i < fields.len()
                    invariant
                        i <= fields@.len(),
                        copy@.len() == i,
                        forall|j: int|
                            0 <= j < i ==> (#[trigger] copy@[j]).0@ == fields@[j].0@ && copy@[j].1@
                                == fields@[j].1@,
                    decreases fields@.len() - i,
                {
                    let k = fields[i].0.clone();
                    let v = fields[i].1.deep_copy();
                    copy.push((k, v));
                    i = i + 1;
                }
                proof {
                    crate::value::view_fields_len(copy@);
                    crate::value::view_fields_len(fields@);
                    assert forall|j: int| 0 <= j < copy@.len() implies view_fields(copy@)[j]
                        == view_fields(fields@)[j] by {
                        crate::value::view_fields_index(copy@, j);
                        crate::value::view_fields_index(fields@, j);
                    }
                    assert(view_fields(copy@) =~= view_fields(fields@));
                }
                copy
            },
            _ => {
                return Ok(document.deep_copy());
            },
        };
        let ghost dfs = view_fields(fields@);
        let ps = &schema.properties;
        proof {
            assert(ps@.subrange(0, ps@.len() as int) =~= ps@);
        }
        let mut i: usize = 0;
        while i < ps.len()
            invariant
                i <= ps@.len(),
                defaults_fields(ps@, dfs) == defaults_fields(
                    ps@.subrange(i as int, ps@.len() as int),
                    view_fields(fields@),
                ),
            decreases ps@.len() - i,
        {
            let ghost tail = ps@.subrange(i as int, ps@.len() as int);
            proof {
                assert(tail[0] == ps@[i as int]);
                assert(tail.subrange(1, tail.len() as int) =~= ps@.subrange(
                    i + 1,
                    ps@.len() as int,
                ));
            }
            let key = &ps[i].0;
            let prop = &ps[i].1;
            let unset = match crate::value::obj_get_value(&fields, key.as_str()) {
                None => true,
                Some(Value::Null) => true,
                Some(_) => false,
            };
            if unset {
                match &prop.default {
                    Some(d) => {
                        let dv = d.deep_copy();
                        crate::value::obj_set_value(&mut fields, key.as_str(), dv);
                    },
                    None => {},
                }
            }
            i = i + 1;
        }
        proof {
            assert(ps@.subrange(ps@.len() as int, ps@.len() as int) =~= Seq::<
                (String, Property),
            >::empty());
        }
        Ok(Value::Obj(fields))
    }

}

} // verus!
