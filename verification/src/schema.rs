//! The schema model: parsing, validity, and document validation.

use vstd::prelude::*;
use vstd::string::StringExecFns;

use crate::error::{Errors, RIDBError};
use crate::property::{prop_valid, Property, PropertyType};
use crate::value::{obj_get, view_arr, view_fields, Val, Value};

verus! {

/// The name under which a property type appears in a schema definition.
pub open spec fn ptype_name(t: PropertyType) -> Seq<char> {
    match t {
        PropertyType::String => "string"@,
        PropertyType::Number => "number"@,
        PropertyType::Boolean => "boolean"@,
        PropertyType::Array => "array"@,
        PropertyType::Object => "object"@,
    }
}

/// An optional integer field agrees with an optional binding.
pub open spec fn opt_i32_matches(o: Option<i32>, b: Option<Val>) -> bool {
    match b {
        None => o is None,
        Some(v) => o is Some && v == Val::Int(o->0 as int),
    }
}

/// A parsed property records exactly what its definition object holds.
pub open spec fn prop_matches(p: Property, v: Val) -> bool
    decreases p,
{
    &&& v is Obj
    &&& {
        let fs = v->Obj_0;
        &&& obj_get(fs, "type"@) == Some(Val::Str(ptype_name(p.property_type)))
        &&& opt_i32_matches(p.max_length, obj_get(fs, "maxLength"@))
        &&& opt_i32_matches(p.min_length, obj_get(fs, "minLength"@))
        &&& opt_i32_matches(p.max_items, obj_get(fs, "maxItems"@))
        &&& opt_i32_matches(p.min_items, obj_get(fs, "minItems"@))
        &&& match obj_get(fs, "items"@) {
            None => p.items is None,
            Some(iv) => iv is Arr && p.items is Some && p.items->0@.len() == iv->Arr_0.len()
                && forall|i: int|
                0 <= i < p.items->0@.len() ==> prop_matches(
                    #[trigger] p.items->0@[i],
                    iv->Arr_0[i],
                ),
        }
        &&& match obj_get(fs, "properties"@) {
            None => p.properties is None,
            Some(pv) => pv is Obj && p.properties is Some && p.properties->0@.len()
                == pv->Obj_0.len() && forall|i: int|
                0 <= i < p.properties->0@.len() ==> (#[trigger] p.properties->0@[i]).0@
                    == pv->Obj_0[i].0 && prop_matches(p.properties->0@[i].1, pv->Obj_0[i].1),
        }
        &&& match obj_get(fs, "default"@) {
            None => p.default is None,
            Some(dv) => p.default is Some && p.default->0@ == dv,
        }
    }
}

/// Law: any two parses of one property definition agree on validity.
pub proof fn lemma_prop_matches_valid(p1: Property, p2: Property, v: Val)
    requires
        prop_matches(p1, v),
        prop_matches(p2, v),
    ensures
        prop_valid(p1) == prop_valid(p2),
    decreases v,
{
    reveal_strlit("string");
    reveal_strlit("number");
    reveal_strlit("boolean");
    reveal_strlit("array");
    reveal_strlit("object");
    let fs = v->Obj_0;
    assert(ptype_name(p1.property_type) == ptype_name(p2.property_type));
    assert(p1.property_type == p2.property_type) by {
        assert("string"@.len() == 6 && "number"@.len() == 6 && "boolean"@.len() == 7
            && "array"@.len() == 5 && "object"@.len() == 6);
        assert("string"@[0] == 's' && "number"@[0] == 'n' && "object"@[0] == 'o');
    }
    match p1.property_type {
        PropertyType::Array => {
            match obj_get(fs, "items"@) {
                None => {
                },
                Some(iv) => {
                    if p1.items->0@.len() > 0 {
                        crate::value::obj_get_some_at(fs, "items"@);
                        let i = choose|i: int|
                            0 <= i < fs.len() && (#[trigger] fs[i]).0 == "items"@ && fs[i].1 == iv;
                        assert(prop_matches(p1.items->0@[0], iv->Arr_0[0]));
                        assert(prop_matches(p2.items->0@[0], iv->Arr_0[0]));
                        assert(decreases_to!(v => v->Obj_0[i].1->Arr_0[0]));
                        lemma_prop_matches_valid(p1.items->0@[0], p2.items->0@[0], iv->Arr_0[0]);
                    }
                },
            }
        },
        _ => {
        },
    }
}

/// A list of named parsed properties records a definition object.
pub open spec fn prop_list_matches(ps: Seq<(String, Property)>, pfs: Seq<(Seq<char>, Val)>) -> bool {
    &&& ps.len() == pfs.len()
    &&& forall|i: int|
        0 <= i < ps.len() ==> (#[trigger] ps[i]).0@ == pfs[i].0 && prop_matches(ps[i].1, pfs[i].1)
}

/// An optional list of field names agrees with an optional binding.
pub open spec fn opt_names_match(o: Option<Vec<String>>, b: Option<Val>) -> bool {
    match b {
        None => o is None,
        Some(v) => v is Arr && o is Some && o->0@.len() == v->Arr_0.len() && forall|i: int|
            0 <= i < o->0@.len() ==> v->Arr_0[i] == Val::Str((#[trigger] o->0@[i])@),
    }
}

/// An optional integer bound is readable: absent, or an integer in range.
pub open spec fn bound_ok(b: Option<Val>) -> bool {
    match b {
        None => true,
        Some(v) => v is Int && -2147483648 <= v->Int_0 <= 2147483647,
    }
}

/// Some valid property parses out of this definition value.
pub open spec fn some_valid_prop(v: Val) -> bool {
    exists|p: Property| prop_matches(p, v) && prop_valid(p)
}

/// A list of field names: an array holding only strings.
pub open spec fn names_ok(v: Val) -> bool {
    v is Arr && forall|i: int| 0 <= i < v->Arr_0.len() ==> (#[trigger] v->Arr_0[i]) is Str
}

/// A schema definition that `create` accepts: a numeric version in range,
/// a string primary key, the type "object", a properties object whose
/// every member parses to a valid property, and well-shaped optional
/// required/encrypted/index name lists.
pub open spec fn schema_def_ok(d: Val) -> bool {
    &&& d is Obj
    &&& match obj_get(d->Obj_0, "version"@) {
        Some(v) => v is Int && -2147483648 <= v->Int_0 <= 2147483647,
        None => false,
    }
    &&& match obj_get(d->Obj_0, "primaryKey"@) {
        Some(v) => v is Str,
        None => false,
    }
    &&& match obj_get(d->Obj_0, "type"@) {
        Some(v) => v is Str && v->Str_0 == "object"@,
        None => false,
    }
    &&& match obj_get(d->Obj_0, "properties"@) {
        Some(pv) => pv is Obj && forall|i: int|
            0 <= i < pv->Obj_0.len() ==> some_valid_prop((#[trigger] pv->Obj_0[i]).1),
        None => false,
    }
    &&& match obj_get(d->Obj_0, "required"@) {
        None => true,
        Some(v) => names_ok(v),
    }
    &&& match obj_get(d->Obj_0, "encrypted"@) {
        None => true,
        Some(v) => names_ok(v),
    }
    &&& match obj_get(d->Obj_0, "indexes"@) {
        None => true,
        Some(v) => names_ok(v),
    }
}

/// A parsed schema records exactly what its definition value holds, and
/// is valid.
pub open spec fn schema_matches(s: Schema, d: Val) -> bool {
    &&& d is Obj
    &&& obj_get(d->Obj_0, "version"@) == Some(Val::Int(s.version as int))
    &&& obj_get(d->Obj_0, "primaryKey"@) == Some(Val::Str(s.primary_key@))
    &&& obj_get(d->Obj_0, "type"@) == Some(Val::Str(s.schema_type@))
    &&& obj_get(d->Obj_0, "properties"@) is Some
    &&& obj_get(d->Obj_0, "properties"@)->0 is Obj
    &&& prop_list_matches(s.properties@, obj_get(d->Obj_0, "properties"@)->0->Obj_0)
    &&& opt_names_match(s.required, obj_get(d->Obj_0, "required"@))
    &&& opt_names_match(s.encrypted, obj_get(d->Obj_0, "encrypted"@))
    &&& opt_names_match(s.indexes, obj_get(d->Obj_0, "indexes"@))
    &&& schema_valid(s)
}

/// Represents the schema of a collection: version, primary key, type,
/// properties, and the optional required/encrypted/index field lists.
#[derive(Debug)]
pub struct Schema {
    pub version: i32,
    pub primary_key: String,
    pub schema_type: String,
    pub properties: Vec<(String, Property)>,
    pub indexes: Option<Vec<String>>,
    pub required: Option<Vec<String>>,
    pub encrypted: Option<Vec<String>>,
}

/// A schema is valid when its type is "object" and every property is valid.
pub open spec fn schema_valid(s: Schema) -> bool {
    &&& s.schema_type@ == "object"@
    &&& forall|i: int| 0 <= i < s.properties@.len() ==> prop_valid((#[trigger] s.properties@[i]).1)
}

/// Whether `name` occurs in an optional list of field names.
pub open spec fn name_listed(o: Option<Vec<String>>, name: Seq<char>) -> bool {
    o is Some && exists|i: int| 0 <= i < o->0@.len() && (#[trigger] o->0@[i])@ == name
}

/// A runtime value matches a declared property type. Numbers are modelled
/// as integers; objects exclude nulls and arrays by construction.
pub open spec fn type_matches(t: PropertyType, v: Val) -> bool {
    match t {
        PropertyType::String => v is Str,
        PropertyType::Number => v is Int,
        PropertyType::Boolean => v is Bool,
        PropertyType::Object => v is Obj,
        PropertyType::Array => v is Arr,
    }
}

/// A document conforms to a schema: every declared field is either present
/// with a matching runtime type, or absent and not required (fields that
/// wait in the encrypted blob are excused).
pub open spec fn doc_conforms(s: Schema, d: Val) -> bool {
    &&& d is Obj
    &&& forall|i: int|
        0 <= i < s.properties@.len() ==> {
            let key = (#[trigger] s.properties@[i]).0@;
            let p = s.properties@[i].1;
            match obj_get(d->Obj_0, key) {
                Some(v) => type_matches(p.property_type, v),
                None => !(name_listed(s.required, key) && !name_listed(s.encrypted, key)),
            }
        }
}

/// Whether `name` occurs in the optional list.
#[verifier::loop_isolation(false)]
pub fn names_contain(o: &Option<Vec<String>>, name: &str) -> (r: bool)
    ensures
        r == name_listed(*o, name@),
{
    match o {
        None => false,
        Some(l) => {
            let mut i: usize = 0;
            loop
                invariant
                    i <= l@.len(),
                    forall|j: int| 0 <= j < i ==> (#[trigger] l@[j])@ != name@,
                decreases l@.len() - i,
            {
                if i >= l.len() {
                    return false;
                }
                if crate::value::str_eq(l[i].as_str(), name) {
                    proof {
                        assert((o->0@[i as int])@ == name@);
                    }
                    return true;
                }
                i = i + 1;
            }
        },
    }
}

impl Schema {
    /// Retrieves the version of the schema.
    pub fn get_version(&self) -> (r: i32)
        ensures
            r == self.version,
    {
        self.version
    }

    /// Retrieves the primary key of the schema.
    pub fn get_primary_key(&self) -> (r: String)
        ensures
            r@ == self.primary_key@,
    {
        self.primary_key.clone()
    }

    /// Retrieves the type of the schema.
    pub fn get_schema_type(&self) -> (r: String)
        ensures
            r@ == self.schema_type@,
    {
        self.schema_type.clone()
    }

    /// Retrieves the indexes of the schema, if any.
    pub fn get_indexes(&self) -> (r: &Option<Vec<String>>)
        ensures
            r == &self.indexes,
    {
        &self.indexes
    }

    /// Retrieves the required field names of the schema, if any.
    pub fn get_required(&self) -> (r: &Option<Vec<String>>)
        ensures
            r == &self.required,
    {
        &self.required
    }

    /// Retrieves the encrypted field names of the schema, if any.
    pub fn get_encrypted(&self) -> (r: &Option<Vec<String>>)
        ensures
            r == &self.encrypted,
    {
        &self.encrypted
    }

    /// Retrieves the named properties of the schema.
    pub fn get_properties(&self) -> (r: &Vec<(String, Property)>)
        ensures
            r == &self.properties,
    {
        &self.properties
    }

    /// Checks that the schema type is "object" and every property is valid.
    pub fn is_valid(&self) -> (r: Result<bool, RIDBError>)
        ensures
            r is Ok <==> schema_valid(*self),
            r is Ok ==> r->Ok_0 == true,
            r is Err ==> r->Err_0.code == Errors::ValidationError,
    {
        if !crate::value::str_eq(self.schema_type.as_str(), "object") {
            let msg = String::from_str("Schema type is invalid (\"").concat(
                self.schema_type.as_str(),
            ).concat("\")");
            return Err(RIDBError::validation(msg.as_str()));
        }
        let mut i: usize = 0;
        loop
            invariant
                i <= self.properties@.len(),
                self.schema_type@ == "object"@,
                forall|j: int|
                    0 <= j < i ==> prop_valid((#[trigger] self.properties@[j]).1),
            decreases self.properties@.len() - i,
        {
            if i >= self.properties.len() {
                return Ok(true);
            }
            match self.properties[i].1.is_valid() {
                Ok(_) => {},
                Err(e) => {
                    return Err(e);
                },
            }
            i = i + 1;
        }
    }

    /// Validates a document against the schema: required non-encrypted
    /// fields must be present, and present fields must match their type.
    pub fn validate_schema(&self, document: &Value) -> (r: Result<(), RIDBError>)
        ensures
            r is Ok <==> doc_conforms(*self, document@),
            r is Err ==> r->Err_0.code == Errors::ValidationError,
    {
        let fields = match document {
            Value::Obj(fields) => fields,
            _ => {
                return Err(RIDBError::validation("Document must be an object"));
            },
        };
        let mut i: usize = 0;
        loop
            invariant
                i <= self.properties@.len(),
                document@ is Obj,
                document@->Obj_0 == view_fields(fields@),
                forall|j: int|
                    0 <= j < i ==> {
                        let key = (#[trigger] self.properties@[j]).0@;
                        match obj_get(view_fields(fields@), key) {
                            Some(v) => type_matches(self.properties@[j].1.property_type, v),
                            None => !(name_listed(self.required, key) && !name_listed(
                                self.encrypted,
                                key,
                            )),
                        }
                    },
            decreases self.properties@.len() - i,
        {
            if i >= self.properties.len() {
                return Ok(());
            }
            let key = &self.properties[i].0;
            let prop_type = self.properties[i].1.property_type;
            match crate::value::obj_get_value(fields, key.as_str()) {
                None => {
                    if names_contain(&self.required, key.as_str()) && !names_contain(
                        &self.encrypted,
                        key.as_str(),
                    ) {
                        let msg = String::from_str("Field '").concat(key.as_str()).concat(
                            "' is required",
                        );
                        return Err(RIDBError::validation(msg.as_str()));
                    }
                },
                Some(v) => {
                    if !is_type_correct(v, prop_type) {
                        let msg = String::from_str("Field '").concat(key.as_str()).concat(
                            "' has the wrong type",
                        );
                        return Err(RIDBError::validation(msg.as_str()));
                    }
                },
            }
            i = i + 1;
        }
    }
}

/// Reads an optional integer bound out of a property definition.
fn get_opt_i32(fields: &Vec<(String, Value)>, key: &str) -> (r: Result<Option<i32>, RIDBError>)
    ensures
        r is Ok <==> bound_ok(obj_get(view_fields(fields@), key@)),
        r is Ok ==> opt_i32_matches(r->Ok_0, obj_get(view_fields(fields@), key@)),
        r is Err ==> r->Err_0.code == Errors::ValidationError,
{
    match crate::value::obj_find(fields, key) {
        None => Ok(None),
        Some(ix) => {
            match &fields[ix].1 {
                Value::Int(i) => {
                    let iv = *i;
                    if iv >= -2147483648i64 && iv <= 2147483647i64 {
                        Ok(Some(iv as i32))
                    } else {
                        Err(RIDBError::validation("Bound out of range"))
                    }
                },
                _ => Err(RIDBError::validation("Bound must be a number")),
            }
        },
    }
}

/// Reads a list of field names out of a schema definition value.
#[verifier::loop_isolation(false)]
fn parse_names(v: &Value) -> (r: Result<Vec<String>, RIDBError>)
    ensures
        r is Ok <==> names_ok(v@),
        r is Ok ==> v@ is Arr && r->Ok_0@.len() == v@->Arr_0.len() && forall|i: int|
            0 <= i < r->Ok_0@.len() ==> v@->Arr_0[i] == Val::Str((#[trigger] r->Ok_0@[i])@),
        r is Err ==> r->Err_0.code == Errors::ValidationError,
{
    broadcast use crate::value::group_value_views;

    match v {
        Value::Arr(a) => {
            let mut out: Vec<String> = Vec::new();
            let mut i: usize = 0;
            while i < a.len()
                invariant
                    i <= a@.len(),
                    out@.len() == i,
                    forall|j: int|
                        0 <= j < i ==> a@[j]@ == Val::Str((#[trigger] out@[j])@),
                decreases a@.len() - i,
            {
                match &a[i] {
                    Value::Str(s) => {
                        out.push(s.clone());
                    },
                    _ => {
                        proof {
                            crate::value::view_arr_len(a@);
                            crate::value::view_arr_index(a@, i as int);
                            assert(v@->Arr_0 == view_arr(a@));
                            assert(!(view_arr(a@)[i as int] is Str));
                            assert(!names_ok(v@));
                        }
                        return Err(RIDBError::validation("Field names must be strings"));
                    },
                }
                i = i + 1;
            }
            proof {
                crate::value::view_arr_len(a@);
                assert forall|j: int| 0 <= j < out@.len() implies view_arr(a@)[j] == Val::Str(
                    (#[trigger] out@[j])@,
                ) by {
                    crate::value::view_arr_index(a@, j);
                }
                assert(v@->Arr_0 == view_arr(a@));
                assert forall|j: int| 0 <= j < view_arr(a@).len() implies (#[trigger] view_arr(
                    a@,
                )[j]) is Str by {
                    crate::value::view_arr_index(a@, j);
                    assert(view_arr(a@)[j] == Val::Str(out@[j]@));
                }
                assert(names_ok(v@));
            }
            Ok(out)
        },
        _ => Err(RIDBError::validation("Field names must be an array")),
    }
}

/// Parses a property definition.
#[verifier::loop_isolation(false)]
#[verifier::rlimit(100)]
pub fn parse_property(v: &Value) -> (r: Result<Property, RIDBError>)
    ensures
        r is Ok ==> prop_matches(r->Ok_0, v@),
        (exists|p: Property| prop_matches(p, v@)) ==> r is Ok,
        r is Err ==> r->Err_0.code == Errors::ValidationError,
    decreases v,
{
    broadcast use crate::value::group_value_views;

    let fields = match v {
        Value::Obj(fields) => fields,
        _ => {
            return Err(RIDBError::validation("Property must be an object"));
        },
    };
    let property_type = match crate::value::obj_find(fields, "type") {
        Some(ix) => {
            match &fields[ix].1 {
                Value::Str(s) => {
                    if crate::value::str_eq(s.as_str(), "string") {
                        PropertyType::String
                    } else if crate::value::str_eq(s.as_str(), "number") {
                        PropertyType::Number
                    } else if crate::value::str_eq(s.as_str(), "boolean") {
                        PropertyType::Boolean
                    } else if crate::value::str_eq(s.as_str(), "array") {
                        PropertyType::Array
                    } else if crate::value::str_eq(s.as_str(), "object") {
                        PropertyType::Object
                    } else {
                        return Err(RIDBError::validation("Unknown property type"));
                    }
                },
                _ => {
                    return Err(RIDBError::validation("Property type must be a string"));
                },
            }
        },
        None => {
            return Err(RIDBError::validation("Property lacks a type"));
        },
    };
    let max_length = match get_opt_i32(fields, "maxLength") {
        Ok(b) => b,
        Err(e) => {
            return Err(e);
        },
    };
    let min_length = match get_opt_i32(fields, "minLength") {
        Ok(b) => b,
        Err(e) => {
            return Err(e);
        },
    };
    let max_items = match get_opt_i32(fields, "maxItems") {
        Ok(b) => b,
        Err(e) => {
            return Err(e);
        },
    };
    let min_items = match get_opt_i32(fields, "minItems") {
        Ok(b) => b,
        Err(e) => {
            return Err(e);
        },
    };
    let items = match crate::value::obj_find(fields, "items") {
        None => None,
        Some(ix) => {
            match &fields[ix].1 {
                Value::Arr(a) => {
                    let mut out: Vec<Property> = Vec::new();
                    let mut i: usize = 0;
                    while i < a.len()
                        invariant
                            i <= a@.len(),
                            out@.len() == i,
                            fields@[ix as int].1 == Value::Arr(*a),
                            forall|j: int|
                                0 <= j < i ==> prop_matches(#[trigger] out@[j], a@[j]@),
                        decreases a@.len() - i,
                    {
                        proof {
                            assert(decreases_to!(*v => v->Obj_0@[ix as int].1->Arr_0@[
                                i as int
                            ]));
                        }
                        match parse_property(&a[i]) {
                            Ok(p) => {
                                out.push(p);
                            },
                            Err(e) => {
                                proof {
                                    if exists|p: Property| prop_matches(p, v@) {
                                        let p = choose|p: Property| prop_matches(p, v@);
                                        crate::value::view_arr_len(a@);
                                        crate::value::view_arr_index(a@, i as int);
                                        assert(prop_matches(
                                            p.items->0@[i as int],
                                            a@[i as int]@,
                                        ));
                                        assert(false);
                                    }
                                }
                                return Err(e);
                            },
                        }
                        i = i + 1;
                    }
                    proof {
                        crate::value::view_arr_len(a@);
                        assert forall|j: int| 0 <= j < out@.len() implies prop_matches(
                            #[trigger] out@[j],
                            view_arr(a@)[j],
                        ) by {
                            crate::value::view_arr_index(a@, j);
                        }
                    }
                    Some(out)
                },
                _ => {
                    return Err(RIDBError::validation("Items must be an array"));
                },
            }
        },
    };
    let properties = match crate::value::obj_find(fields, "properties") {
        None => None,
        Some(ix) => {
            match &fields[ix].1 {
                Value::Obj(pf) => {
                    let mut out: Vec<(String, Property)> = Vec::new();
                    let mut i: usize = 0;
                    while i < pf.len()
                        invariant
                            i <= pf@.len(),
                            out@.len() == i,
                            fields@[ix as int].1 == Value::Obj(*pf),
                            forall|j: int|
                                0 <= j < i ==> (#[trigger] out@[j]).0@ == pf@[j].0@
                                    && prop_matches(out@[j].1, pf@[j].1@),
                        decreases pf@.len() - i,
                    {
                        proof {
                            assert(decreases_to!(*v => v->Obj_0@[ix as int].1->Obj_0@[
                                i as int
                            ].1));
                        }
                        let name = pf[i].0.clone();
                        match parse_property(&pf[i].1) {
                            Ok(p) => {
                                out.push((name, p));
                            },
                            Err(e) => {
                                proof {
                                    if exists|p: Property| prop_matches(p, v@) {
                                        let p = choose|p: Property| prop_matches(p, v@);
                                        crate::value::view_fields_len(pf@);
                                        crate::value::view_fields_index(pf@, i as int);
                                        assert(prop_matches(
                                            p.properties->0@[i as int].1,
                                            pf@[i as int].1@,
                                        ));
                                        assert(false);
                                    }
                                }
                                return Err(e);
                            },
                        }
                        i = i + 1;
                    }
                    proof {
                        crate::value::view_fields_len(pf@);
                        assert forall|j: int| 0 <= j < out@.len() implies (#[trigger] out@[j]).0@
                            == view_fields(pf@)[j].0 && prop_matches(
                            out@[j].1,
                            view_fields(pf@)[j].1,
                        ) by {
                            crate::value::view_fields_index(pf@, j);
                        }
                    }
                    Some(out)
                },
                _ => {
                    return Err(RIDBError::validation("Properties must be an object"));
                },
            }
        },
    };
    let default = match crate::value::obj_get_value(fields, "default") {
        None => None,
        Some(d) => Some(d.deep_copy()),
    };
    let prop = Property {
        property_type,
        items,
        max_items,
        min_items,
        properties,
        max_length,
        min_length,
        default,
    };
    Ok(prop)
}

impl Schema {
    /// Creates a new `Schema` from a definition value and checks that it
    /// is valid.
    #[verifier::loop_isolation(false)]
    #[verifier::rlimit(100)]
    pub fn create(def: &Value) -> (r: Result<Schema, RIDBError>)
        ensures
            r is Ok <==> schema_def_ok(def@),
            r is Ok ==> schema_matches(r->Ok_0, def@),
    {
        let fields = match def {
            Value::Obj(fields) => fields,
            _ => {
                return Err(RIDBError::serialisation("Schema must be an object"));
            },
        };
        let version = match crate::value::obj_get_value(fields, "version") {
            Some(Value::Int(i)) => {
                let iv = *i;
                if iv >= -2147483648i64 && iv <= 2147483647i64 {
                    iv as i32
                } else {
                    return Err(RIDBError::serialisation("Version out of range"));
                }
            },
            _ => {
                return Err(RIDBError::serialisation("Schema lacks a numeric version"));
            },
        };
        let primary_key = match crate::value::obj_get_value(fields, "primaryKey") {
            Some(Value::Str(s)) => s.clone(),
            _ => {
                return Err(RIDBError::serialisation("Schema lacks a primary key"));
            },
        };
        let schema_type = match crate::value::obj_get_value(fields, "type") {
            Some(Value::Str(s)) => s.clone(),
            _ => {
                return Err(RIDBError::serialisation("Schema lacks a type"));
            },
        };
        let properties = match crate::value::obj_find(fields, "properties") {
            Some(ix) => {
                match &fields[ix].1 {
                    Value::Obj(pf) => {
                        let mut out: Vec<(String, Property)> = Vec::new();
                        let mut i: usize = 0;
                        while i < pf.len()
                            invariant
                                i <= pf@.len(),
                                out@.len() == i,
                                fields@[ix as int].1 == Value::Obj(*pf),
                                forall|j: int|
                                    0 <= j < i ==> (#[trigger] out@[j]).0@ == pf@[j].0@
                                        && prop_matches(out@[j].1, pf@[j].1@),
                            decreases pf@.len() - i,
                        {
                            let name = pf[i].0.clone();
                            match parse_property(&pf[i].1) {
                                Ok(p) => {
                                    out.push((name, p));
                                },
                                Err(e) => {
                                    proof {
                                        if schema_def_ok(def@) {
                                            crate::value::view_fields_len(pf@);
                                            crate::value::view_fields_index(pf@, i as int);
                                            let pv = obj_get(def@->Obj_0, "properties"@)->0;
                                            assert(pv->Obj_0[i as int].1 == pf@[i as int].1@);
                                            assert(some_valid_prop(pv->Obj_0[i as int].1));
                                            let q = choose|q: Property|
                                                prop_matches(q, pv->Obj_0[i as int].1)
                                                    && prop_valid(q);
                                            assert(prop_matches(q, pf@[i as int].1@));
                                            assert(false);
                                        }
                                    }
                                    return Err(e);
                                },
                            }
                            i = i + 1;
                        }
                        proof {
                            crate::value::view_fields_len(pf@);
                            assert forall|j: int| 0 <= j < out@.len() implies (#[trigger] out@[j]).0@
                                == view_fields(pf@)[j].0 && prop_matches(
                                out@[j].1,
                                view_fields(pf@)[j].1,
                            ) by {
                                crate::value::view_fields_index(pf@, j);
                            }
                            assert(prop_list_matches(out@, view_fields(pf@)));
                            assert(obj_get(def@->Obj_0, "properties"@) == Some(
                                Val::Obj(view_fields(pf@)),
                            ));
                        }
                        out
                    },
                    _ => {
                        return Err(RIDBError::serialisation("Properties must be an object"));
                    },
                }
            },
            None => {
                return Err(RIDBError::serialisation("Schema lacks properties"));
            },
        };
        let ghost pfs = obj_get(def@->Obj_0, "properties"@)->0->Obj_0;
        proof {
            assert(prop_list_matches(properties@, pfs));
        }
        let required = match crate::value::obj_get_value(fields, "required") {
            None => None,
            Some(v) => {
                match parse_names(v) {
                    Ok(names) => Some(names),
                    Err(e) => {
                        return Err(e);
                    },
                }
            },
        };
        let encrypted = match crate::value::obj_get_value(fields, "encrypted") {
            None => None,
            Some(v) => {
                match parse_names(v) {
                    Ok(names) => Some(names),
                    Err(e) => {
                        return Err(e);
                    },
                }
            },
        };
        let indexes = match crate::value::obj_get_value(fields, "indexes") {
            None => None,
            Some(v) => {
                match parse_names(v) {
                    Ok(names) => Some(names),
                    Err(e) => {
                        return Err(e);
                    },
                }
            },
        };
        let schema = Schema {
            version,
            primary_key,
            schema_type,
            properties,
            indexes,
            required,
            encrypted,
        };
        match schema.is_valid() {
            Ok(_) => {
                proof {
                    assert(schema.schema_type@ == "object"@);
                    schema_def_ok_from_parts(def@, schema);
                }
                Ok(schema)
            },
            Err(e) => {
                proof {
                    if schema_def_ok(def@) {
                        assert forall|i: int| 0 <= i < schema.properties@.len() implies prop_valid(
                            (#[trigger] schema.properties@[i]).1,
                        ) by {
                            let pv = obj_get(def@->Obj_0, "properties"@)->0;
                            assert(pv->Obj_0[i] == pfs[i]);
                            assert(some_valid_prop(pv->Obj_0[i].1));
                            let q = choose|q: Property|
                                prop_matches(q, pfs[i].1) && prop_valid(q);
                            lemma_prop_matches_valid(schema.properties@[i].1, q, pfs[i].1);
                        }
                        assert(schema_valid(schema));
                        assert(false);
                    }
                }
                Err(e)
            },
        }
    }
}

/// A definition all of whose parts parsed into a valid schema is accepted.
proof fn schema_def_ok_from_parts(d: Val, s: Schema)
    requires
        d is Obj,
        obj_get(d->Obj_0, "version"@) == Some(Val::Int(s.version as int)),
        obj_get(d->Obj_0, "primaryKey"@) == Some(Val::Str(s.primary_key@)),
        obj_get(d->Obj_0, "type"@) == Some(Val::Str(s.schema_type@)),
        obj_get(d->Obj_0, "properties"@) is Some,
        obj_get(d->Obj_0, "properties"@)->0 is Obj,
        prop_list_matches(s.properties@, obj_get(d->Obj_0, "properties"@)->0->Obj_0),
        opt_names_match(s.required, obj_get(d->Obj_0, "required"@)),
        opt_names_match(s.encrypted, obj_get(d->Obj_0, "encrypted"@)),
        opt_names_match(s.indexes, obj_get(d->Obj_0, "indexes"@)),
        schema_valid(s),
    ensures
        schema_def_ok(d),
{
    let pv = obj_get(d->Obj_0, "properties"@)->0;
    assert forall|i: int| 0 <= i < pv->Obj_0.len() implies some_valid_prop(
        (#[trigger] pv->Obj_0[i]).1,
    ) by {
        assert(prop_matches(s.properties@[i].1, pv->Obj_0[i].1));
        assert(prop_valid(s.properties@[i].1));
    }
    if obj_get(d->Obj_0, "required"@) is Some {
        names_match_ok(s.required, obj_get(d->Obj_0, "required"@));
    }
    if obj_get(d->Obj_0, "encrypted"@) is Some {
        names_match_ok(s.encrypted, obj_get(d->Obj_0, "encrypted"@));
    }
    if obj_get(d->Obj_0, "indexes"@) is Some {
        names_match_ok(s.indexes, obj_get(d->Obj_0, "indexes"@));
    }
}

/// A matched optional name list is a well-shaped one.
proof fn names_match_ok(o: Option<Vec<String>>, b: Option<Val>)
    requires
        opt_names_match(o, b),
        b is Some,
    ensures
        names_ok(b->0),
{
    let v = b->0;
    assert forall|i: int| 0 <= i < v->Arr_0.len() implies (#[trigger] v->Arr_0[i]) is Str by {
        assert(v->Arr_0[i] == Val::Str(o->0@[i]@));
    }
}

/// Whether a runtime value matches a declared property type.
pub fn is_type_correct(value: &Value, prop_type: PropertyType) -> (r: bool)
    ensures
        r == type_matches(prop_type, value@),
{
    match prop_type {
        PropertyType::String => matches!(value, Value::Str(_)),
        PropertyType::Number => matches!(value, Value::Int(_)),
        PropertyType::Boolean => matches!(value, Value::Bool(_)),
        PropertyType::Object => matches!(value, Value::Obj(_)),
        PropertyType::Array => matches!(value, Value::Arr(_)),
    }
}

} // verus!
