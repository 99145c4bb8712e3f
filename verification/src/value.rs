//! The dynamic document model: a JSON-like sum type.
//!
//! Documents are heterogeneous records, so the engine works on a recursive
//! `Value` type. Contracts speak about the mathematical shadow `Val`, in
//! which strings are `Seq<char>`, arrays are `Seq<Val>` and objects are
//! sequences of key/value pairs. Objects are kept in canonical form: their
//! keys are strictly increasing in code-point order, so two objects hold the
//! same mapping exactly when they are equal.

use vstd::prelude::*;

verus! {

broadcast use vstd::seq::group_seq_axioms;

/// A JSON-like runtime value. Object fields are sorted by key.
#[derive(Debug, PartialEq, Eq)]
pub enum Value {
    Null,
    Bool(bool),
    Int(i64),
    Str(String),
    Arr(Vec<Value>),
    Obj(Vec<(String, Value)>),
}

/// The mathematical model of a `Value`.
pub enum Val {
    Null,
    Bool(bool),
    Int(int),
    Str(Seq<char>),
    Arr(Seq<Val>),
    Obj(Seq<(Seq<char>, Val)>),
}

impl View for Value {
    type V = Val;

    open spec fn view(&self) -> Val
        decreases self,
    {
        match self {
            Value::Null => Val::Null,
            Value::Bool(b) => Val::Bool(*b),
            Value::Int(i) => Val::Int(*i as int),
            Value::Str(s) => Val::Str(s@),
            Value::Arr(a) => Val::Arr(view_arr(a@)),
            Value::Obj(o) => Val::Obj(view_fields(o@)),
        }
    }
}

/// The models of the elements of an array, in order.
pub open spec fn view_arr(s: Seq<Value>) -> Seq<Val>
    decreases s,
{
    if s.len() == 0 {
        Seq::empty()
    } else {
        seq![s[0]@] + view_arr(s.subrange(1, s.len() as int))
    }
}

/// The models of the fields of an object, in order.
pub open spec fn view_fields(s: Seq<(String, Value)>) -> Seq<(Seq<char>, Val)>
    decreases s,
{
    if s.len() == 0 {
        Seq::empty()
    } else {
        seq![(s[0].0@, s[0].1@)] + view_fields(s.subrange(1, s.len() as int))
    }
}

pub broadcast proof fn view_arr_len(s: Seq<Value>)
    ensures
        #[trigger] view_arr(s).len() == s.len(),
    decreases s,
{
    reveal_with_fuel(view_arr, 2);
    if s.len() > 0 {
        view_arr_len(s.subrange(1, s.len() as int));
    }
}

pub broadcast proof fn view_arr_index(s: Seq<Value>, i: int)
    requires
        0 <= i < s.len(),
    ensures
        #[trigger] view_arr(s)[i] == s[i]@,
    decreases s,
{
    reveal_with_fuel(view_arr, 2);
    view_arr_len(s);
    if i > 0 {
        view_arr_index(s.subrange(1, s.len() as int), i - 1);
    }
}

pub broadcast proof fn view_fields_len(s: Seq<(String, Value)>)
    ensures
        #[trigger] view_fields(s).len() == s.len(),
    decreases s,
{
    reveal_with_fuel(view_fields, 2);
    if s.len() > 0 {
        view_fields_len(s.subrange(1, s.len() as int));
    }
}

pub broadcast proof fn view_fields_index(s: Seq<(String, Value)>, i: int)
    requires
        0 <= i < s.len(),
    ensures
        #[trigger] view_fields(s)[i] == (s[i].0@, s[i].1@),
    decreases s,
{
    reveal_with_fuel(view_fields, 2);
    view_fields_len(s);
    if i > 0 {
        view_fields_index(s.subrange(1, s.len() as int), i - 1);
    }
}

pub broadcast group group_value_views {
    view_arr_len,
    view_arr_index,
    view_fields_len,
    view_fields_index,
}

/// Strict lexicographic order on strings, by code point.
pub open spec fn lex_lt(a: Seq<char>, b: Seq<char>) -> bool
    decreases a.len(),
{
    if b.len() == 0 {
        false
    } else if a.len() == 0 {
        true
    } else if (a[0] as int) < (b[0] as int) {
        true
    } else if a[0] == b[0] {
        lex_lt(a.subrange(1, a.len() as int), b.subrange(1, b.len() as int))
    } else {
        false
    }
}

pub proof fn lex_lt_irrefl(a: Seq<char>)
    ensures
        !lex_lt(a, a),
    decreases a.len(),
{
    if a.len() > 0 {
        lex_lt_irrefl(a.subrange(1, a.len() as int));
    }
}

pub proof fn lex_lt_trans(a: Seq<char>, b: Seq<char>, c: Seq<char>)
    requires
        lex_lt(a, b),
        lex_lt(b, c),
    ensures
        lex_lt(a, c),
    decreases a.len() + b.len() + c.len(),
{
    if b.len() == 0 || c.len() == 0 {
    } else if a.len() == 0 {
    } else {
        if a[0] == b[0] && b[0] == c[0] {
            lex_lt_trans(
                a.subrange(1, a.len() as int),
                b.subrange(1, b.len() as int),
                c.subrange(1, c.len() as int),
            );
        }
    }
}

/// Exactly one of `lex_lt(a, b)`, `a == b`, `lex_lt(b, a)` holds.
pub proof fn lex_lt_connected(a: Seq<char>, b: Seq<char>)
    ensures
        !lex_lt(a, b) && !lex_lt(b, a) ==> a =~= b,
        lex_lt(a, b) ==> !(a =~= b),
    decreases a.len(),
{
    if a.len() > 0 && b.len() > 0 && a[0] == b[0] {
        lex_lt_connected(a.subrange(1, a.len() as int), b.subrange(1, b.len() as int));
        if !lex_lt(a, b) && !lex_lt(b, a) {
            assert(a =~= seq![a[0]] + a.subrange(1, a.len() as int));
            assert(b =~= seq![b[0]] + b.subrange(1, b.len() as int));
        }
        if lex_lt(a, b) && a =~= b {
            lex_lt_irrefl(a);
        }
    } else {
        if lex_lt(a, b) && a =~= b {
            lex_lt_irrefl(a);
        }
    }
}

/// The value under the first occurrence of key `k`, if any.
pub open spec fn obj_get(fs: Seq<(Seq<char>, Val)>, k: Seq<char>) -> Option<Val>
    decreases fs.len(),
{
    if fs.len() == 0 {
        None
    } else if fs[0].0 == k {
        Some(fs[0].1)
    } else {
        obj_get(fs.subrange(1, fs.len() as int), k)
    }
}

pub open spec fn obj_has(fs: Seq<(Seq<char>, Val)>, k: Seq<char>) -> bool {
    obj_get(fs, k) is Some
}

/// Insert or replace the binding of `k`, keeping keys sorted.
pub open spec fn obj_insert(fs: Seq<(Seq<char>, Val)>, k: Seq<char>, v: Val) -> Seq<
    (Seq<char>, Val),
>
    decreases fs.len(),
{
    if fs.len() == 0 {
        seq![(k, v)]
    } else if lex_lt(k, fs[0].0) {
        seq![(k, v)] + fs
    } else if fs[0].0 == k {
        seq![(k, v)] + fs.subrange(1, fs.len() as int)
    } else {
        seq![fs[0]] + obj_insert(fs.subrange(1, fs.len() as int), k, v)
    }
}

/// Remove the binding of `k`, if present.
pub open spec fn obj_remove(fs: Seq<(Seq<char>, Val)>, k: Seq<char>) -> Seq<(Seq<char>, Val)>
    decreases fs.len(),
{
    if fs.len() == 0 {
        fs
    } else if fs[0].0 == k {
        fs.subrange(1, fs.len() as int)
    } else {
        seq![fs[0]] + obj_remove(fs.subrange(1, fs.len() as int), k)
    }
}

/// Field keys are strictly increasing, hence unique.
pub open spec fn fields_sorted(fs: Seq<(Seq<char>, Val)>) -> bool {
    forall|i: int, j: int|
        0 <= i < j < fs.len() ==> lex_lt(#[trigger] fs[i].0, #[trigger] fs[j].0)
}

/// Well-formed values: numbers lie in the engine's 64-bit range, and
/// every object, nested ones included, is sorted.
pub open spec fn wf_val(v: Val) -> bool
    decreases v,
{
    match v {
        Val::Null => true,
        Val::Bool(_) => true,
        Val::Int(i) => i64::MIN <= i <= i64::MAX,
        Val::Str(_) => true,
        Val::Arr(a) => forall|i: int| 0 <= i < a.len() ==> wf_val(#[trigger] a[i]),
        Val::Obj(fs) => fields_sorted(fs) && forall|i: int|
            0 <= i < fs.len() ==> wf_val(#[trigger] fs[i].1),
    }
}

proof fn sorted_drop_first(fs: Seq<(Seq<char>, Val)>)
    requires
        fields_sorted(fs),
        fs.len() > 0,
    ensures
        fields_sorted(fs.subrange(1, fs.len() as int)),
{
    let rest = fs.subrange(1, fs.len() as int);
    assert forall|i: int, j: int| 0 <= i < j < rest.len() implies lex_lt(
        #[trigger] rest[i].0,
        #[trigger] rest[j].0,
    ) by {
        assert(rest[i] == fs[i + 1]);
        assert(rest[j] == fs[j + 1]);
    }
}

/// Looking a key up skips over a prefix that does not hold it.
pub proof fn obj_get_skip(fs: Seq<(Seq<char>, Val)>, k: Seq<char>, i: int)
    requires
        0 <= i <= fs.len(),
        forall|j: int| 0 <= j < i ==> (#[trigger] fs[j].0) != k,
    ensures
        obj_get(fs, k) == obj_get(fs.subrange(i, fs.len() as int), k),
    decreases i,
{
    if i > 0 {
        let rest = fs.subrange(1, fs.len() as int);
        obj_get_skip(rest, k, i - 1);
        assert(rest.subrange(i - 1, rest.len() as int) =~= fs.subrange(i, fs.len() as int));
    } else {
        assert(fs.subrange(0, fs.len() as int) =~= fs);
    }
}

/// What `obj_insert` binds: `k` to `v`, every other key as before.
/// A present binding sits at some index of the field list.
pub proof fn obj_get_some_at(fs: Seq<(Seq<char>, Val)>, k: Seq<char>)
    requires
        obj_get(fs, k) is Some,
    ensures
        exists|i: int|
            0 <= i < fs.len() && (#[trigger] fs[i]).0 == k && fs[i].1 == obj_get(fs, k)->0,
    decreases fs.len(),
{
    if fs[0].0 == k {
        assert(fs[0].0 == k && fs[0].1 == obj_get(fs, k)->0);
    } else {
        let sub = fs.subrange(1, fs.len() as int);
        obj_get_some_at(sub, k);
        let i = choose|i: int|
            0 <= i < sub.len() && (#[trigger] sub[i]).0 == k && sub[i].1 == obj_get(sub, k)->0;
        assert(fs[i + 1].0 == k && fs[i + 1].1 == obj_get(fs, k)->0);
    }
}

pub proof fn obj_insert_get(fs: Seq<(Seq<char>, Val)>, k: Seq<char>, v: Val, k2: Seq<char>)
    ensures
        obj_get(obj_insert(fs, k, v), k2) == if k2 == k {
            Some(v)
        } else {
            obj_get(fs, k2)
        },
    decreases fs.len(),
{
    let res = obj_insert(fs, k, v);
    if fs.len() == 0 {
    } else if lex_lt(k, fs[0].0) {
        assert(res.subrange(1, res.len() as int) =~= fs);
    } else if fs[0].0 == k {
        assert(res.subrange(1, res.len() as int) =~= fs.subrange(1, fs.len() as int));
    } else {
        obj_insert_get(fs.subrange(1, fs.len() as int), k, v, k2);
        assert(res.subrange(1, res.len() as int) =~= obj_insert(
            fs.subrange(1, fs.len() as int),
            k,
            v,
        ));
    }
}

/// Inserting keeps the keys sorted.
pub proof fn obj_insert_sorted(fs: Seq<(Seq<char>, Val)>, k: Seq<char>, v: Val)
    requires
        fields_sorted(fs),
    ensures
        fields_sorted(obj_insert(fs, k, v)),
    decreases fs.len(),
{
    let res = obj_insert(fs, k, v);
    if fs.len() == 0 {
    } else if lex_lt(k, fs[0].0) {
        assert forall|i: int, j: int| 0 <= i < j < res.len() implies lex_lt(
            #[trigger] res[i].0,
            #[trigger] res[j].0,
        ) by {
            if i == 0 {
                if j > 1 {
                    lex_lt_trans(k, fs[0].0, fs[j - 1].0);
                }
            } else {
                assert(res[i] == fs[i - 1]);
                assert(res[j] == fs[j - 1]);
            }
        }
    } else if fs[0].0 == k {
        assert forall|i: int, j: int| 0 <= i < j < res.len() implies lex_lt(
            #[trigger] res[i].0,
            #[trigger] res[j].0,
        ) by {
            assert(res[j] == fs[j]);
            if i > 0 {
                assert(res[i] == fs[i]);
            }
        }
    } else {
        let rest = fs.subrange(1, fs.len() as int);
        sorted_drop_first(fs);
        obj_insert_sorted(rest, k, v);
        let res1 = obj_insert(rest, k, v);
        lex_lt_connected(k, fs[0].0);
        assert forall|i: int, j: int| 0 <= i < j < res.len() implies lex_lt(
            #[trigger] res[i].0,
            #[trigger] res[j].0,
        ) by {
            if i > 0 {
                assert(res[i] == res1[i - 1]);
                assert(res[j] == res1[j - 1]);
            } else {
                assert(res[j] == res1[j - 1]);
                // The head is below every key of the tail, and below `k`.
                if rest.len() == 0 {
                    assert(res1[j - 1] == (k, v));
                } else if lex_lt(k, rest[0].0) {
                    if j - 1 > 0 {
                        assert(res1[j - 1] == rest[j - 2]);
                        assert(lex_lt(fs[0].0, fs[j - 1].0));
                    }
                } else if rest[0].0 == k {
                    if j - 1 == 0 {
                        assert(lex_lt(fs[0].0, fs[1].0));
                    } else {
                        assert(res1[j - 1] == rest[j - 1]);
                        assert(lex_lt(fs[0].0, fs[j].0));
                    }
                } else {
                    obj_insert_head_ge(rest, k, v, j - 1, fs[0].0);
                }
            }
        }
    }
}

/// Every key of `obj_insert(fs, k, v)` already stands in `fs` or is `k`;
/// a lower bound on all of them carries over.
proof fn obj_insert_head_ge(
    fs: Seq<(Seq<char>, Val)>,
    k: Seq<char>,
    v: Val,
    j: int,
    lo: Seq<char>,
)
    requires
        0 <= j < obj_insert(fs, k, v).len(),
        lex_lt(lo, k),
        forall|i: int| 0 <= i < fs.len() ==> lex_lt(lo, #[trigger] fs[i].0),
    ensures
        lex_lt(lo, obj_insert(fs, k, v)[j].0),
    decreases fs.len(),
{
    let res = obj_insert(fs, k, v);
    if fs.len() == 0 {
    } else if lex_lt(k, fs[0].0) {
        if j > 0 {
            assert(res[j] == fs[j - 1]);
        }
    } else if fs[0].0 == k {
        if j > 0 {
            assert(res[j] == fs[j]);
        }
    } else {
        if j > 0 {
            let rest = fs.subrange(1, fs.len() as int);
            obj_insert_head_ge(rest, k, v, j - 1, lo);
            assert(res[j] == obj_insert(rest, k, v)[j - 1]);
        }
    }
}

/// What `obj_remove` leaves: no binding for `k`, every other key as before.
pub proof fn obj_remove_get(fs: Seq<(Seq<char>, Val)>, k: Seq<char>, k2: Seq<char>)
    requires
        fields_sorted(fs),
    ensures
        obj_get(obj_remove(fs, k), k2) == if k2 == k {
            None::<Val>
        } else {
            obj_get(fs, k2)
        },
    decreases fs.len(),
{
    let res = obj_remove(fs, k);
    if fs.len() == 0 {
    } else if fs[0].0 == k {
        if k2 == k {
            // Sorted keys are unique, so the tail has no second binding.
            sorted_drop_first(fs);
            let rest = fs.subrange(1, fs.len() as int);
            obj_get_none_when_below(rest, k);
        }
    } else {
        sorted_drop_first(fs);
        obj_remove_get(fs.subrange(1, fs.len() as int), k, k2);
        assert(res.subrange(1, res.len() as int) =~= obj_remove(
            fs.subrange(1, fs.len() as int),
            k,
        ));
    }
}

/// A key below every key of a sorted object is unbound.
proof fn obj_get_none_when_below(fs: Seq<(Seq<char>, Val)>, k: Seq<char>)
    requires
        forall|i: int| 0 <= i < fs.len() ==> lex_lt(k, #[trigger] fs[i].0),
    ensures
        obj_get(fs, k) is None,
    decreases fs.len(),
{
    if fs.len() > 0 {
        lex_lt_connected(k, fs[0].0);
        let rest = fs.subrange(1, fs.len() as int);
        obj_get_none_when_below(rest, k);
    }
}

/// Removing keeps the keys sorted.
pub proof fn obj_remove_sorted(fs: Seq<(Seq<char>, Val)>, k: Seq<char>)
    requires
        fields_sorted(fs),
    ensures
        fields_sorted(obj_remove(fs, k)),
    decreases fs.len(),
{
    let res = obj_remove(fs, k);
    if fs.len() == 0 {
    } else if fs[0].0 == k {
        sorted_drop_first(fs);
    } else {
        sorted_drop_first(fs);
        let rest = fs.subrange(1, fs.len() as int);
        obj_remove_sorted(rest, k);
        obj_remove_keys_subset(rest, k);
        let res1 = obj_remove(rest, k);
        assert forall|i: int, j: int| 0 <= i < j < res.len() implies lex_lt(
            #[trigger] res[i].0,
            #[trigger] res[j].0,
        ) by {
            if i > 0 {
                assert(res[i] == res1[i - 1]);
                assert(res[j] == res1[j - 1]);
            } else {
                assert(res[j] == res1[j - 1]);
            }
        }
    }
}

/// Every key of `obj_remove(fs, k)` stands in `fs`.
proof fn obj_remove_keys_subset(fs: Seq<(Seq<char>, Val)>, k: Seq<char>)
    ensures
        obj_remove(fs, k).len() <= fs.len(),
        forall|j: int|
            0 <= j < obj_remove(fs, k).len() ==> exists|i: int|
                0 <= i < fs.len() && fs[i] == #[trigger] obj_remove(fs, k)[j],
    decreases fs.len(),
{
    let res = obj_remove(fs, k);
    if fs.len() == 0 {
    } else if fs[0].0 == k {
        assert forall|j: int| 0 <= j < res.len() implies exists|i: int|
            0 <= i < fs.len() && fs[i] == #[trigger] res[j] by {
            assert(fs[j + 1] == res[j]);
        }
    } else {
        let rest = fs.subrange(1, fs.len() as int);
        obj_remove_keys_subset(rest, k);
        let res1 = obj_remove(rest, k);
        assert forall|j: int| 0 <= j < res.len() implies exists|i: int|
            0 <= i < fs.len() && fs[i] == #[trigger] res[j] by {
            if j > 0 {
                assert(res[j] == res1[j - 1]);
                let i0 = choose|i: int| 0 <= i < rest.len() && rest[i] == res1[j - 1];
                assert(fs[i0 + 1] == res[j]);
            } else {
                assert(fs[0] == res[0]);
            }
        }
    }
}

/// Two sorted objects that bind every key alike are the same object.
pub proof fn lemma_sorted_get_ext(a: Seq<(Seq<char>, Val)>, b: Seq<(Seq<char>, Val)>)
    requires
        fields_sorted(a),
        fields_sorted(b),
        forall|k: Seq<char>| #[trigger] obj_get(a, k) == obj_get(b, k),
    ensures
        a =~= b,
    decreases a.len() + b.len(),
{
    if a.len() == 0 {
        if b.len() > 0 {
            assert(obj_get(b, b[0].0) == Some(b[0].1));
            assert(obj_get(a, b[0].0) is None);
        }
        assert(a =~= b);
    } else if b.len() == 0 {
        assert(obj_get(a, a[0].0) == Some(a[0].1));
        assert(obj_get(b, a[0].0) is None);
        assert(a =~= b);
    } else {
        // The head keys agree: a lower head would be unbound on the other side.
        lex_lt_connected(a[0].0, b[0].0);
        if lex_lt(a[0].0, b[0].0) {
            assert forall|i: int| 0 <= i < b.len() implies lex_lt(a[0].0, #[trigger] b[i].0) by {
                if i > 0 {
                    lex_lt_trans(a[0].0, b[0].0, b[i].0);
                }
            }
            obj_get_none_when_below(b, a[0].0);
            assert(obj_get(a, a[0].0) == Some(a[0].1));
        } else if lex_lt(b[0].0, a[0].0) {
            assert forall|i: int| 0 <= i < a.len() implies lex_lt(b[0].0, #[trigger] a[i].0) by {
                if i > 0 {
                    lex_lt_trans(b[0].0, a[0].0, a[i].0);
                }
            }
            obj_get_none_when_below(a, b[0].0);
            assert(obj_get(b, b[0].0) == Some(b[0].1));
        }
        assert(a[0].0 == b[0].0);
        assert(obj_get(a, a[0].0) == Some(a[0].1));
        assert(obj_get(b, a[0].0) == Some(b[0].1));
        assert(a[0] == b[0]);
        let ra = a.subrange(1, a.len() as int);
        let rb = b.subrange(1, b.len() as int);
        sorted_drop_first(a);
        sorted_drop_first(b);
        assert forall|k: Seq<char>| #[trigger] obj_get(ra, k) == obj_get(rb, k) by {
            if k == a[0].0 {
                assert forall|i: int| 0 <= i < ra.len() implies lex_lt(k, #[trigger] ra[i].0) by {
                    assert(ra[i] == a[i + 1]);
                }
                obj_get_none_when_below(ra, k);
                assert forall|i: int| 0 <= i < rb.len() implies lex_lt(k, #[trigger] rb[i].0) by {
                    assert(rb[i] == b[i + 1]);
                }
                obj_get_none_when_below(rb, k);
            } else {
                assert(obj_get(a, k) == obj_get(ra, k));
                assert(obj_get(b, k) == obj_get(rb, k));
            }
        }
        lemma_sorted_get_ext(ra, rb);
        assert(a =~= b) by {
            assert(seq![a[0]] + ra =~= a);
            assert(seq![b[0]] + rb =~= b);
        }
    }
}

/// Appending an element appends its model.
pub proof fn view_arr_push(s: Seq<Value>, x: Value)
    ensures
        view_arr(s.push(x)) =~= view_arr(s).push(x@),
{
    view_arr_len(s);
    view_arr_len(s.push(x));
    assert forall|j: int| 0 <= j < s.len() + 1 implies view_arr(s.push(x))[j] == view_arr(s).push(
        x@,
    )[j] by {
        view_arr_index(s.push(x), j);
        if j < s.len() {
            view_arr_index(s, j);
        }
    }
}

/// The model of a one-field object.
pub proof fn view_fields_single(s: Seq<(String, Value)>)
    requires
        s.len() == 1,
    ensures
        view_fields(s) =~= seq![(s[0].0@, s[0].1@)],
{
    assert(s.subrange(1, 1) =~= Seq::<(String, Value)>::empty());
    assert(view_fields(s) == seq![(s[0].0@, s[0].1@)] + view_fields(
        Seq::<(String, Value)>::empty(),
    ));
    assert(seq![(s[0].0@, s[0].1@)] + Seq::<(Seq<char>, Val)>::empty() =~= seq![
        (s[0].0@, s[0].1@),
    ]);
}

/// The order of two strings is decided past a common prefix.
proof fn lex_lt_skip(a: Seq<char>, b: Seq<char>, i: int)
    requires
        0 <= i <= a.len(),
        i <= b.len(),
        forall|j: int| 0 <= j < i ==> a[j] == b[j],
    ensures
        lex_lt(a, b) == lex_lt(a.subrange(i, a.len() as int), b.subrange(i, b.len() as int)),
    decreases i,
{
    if i == 0 {
        assert(a.subrange(0, a.len() as int) =~= a);
        assert(b.subrange(0, b.len() as int) =~= b);
    } else {
        let a1 = a.subrange(1, a.len() as int);
        let b1 = b.subrange(1, b.len() as int);
        lex_lt_skip(a1, b1, i - 1);
        assert(a1.subrange(i - 1, a1.len() as int) =~= a.subrange(i, a.len() as int));
        assert(b1.subrange(i - 1, b1.len() as int) =~= b.subrange(i, b.len() as int));
    }
}

/// Whether `a` comes strictly before `b` in code-point order.
pub fn str_lt(a: &str, b: &str) -> (r: bool)
    ensures
        r == lex_lt(a@, b@),
{
    let alen = a.unicode_len();
    let blen = b.unicode_len();
    let mut i: usize = 0;
    loop
        invariant
            i <= alen,
            i <= blen,
            alen == a@.len(),
            blen == b@.len(),
            forall|j: int| 0 <= j < i ==> a@[j] == b@[j],
        decreases alen - i,
    {
        proof {
            lex_lt_skip(a@, b@, i as int);
        }
        if i >= blen {
            return false;
        }
        if i >= alen {
            return true;
        }
        let ca = a.get_char(i);
        let cb = b.get_char(i);
        if (ca as u32) < (cb as u32) {
            return true;
        }
        if (ca as u32) > (cb as u32) {
            return false;
        }
        i = i + 1;
    }
}

/// Whether `a` and `b` hold the same characters.
pub fn str_eq(a: &str, b: &str) -> (r: bool)
    ensures
        r == (a@ == b@),
{
    let alen = a.unicode_len();
    let blen = b.unicode_len();
    if alen != blen {
        return false;
    }
    let mut i: usize = 0;
    loop
        invariant
            i <= alen,
            alen == a@.len(),
            blen == b@.len(),
            alen == blen,
            forall|j: int| 0 <= j < i ==> a@[j] == b@[j],
        decreases alen - i,
    {
        if i >= alen {
            proof {
                assert(a@ =~= b@);
            }
            return true;
        }
        let ca = a.get_char(i);
        let cb = b.get_char(i);
        if (ca as u32) != (cb as u32) {
            return false;
        }
        i = i + 1;
    }
}

/// The index of the binding of `key`, if the object holds one.
pub fn obj_find(fs: &Vec<(String, Value)>, key: &str) -> (r: Option<usize>)
    ensures
        match r {
            Some(i) => i < fs@.len() && fs@[i as int].0@ == key@ && obj_get(
                view_fields(fs@),
                key@,
            ) == Some(fs@[i as int].1@) && (forall|j: int| 0 <= j < i ==> fs@[j].0@ != key@),
            None => !obj_has(view_fields(fs@), key@),
        },
{
    let ghost fsv = view_fields(fs@);
    let mut i: usize = 0;
    loop
        invariant
            i <= fs@.len(),
            fsv == view_fields(fs@),
            forall|j: int| 0 <= j < i ==> (#[trigger] fs@[j]).0@ != key@,
        decreases fs@.len() - i,
    {
        proof {
            view_fields_len(fs@);
            assert forall|j: int| 0 <= j < i implies (#[trigger] fsv[j]).0 != key@ by {
                view_fields_index(fs@, j);
            }
            obj_get_skip(fsv, key@, i as int);
        }
        if i >= fs.len() {
            return None;
        }
        let hit = str_eq(fs[i].0.as_str(), key);
        proof {
            view_fields_index(fs@, i as int);
            let tail = fsv.subrange(i as int, fsv.len() as int);
            assert(tail[0] == fsv[i as int]);
        }
        if hit {
            return Some(i);
        }
        i = i + 1;
    }
}

/// A borrow of the value under `key`, if the object holds one.
pub fn obj_get_value<'a>(fs: &'a Vec<(String, Value)>, key: &str) -> (r: Option<&'a Value>)
    ensures
        match r {
            Some(v) => obj_get(view_fields(fs@), key@) == Some(v@),
            None => !obj_has(view_fields(fs@), key@),
        },
{
    match obj_find(fs, key) {
        Some(i) => Some(&fs[i].1),
        None => None,
    }
}

/// Where `obj_insert` lands once the scan stops: append, replace, or shift.
proof fn obj_insert_at(fs: Seq<(Seq<char>, Val)>, k: Seq<char>, v: Val, i: int)
    requires
        0 <= i <= fs.len(),
        forall|j: int| 0 <= j < i ==> lex_lt(#[trigger] fs[j].0, k),
        i < fs.len() ==> !lex_lt(fs[i].0, k),
    ensures
        i == fs.len() ==> obj_insert(fs, k, v) =~= fs.push((k, v)),
        i < fs.len() && fs[i].0 == k ==> obj_insert(fs, k, v) =~= fs.update(i, (k, v)),
        i < fs.len() && fs[i].0 != k ==> obj_insert(fs, k, v) =~= fs.insert(i, (k, v)),
    decreases i,
{
    if fs.len() == 0 {
    } else if i == 0 {
        if lex_lt(k, fs[0].0) {
        } else if fs[0].0 == k {
        } else {
            lex_lt_connected(k, fs[0].0);
        }
    } else {
        let rest = fs.subrange(1, fs.len() as int);
        obj_insert_at(rest, k, v, i - 1);
        lex_lt_irrefl(fs[0].0);
        assert(!lex_lt(k, fs[0].0)) by {
            if lex_lt(k, fs[0].0) {
                lex_lt_trans(fs[0].0, k, fs[0].0);
            }
        }
        assert(fs[0].0 != k);
        if i == fs.len() {
            assert(seq![fs[0]] + rest.push((k, v)) =~= fs.push((k, v)));
        } else if fs[i].0 == k {
            assert(rest[i - 1].0 == k);
            assert(seq![fs[0]] + rest.update(i - 1, (k, v)) =~= fs.update(i, (k, v)));
        } else {
            assert(rest[i - 1].0 != k);
            assert(seq![fs[0]] + rest.insert(i - 1, (k, v)) =~= fs.insert(i, (k, v)));
        }
    }
}

/// Bind `key` to `v`, keeping the fields sorted.
pub fn obj_set_value(fs: &mut Vec<(String, Value)>, key: &str, v: Value)
    ensures
        view_fields(final(fs)@) == obj_insert(view_fields(old(fs)@), key@, v@),
{
    let ghost gfs = view_fields(old(fs)@);
    proof {
        view_fields_len(old(fs)@);
    }
    let mut i: usize = 0;
    loop
        invariant
            fs@ == old(fs)@,
            gfs == view_fields(fs@),
            gfs.len() == fs@.len(),
            i <= fs@.len(),
            forall|j: int| 0 <= j < i ==> lex_lt((#[trigger] gfs[j]).0, key@),
        decreases fs@.len() - i,
    {
        if i >= fs.len() {
            proof {
                obj_insert_at(gfs, key@, v@, i as int);
            }
            let ghost pre = fs@;
            fs.push((key.to_owned(), v));
            proof {
                lemma_view_fields_push(pre, fs@, key@, v@);
            }
            return ;
        }
        proof {
            view_fields_index(fs@, i as int);
        }
        if !str_lt(fs[i].0.as_str(), key) {
            if str_eq(fs[i].0.as_str(), key) {
                proof {
                    obj_insert_at(gfs, key@, v@, i as int);
                }
                let ghost pre = fs@;
                let pair = (key.to_owned(), v);
                fs.set(i, pair);
                proof {
                    lemma_view_fields_update(pre, fs@, i as int, key@, v@);
                }
            } else {
                proof {
                    obj_insert_at(gfs, key@, v@, i as int);
                }
                let ghost pre = fs@;
                fs.insert(i, (key.to_owned(), v));
                proof {
                    lemma_view_fields_insert(pre, fs@, i as int, key@, v@);
                }
            }
            return ;
        }
        i = i + 1;
    }
}

/// Pushing a field appends its model.
pub proof fn lemma_view_fields_push(
    pre: Seq<(String, Value)>,
    post: Seq<(String, Value)>,
    k: Seq<char>,
    v: Val,
)
    requires
        post.len() == pre.len() + 1,
        forall|j: int| 0 <= j < pre.len() ==> post[j] == pre[j],
        post[pre.len() as int].0@ == k,
        post[pre.len() as int].1@ == v,
    ensures
        view_fields(post) =~= view_fields(pre).push((k, v)),
{
    view_fields_len(pre);
    view_fields_len(post);
    assert forall|j: int| 0 <= j < post.len() implies view_fields(post)[j] == view_fields(
        pre,
    ).push((k, v))[j] by {
        view_fields_index(post, j);
        if j < pre.len() {
            view_fields_index(pre, j);
        }
    }
}

/// Replacing a field updates its model.
pub proof fn lemma_view_fields_update(
    pre: Seq<(String, Value)>,
    post: Seq<(String, Value)>,
    i: int,
    k: Seq<char>,
    v: Val,
)
    requires
        0 <= i < pre.len(),
        post.len() == pre.len(),
        forall|j: int| 0 <= j < pre.len() && j != i ==> post[j] == pre[j],
        post[i].0@ == k,
        post[i].1@ == v,
    ensures
        view_fields(post) =~= view_fields(pre).update(i, (k, v)),
{
    view_fields_len(pre);
    view_fields_len(post);
    assert forall|j: int| 0 <= j < post.len() implies view_fields(post)[j] == view_fields(
        pre,
    ).update(i, (k, v))[j] by {
        view_fields_index(post, j);
        if j != i {
            view_fields_index(pre, j);
        }
    }
}

/// Inserting a field inserts its model.
pub proof fn lemma_view_fields_insert(
    pre: Seq<(String, Value)>,
    post: Seq<(String, Value)>,
    i: int,
    k: Seq<char>,
    v: Val,
)
    requires
        0 <= i <= pre.len(),
        post.len() == pre.len() + 1,
        forall|j: int| 0 <= j < i ==> post[j] == pre[j],
        forall|j: int| i < j < post.len() ==> post[j] == pre[j - 1],
        post[i].0@ == k,
        post[i].1@ == v,
    ensures
        view_fields(post) =~= view_fields(pre).insert(i, (k, v)),
{
    view_fields_len(pre);
    view_fields_len(post);
    assert forall|j: int| 0 <= j < post.len() implies view_fields(post)[j] == view_fields(
        pre,
    ).insert(i, (k, v))[j] by {
        view_fields_index(post, j);
        if j < i {
            view_fields_index(pre, j);
        } else if j > i {
            view_fields_index(pre, j - 1);
        }
    }
}

/// Removing a field removes its model.
pub proof fn lemma_view_fields_remove(pre: Seq<(String, Value)>, post: Seq<(String, Value)>, i: int)
    requires
        0 <= i < pre.len(),
        post.len() == pre.len() - 1,
        forall|j: int| 0 <= j < i ==> post[j] == pre[j],
        forall|j: int| i <= j < post.len() ==> post[j] == pre[j + 1],
    ensures
        view_fields(post) =~= view_fields(pre).remove(i),
{
    view_fields_len(pre);
    view_fields_len(post);
    assert forall|j: int| 0 <= j < post.len() implies view_fields(post)[j] == view_fields(
        pre,
    ).remove(i)[j] by {
        view_fields_index(post, j);
        if j < i {
            view_fields_index(pre, j);
        } else {
            view_fields_index(pre, j + 1);
        }
    }
}

/// Where `obj_remove` lands: the first binding of `k` comes out.
proof fn obj_remove_at(fs: Seq<(Seq<char>, Val)>, k: Seq<char>, i: int)
    requires
        0 <= i < fs.len(),
        forall|j: int| 0 <= j < i ==> (#[trigger] fs[j].0) != k,
        fs[i].0 == k,
    ensures
        obj_remove(fs, k) =~= fs.remove(i),
    decreases i,
{
    if i == 0 {
        assert(fs.subrange(1, fs.len() as int) =~= fs.remove(0));
    } else {
        let rest = fs.subrange(1, fs.len() as int);
        obj_remove_at(rest, k, i - 1);
        assert(seq![fs[0]] + rest.remove(i - 1) =~= fs.remove(i));
    }
}

/// Drop the binding of `key`, if the object holds one.
pub fn obj_remove_value(fs: &mut Vec<(String, Value)>, key: &str)
    ensures
        view_fields(final(fs)@) == obj_remove(view_fields(old(fs)@), key@),
{
    let ghost gfs = view_fields(old(fs)@);
    match obj_find(fs, key) {
        Some(i) => {
            proof {
                view_fields_len(fs@);
                assert forall|j: int| 0 <= j < i implies (#[trigger] gfs[j]).0 != key@ by {
                    view_fields_index(fs@, j);
                }
                view_fields_index(fs@, i as int);
                obj_remove_at(gfs, key@, i as int);
            }
            let ghost pre = fs@;
            fs.remove(i);
            proof {
                lemma_view_fields_remove(pre, fs@, i as int);
            }
        },
        None => {
            proof {
                obj_remove_absent(gfs, key@);
            }
        },
    }
}

/// Inserting a fresh binding and removing it again restores the object.
pub proof fn obj_remove_of_insert(fs: Seq<(Seq<char>, Val)>, k: Seq<char>, v: Val)
    requires
        fields_sorted(fs),
        !obj_has(fs, k),
    ensures
        obj_remove(obj_insert(fs, k, v), k) =~= fs,
    decreases fs.len(),
{
    let ins = obj_insert(fs, k, v);
    if fs.len() == 0 {
        assert(ins.subrange(1, ins.len() as int) =~= fs);
    } else if lex_lt(k, fs[0].0) {
        assert(ins[0].0 == k);
        assert(ins.subrange(1, ins.len() as int) =~= fs);
    } else if fs[0].0 == k {
        lex_lt_irrefl(k);
        assert(obj_get(fs, k) == Some(fs[0].1));
    } else {
        sorted_drop_first(fs);
        let rest = fs.subrange(1, fs.len() as int);
        obj_remove_of_insert(rest, k, v);
        assert(ins[0] == fs[0]);
        assert(ins.subrange(1, ins.len() as int) =~= obj_insert(rest, k, v));
        assert(obj_remove(ins, k) =~= seq![fs[0]] + obj_remove(obj_insert(rest, k, v), k));
        assert(seq![fs[0]] + rest =~= fs);
    }
}

/// Removing an unbound key changes nothing.
proof fn obj_remove_absent(fs: Seq<(Seq<char>, Val)>, k: Seq<char>)
    requires
        !obj_has(fs, k),
    ensures
        obj_remove(fs, k) =~= fs,
    decreases fs.len(),
{
    if fs.len() > 0 {
        let rest = fs.subrange(1, fs.len() as int);
        obj_remove_absent(rest, k);
        assert(seq![fs[0]] + rest =~= fs);
    }
}

impl Value {
    /// A structurally equal copy.
    #[verifier::loop_isolation(false)]
    pub fn deep_copy(&self) -> (r: Value)
        ensures
            r@ == self@,
        decreases self,
    {
        match self {
            Value::Null => Value::Null,
            Value::Bool(b) => Value::Bool(*b),
            Value::Int(i) => Value::Int(*i),
            Value::Str(s) => Value::Str(s.clone()),
            Value::Arr(a) => {
                let mut out: Vec<Value> = Vec::new();
                let mut i: usize = 0;
                while i < a.len()
                    invariant
                        i <= a@.len(),
                        out@.len() == i,
                        a@ == self->Arr_0@,
                        forall|j: int| 0 <= j < i ==> (#[trigger] out@[j])@ == a@[j]@,
                    decreases a@.len() - i,
                {
                    proof {
                        assert(decreases_to!(*self => self->Arr_0@[i as int]));
                    }
                    let e = a[i].deep_copy();
                    out.push(e);
                    i = i + 1;
                }
                proof {
                    view_arr_len(out@);
                    view_arr_len(a@);
                    assert forall|j: int| 0 <= j < out@.len() implies view_arr(out@)[j] == view_arr(
                        a@,
                    )[j] by {
                        view_arr_index(out@, j);
                        view_arr_index(a@, j);
                    }
                    assert(view_arr(out@) =~= view_arr(a@));
                }
                Value::Arr(out)
            },
            Value::Obj(o) => {
                let mut out: Vec<(String, Value)> = Vec::new();
                let mut i: usize = 0;
                while i < o.len()
                    invariant
                        i <= o@.len(),
                        out@.len() == i,
                        o@ == self->Obj_0@,
                        forall|j: int|
                            0 <= j < i ==> (#[trigger] out@[j]).0@ == o@[j].0@ && out@[j].1@
                                == o@[j].1@,
                    decreases o@.len() - i,
                {
                    proof {
                        assert(decreases_to!(*self => self->Obj_0@[i as int].1));
                    }
                    let k = o[i].0.clone();
                    let e = o[i].1.deep_copy();
                    out.push((k, e));
                    i = i + 1;
                }
                proof {
                    view_fields_len(out@);
                    view_fields_len(o@);
                    assert forall|j: int| 0 <= j < out@.len() implies view_fields(out@)[j]
                        == view_fields(o@)[j] by {
                        view_fields_index(out@, j);
                        view_fields_index(o@, j);
                    }
                    assert(view_fields(out@) =~= view_fields(o@));
                }
                Value::Obj(out)
            },
        }
    }
}

} // verus!
