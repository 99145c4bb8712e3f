//! The integrity plugin: stamp and verify a canonical digest.
//!
//! The tag is the lowercase hex of the SHA3-512 digest over the canonical
//! JSON text of the document with `__integrity` removed. Stamping computes
//! the tag and stores it under `__integrity`; verification recomputes it
//! and compares, without short-circuiting on the first differing character.

use vstd::prelude::*;
use vstd::string::StrSliceExecFns;

use crate::canon::{hex_of, ser};
use crate::error::{Errors, RIDBError};
use crate::trusted::sha3_512_of;
use crate::value::{obj_get, obj_insert, obj_remove, Val, Value};

verus! {

broadcast use vstd::seq::group_seq_axioms;

/// The document without its integrity tag.
pub open spec fn strip_integrity(d: Val) -> Val {
    if d is Obj {
        Val::Obj(obj_remove(d->Obj_0, "__integrity"@))
    } else {
        d
    }
}

/// The integrity tag of a document: hex of the digest of the canonical
/// text of the document without its old tag.
pub open spec fn integrity_tag(d: Val) -> Seq<char> {
    hex_of(sha3_512_of(vstd::utf8::encode_utf8(ser(strip_integrity(d)))))
}

/// A document stamped with its integrity tag.
pub open spec fn with_integrity(d: Val) -> Val {
    Val::Obj(obj_insert(strip_integrity(d)->Obj_0, "__integrity"@, Val::Str(integrity_tag(d))))
}

/// Computes the canonical text of the document without its tag, as bytes.
fn canonical_bytes(stripped: &Value) -> (r: Vec<u8>)
    ensures
        r@ == vstd::utf8::encode_utf8(ser(stripped@)),
{
    let chars = crate::canon::to_canonical_chars(stripped);
    let text = crate::trusted::chars_to_string(&chars);
    text.as_str().as_bytes_vec()
}

/// Compares two strings character by character without stopping early.
fn fixed_time_eq(a: &str, b: &str) -> (r: bool)
    ensures
        r == (a@ == b@),
{
    let alen = a.unicode_len();
    let blen = b.unicode_len();
    let mut same = alen == blen;
    let shorter = if alen < blen {
        alen
    } else {
        blen
    };
    let mut i: usize = 0;
    while i < shorter
        invariant
            i <= shorter,
            shorter <= alen,
            shorter <= blen,
            alen == a@.len(),
            blen == b@.len(),
            shorter == if alen < blen {
                alen
            } else {
                blen
            },
            same == (alen == blen && forall|j: int| 0 <= j < i ==> a@[j] == b@[j]),
        decreases shorter - i,
    {
        let ca = a.get_char(i);
        let cb = b.get_char(i);
        same = same && (ca as u32) == (cb as u32);
        i = i + 1;
    }
    proof {
        if same {
            assert(a@ =~= b@);
        }
        if a@ == b@ {
            assert(alen == blen);
        }
    }
    same
}

/// The integrity plugin: its create hook stamps the tag, its recover
/// hook verifies it.
#[derive(Debug)]
pub struct IntegrityPlugin {}

impl IntegrityPlugin {
    /// Removes any stale tag, hashes the canonical text, and stamps the tag.
    pub fn add_integrity(&self, document: &Value) -> (r: Result<Value, RIDBError>)
        ensures
            document@ is Obj ==> r is Ok && r->Ok_0@ == with_integrity(document@),
            !(document@ is Obj) ==> r is Err,
    {
        let mut out = document.deep_copy();
        match &mut out {
            Value::Obj(fields) => {
                crate::value::obj_remove_value(fields, "__integrity");
            },
            _ => {
                return Err(RIDBError::error("Document must be an object"));
            },
        }
        let bytes = canonical_bytes(&out);
        let digest = crate::trusted::sha3_512(bytes.as_slice());
        let tag = crate::trusted::chars_to_string(&crate::canon::hex_text(&digest));
        match &mut out {
            Value::Obj(fields) => {
                crate::value::obj_set_value(fields, "__integrity", Value::Str(tag));
            },
            _ => {
                return Err(RIDBError::error("Document must be an object"));
            },
        }
        Ok(out)
    }

    /// Verifies the integrity tag: the stored tag must be a string equal to
    /// the recomputed one; on a mismatch the one error class is `Error` with
    /// the message "Integrity check failed".
    pub fn check_integrity(&self, document: &Value) -> (r: Result<Value, RIDBError>)
        ensures
            ({
                let d = document@;
                &&& (!(d is Obj) || !(obj_get(d->Obj_0, "__integrity"@) matches Some(Val::Str(_))))
                    ==> r is Err
                &&& obj_get_tag(d) matches Some(t) ==> {
                    &&& t == integrity_tag(d) ==> r is Ok && r->Ok_0@ == d
                    &&& t != integrity_tag(d) ==> r is Err && r->Err_0.code == Errors::Error
                        && r->Err_0.message@ == "Integrity check failed"@
                }
            }),
    {
        let fields = match document {
            Value::Obj(fields) => fields,
            _ => {
                return Err(RIDBError::error("Document must be an object"));
            },
        };
        let tag = match crate::value::obj_get_value(fields, "__integrity") {
            Some(Value::Str(t)) => t.clone(),
            _ => {
                return Err(RIDBError::error("Error retrieving integrity value"));
            },
        };
        let mut stripped = document.deep_copy();
        match &mut stripped {
            Value::Obj(sfields) => {
                crate::value::obj_remove_value(sfields, "__integrity");
            },
            _ => {
                return Err(RIDBError::error("Document must be an object"));
            },
        }
        let bytes = canonical_bytes(&stripped);
        let digest = crate::trusted::sha3_512(bytes.as_slice());
        let expected = crate::trusted::chars_to_string(&crate::canon::hex_text(&digest));
        if !fixed_time_eq(expected.as_str(), tag.as_str()) {
            return Err(
                RIDBError {
                    code: Errors::Error,
                    message: String::from_str("Integrity check failed"),
                },
            );
        }
        Ok(document.deep_copy())
    }

}

/// The stored integrity tag, if the document carries a string there.
pub open spec fn obj_get_tag(d: Val) -> Option<Seq<char>> {
    if d is Obj {
        match obj_get(d->Obj_0, "__integrity"@) {
            Some(Val::Str(t)) => Some(t),
            _ => None,
        }
    } else {
        None
    }
}

} // verus!
