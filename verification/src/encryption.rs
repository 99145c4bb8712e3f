//! The encryption plugin: gather the declared fields into one AEAD blob.
//!
//! On write the declared encrypted fields leave the document and travel as
//! `__encrypted`: base64 of `salt[16] || nonce[12] || ciphertext+tag`,
//! sealed with AES-256-GCM under a key PBKDF2-HMAC-SHA3-256 derives from
//! the password and the salt. On read the blob is opened, its canonical
//! JSON is parsed, and the fields merge back into the document.

use vstd::prelude::*;
use vstd::string::StrSliceExecFns;
use vstd::string::StringExecFns;

use crate::canon::ser;
use crate::error::{Errors, RIDBError};
use crate::schema::Schema;
use crate::trusted::{aead_seal_of, b64_of, derived_key_of};
use crate::value::{obj_get, obj_insert, obj_remove, view_fields, wf_val, Val, Value};

verus! {

broadcast use vstd::seq::group_seq_axioms;

/// Splitting a document along the encrypted field names: the fields that
/// leave (gathered into `acc`) and what stays behind.
pub open spec fn split_enc(
    names: Seq<String>,
    fs: Seq<(Seq<char>, Val)>,
    acc: Seq<(Seq<char>, Val)>,
) -> (Seq<(Seq<char>, Val)>, Seq<(Seq<char>, Val)>)
    decreases names.len(),
{
    if names.len() == 0 {
        (acc, fs)
    } else {
        let k = names[0]@;
        let rest = names.subrange(1, names.len() as int);
        match obj_get(fs, k) {
            Some(v) => if v == Val::Null {
                split_enc(rest, fs, acc)
            } else {
                split_enc(rest, obj_remove(fs, k), obj_insert(acc, k, v))
            },
            None => split_enc(rest, fs, acc),
        }
    }
}

/// Merging recovered fields back: each named field found in `m` lands in
/// the document again.
pub open spec fn merge_enc(
    names: Seq<String>,
    m: Seq<(Seq<char>, Val)>,
    fs: Seq<(Seq<char>, Val)>,
) -> Seq<(Seq<char>, Val)>
    decreases names.len(),
{
    if names.len() == 0 {
        fs
    } else {
        let k = names[0]@;
        let rest = names.subrange(1, names.len() as int);
        match obj_get(m, k) {
            Some(v) => merge_enc(rest, m, obj_insert(fs, k, v)),
            None => merge_enc(rest, m, fs),
        }
    }
}

/// The stored form of the gathered fields: base64 of salt, nonce, and the
/// sealed canonical JSON of the payload object.
pub open spec fn sealed_blob(
    password: Seq<char>,
    salt: Seq<u8>,
    nonce: Seq<u8>,
    payload: Seq<(Seq<char>, Val)>,
) -> Val {
    Val::Str(
        b64_of(
            salt + nonce + aead_seal_of(
                derived_key_of(vstd::utf8::encode_utf8(password), salt),
                nonce,
                vstd::utf8::encode_utf8(ser(Val::Obj(payload))),
            ),
        ),
    )
}

/// The declared encrypted field names, empty when none are declared.
pub open spec fn enc_names(s: Schema) -> Seq<String> {
    if s.encrypted is Some {
        s.encrypted->0@
    } else {
        Seq::empty()
    }
}

/// A name in the list is the primary key or is not declared.
pub open spec fn enc_name_invalid(s: Schema, names: Seq<String>) -> bool {
    exists|i: int|
        0 <= i < names.len() && {
            let k = (#[trigger] names[i])@;
            k == s.primary_key@ || crate::query::prop_type_of(s.properties@, k) is None
        }
}

/// Derives the AEAD key from the password and a salt; an empty password is
/// refused.
pub fn derive_key(password: &str, salt: &Vec<u8>) -> (r: Result<Vec<u8>, RIDBError>)
    ensures
        r is Ok <==> password@.len() > 0,
        r is Ok ==> r->Ok_0@ == derived_key_of(
            vstd::utf8::encode_utf8(password@),
            salt@,
        ) && r->Ok_0@.len() == 32,
{
    if password.unicode_len() == 0 {
        return Err(RIDBError { code: Errors::Error, message: String::from_str("Password cannot be empty") });
    }
    let pw = password.as_bytes_vec();
    Ok(crate::trusted::derive_key_bytes(pw.as_slice(), salt.as_slice()))
}

/// The encryption plugin: it holds the password, gathers the declared
/// fields into the blob on write, and opens the blob on read.
#[derive(Debug)]
pub struct EncryptionPlugin {
    pub password: String,
}

impl EncryptionPlugin {
    /// Wraps a password for the hook chain.
    pub fn new(password: String) -> (r: Result<EncryptionPlugin, RIDBError>)
        ensures
            r is Ok,
            r->Ok_0.password == password,
    {
        Ok(EncryptionPlugin { password })
    }
}

/// Encrypts the declared fields of one document into `__encrypted`.
#[verifier::loop_isolation(false)]
#[verifier::rlimit(100)]
#[verifier::spinoff_prover]
pub fn encrypt_single_document(schema: &Schema, password: &str, content: &Value) -> (r: Result<
    Value,
    RIDBError,
>)
    ensures
        !(content@ is Obj) ==> r is Err,
        (content@ is Obj && enc_names(*schema).len() == 0) ==> r is Ok && r->Ok_0@ == content@,
        (content@ is Obj && enc_name_invalid(*schema, enc_names(*schema))) ==> r is Err,
        (content@ is Obj && enc_names(*schema).len() > 0 && !enc_name_invalid(
            *schema,
            enc_names(*schema),
        ) && split_enc(enc_names(*schema), content@->Obj_0, Seq::empty()).0.len() == 0) ==> r
            is Ok && r->Ok_0@ == content@,
        (r is Ok && content@ is Obj && enc_names(*schema).len() > 0 && split_enc(
            enc_names(*schema),
            content@->Obj_0,
            Seq::empty(),
        ).0.len() > 0) ==> exists|salt: Seq<u8>, nonce: Seq<u8>|
            salt.len() == 16 && nonce.len() == 12 && r->Ok_0@ == Val::Obj(
                obj_insert(
                    split_enc(enc_names(*schema), content@->Obj_0, Seq::empty()).1,
                    "__encrypted"@,
                    sealed_blob(
                        password@,
                        salt,
                        nonce,
                        split_enc(enc_names(*schema), content@->Obj_0, Seq::empty()).0,
                    ),
                ),
            ),
{
    let fields = match content {
        Value::Obj(fields) => fields,
        _ => {
            return Err(RIDBError { code: Errors::Error, message: String::from_str("Content must be an object") });
        },
    };
    let names = match &schema.encrypted {
        Some(names) => names,
        None => {
            return Ok(content.deep_copy());
        },
    };
    if names.len() == 0 {
        return Ok(content.deep_copy());
    }
    // Refuse an encrypted primary key or an undeclared encrypted field.
    let mut c: usize = 0;
    while c < names.len()
        invariant
            c <= names@.len(),
            forall|i: int|
                0 <= i < c ==> (#[trigger] names@[i])@ != schema.primary_key@
                    && crate::query::prop_type_of(schema.properties@, names@[i]@) is Some,
        decreases names@.len() - c,
    {
        if crate::value::str_eq(names[c].as_str(), schema.primary_key.as_str()) {
            return Err(RIDBError { code: Errors::Error, message: String::from_str("primary key must not be encrypted") });
        }
        match crate::query::find_prop_type(schema, names[c].as_str()) {
            Some(_) => {},
            None => {
                return Err(RIDBError { code: Errors::Error, message: String::from_str("encrypted field does not exist in the model") });
            },
        }
        c = c + 1;
    }
    proof {
        assert(!enc_name_invalid(*schema, names@));
    }
    // Gather the declared fields out of the document.
    let mut remaining: Vec<(String, Value)> = Vec::new();
    let mut i: usize = 0;
    while i < fields.len()
        invariant
            i <= fields@.len(),
            remaining@.len() == i,
            forall|j: int|
                0 <= j < i ==> (#[trigger] remaining@[j]).0@ == fields@[j].0@ && remaining@[j].1@
                    == fields@[j].1@,
        decreases fields@.len() - i,
    {
        let k = fields[i].0.clone();
        let v = fields[i].1.deep_copy();
        remaining.push((k, v));
        i = i + 1;
    }
    proof {
        crate::value::view_fields_len(remaining@);
        crate::value::view_fields_len(fields@);
        assert forall|j: int| 0 <= j < remaining@.len() implies view_fields(remaining@)[j]
            == view_fields(fields@)[j] by {
            crate::value::view_fields_index(remaining@, j);
            crate::value::view_fields_index(fields@, j);
        }
        assert(view_fields(remaining@) =~= view_fields(fields@));
    }
    let mut gathered: Vec<(String, Value)> = Vec::new();
    let ghost fs0 = view_fields(fields@);
    proof {
        assert(view_fields(gathered@) =~= Seq::<(Seq<char>, Val)>::empty());
        assert(names@.subrange(0, names@.len() as int) =~= names@);
    }
    let mut n: usize = 0;
    while n < names.len()
        invariant
            n <= names@.len(),
            split_enc(names@, fs0, Seq::empty()) == split_enc(
                names@.subrange(n as int, names@.len() as int),
                view_fields(remaining@),
                view_fields(gathered@),
            ),
        decreases names@.len() - n,
    {
        let ghost tail = names@.subrange(n as int, names@.len() as int);
        proof {
            assert(tail[0] == names@[n as int]);
            assert(tail.subrange(1, tail.len() as int) =~= names@.subrange(
                n + 1,
                names@.len() as int,
            ));
        }
        let key = &names[n];
        let found = match crate::value::obj_get_value(&remaining, key.as_str()) {
            Some(Value::Null) => None,
            Some(v) => Some(v.deep_copy()),
            None => None,
        };
        match found {
            Some(v) => {
                crate::value::obj_set_value(&mut gathered, key.as_str(), v);
                crate::value::obj_remove_value(&mut remaining, key.as_str());
            },
            None => {},
        }
        n = n + 1;
    }
    proof {
        assert(names@.subrange(names@.len() as int, names@.len() as int) =~= Seq::<
            String,
        >::empty());
        assert(split_enc(names@, fs0, Seq::empty()).0 == view_fields(gathered@));
        assert(split_enc(names@, fs0, Seq::empty()).1 == view_fields(remaining@));
    }
    if gathered.len() == 0 {
        proof {
            crate::value::view_fields_len(gathered@);
        }
        return Ok(content.deep_copy());
    }
    proof {
        crate::value::view_fields_len(gathered@);
    }
    // Seal the gathered fields.
    let ghost gath_view = view_fields(gathered@);
    let blob_chars = crate::canon::to_canonical_chars(&Value::Obj(gathered));
    let blob_text = crate::trusted::chars_to_string(&blob_chars);
    let blob_bytes = blob_text.as_str().as_bytes_vec();
    let salt = match crate::trusted::random_bytes(16) {
        Some(s) => s,
        None => {
            return Err(RIDBError { code: Errors::Error, message: String::from_str("Random source unavailable") });
        },
    };
    let nonce = match crate::trusted::random_bytes(12) {
        Some(s) => s,
        None => {
            return Err(RIDBError { code: Errors::Error, message: String::from_str("Random source unavailable") });
        },
    };
    let key = match derive_key(password, &salt) {
        Ok(k) => k,
        Err(e) => {
            return Err(e);
        },
    };
    let sealed = match crate::trusted::aes256gcm_seal(&key, &nonce, &blob_bytes) {
        Some(s) => s,
        None => {
            return Err(RIDBError { code: Errors::Error, message: String::from_str("Encryption failed") });
        },
    };
    let mut combined = salt;
    let ghost saltv = combined@;
    let mut nonce_copy = nonce;
    let ghost noncev = nonce_copy@;
    combined.append(&mut nonce_copy);
    let mut sealed_moved = sealed;
    combined.append(&mut sealed_moved);
    let encoded = crate::trusted::base64_encode(&combined);
    crate::value::obj_set_value(&mut remaining, "__encrypted", Value::Str(encoded));
    proof {
        assert(combined@ =~= saltv + noncev + aead_seal_of(
            derived_key_of(vstd::utf8::encode_utf8(password@), saltv),
            noncev,
            vstd::utf8::encode_utf8(blob_text@),
        ));
        assert(gath_view == split_enc(names@, fs0, Seq::empty()).0);
    }
    let result = Value::Obj(remaining);
    proof {
        assert(encoded@ == b64_of(
            saltv + noncev + aead_seal_of(
                derived_key_of(vstd::utf8::encode_utf8(password@), saltv),
                noncev,
                vstd::utf8::encode_utf8(ser(Val::Obj(split_enc(names@, fs0, Seq::empty()).0))),
            ),
        ));
        assert(Val::Str(encoded@) == sealed_blob(
            password@,
            saltv,
            noncev,
            split_enc(names@, fs0, Seq::empty()).0,
        ));
        assert(result@ == Val::Obj(
            obj_insert(
                split_enc(names@, fs0, Seq::empty()).1,
                "__encrypted"@,
                sealed_blob(password@, saltv, noncev, split_enc(names@, fs0, Seq::empty()).0),
            ),
        ));
        assert(exists|salt: Seq<u8>, nonce: Seq<u8>|
            salt.len() == 16 && nonce.len() == 12 && result@ == Val::Obj(
                obj_insert(
                    split_enc(names@, fs0, Seq::empty()).1,
                    "__encrypted"@,
                    sealed_blob(password@, salt, nonce, split_enc(names@, fs0, Seq::empty()).0),
                ),
            ));
    }
    Ok(result)
}

/// The payload some sealed blob text carries under a password.
pub open spec fn blob_carries(
    blob: Seq<char>,
    password: Seq<char>,
    m: Val,
    salt: Seq<u8>,
    nonce: Seq<u8>,
) -> bool {
    &&& m is Obj
    &&& wf_val(m)
    &&& salt.len() == 16
    &&& nonce.len() == 12
    &&& password.len() > 0
    &&& Val::Str(blob) == sealed_blob(password, salt, nonce, m->Obj_0)
}

/// Opens one blob: base64, the salt/nonce/ciphertext split, the derived
/// key, the AEAD, and the canonical JSON of the payload. A success is a
/// well-formed payload object the blob seals; and where the blob does
/// seal a payload under this password, opening it cannot fail and gives
/// back exactly that payload.
#[verifier::loop_isolation(false)]
#[verifier::rlimit(100)]
#[verifier::spinoff_prover]
fn open_blob(password: &str, blob: &str) -> (r: Result<Value, RIDBError>)
    ensures
        r is Ok ==> r->Ok_0@ is Obj && wf_val(r->Ok_0@) && exists|salt: Seq<u8>, nonce: Seq<u8>|
            salt.len() == 16 && nonce.len() == 12 && Val::Str(blob@) == sealed_blob(
                password@,
                salt,
                nonce,
                r->Ok_0@->Obj_0,
            ),
        forall|m: Val, salt: Seq<u8>, nonce: Seq<u8>|
            #[trigger] blob_carries(blob@, password@, m, salt, nonce) ==> r is Ok && r->Ok_0@
                == m,
{
    let decoded = match crate::trusted::base64_decode(blob) {
        Some(d) => d,
        None => {
            proof {
                assert forall|m: Val, salt: Seq<u8>, nonce: Seq<u8>|
                    !blob_carries(blob@, password@, m, salt, nonce) by {
                    if blob_carries(blob@, password@, m, salt, nonce) {
                        let body = salt + nonce + aead_seal_of(
                            derived_key_of(vstd::utf8::encode_utf8(password@), salt),
                            nonce,
                            vstd::utf8::encode_utf8(ser(Val::Obj(m->Obj_0))),
                        );
                        assert(blob@ == b64_of(body));
                    }
                }
            }
            return Err(
                RIDBError {
                    code: Errors::Error,
                    message: String::from_str("Invalid base64 data"),
                },
            );
        },
    };
    if decoded.len() == 0 {
        proof {
            assert forall|m: Val, salt: Seq<u8>, nonce: Seq<u8>|
                !blob_carries(blob@, password@, m, salt, nonce) by {
                if blob_carries(blob@, password@, m, salt, nonce) {
                    let body = salt + nonce + aead_seal_of(
                        derived_key_of(vstd::utf8::encode_utf8(password@), salt),
                        nonce,
                        vstd::utf8::encode_utf8(ser(Val::Obj(m->Obj_0))),
                    );
                    assert(blob@ == b64_of(body));
                    assert(decoded@ == body);
                }
            }
        }
        return Err(
            RIDBError {
                code: Errors::Error,
                message: String::from_str("Encrypted data is empty"),
            },
        );
    }
    if decoded.len() < 28 {
        proof {
            assert forall|m: Val, salt: Seq<u8>, nonce: Seq<u8>|
                !blob_carries(blob@, password@, m, salt, nonce) by {
                if blob_carries(blob@, password@, m, salt, nonce) {
                    let body = salt + nonce + aead_seal_of(
                        derived_key_of(vstd::utf8::encode_utf8(password@), salt),
                        nonce,
                        vstd::utf8::encode_utf8(ser(Val::Obj(m->Obj_0))),
                    );
                    assert(blob@ == b64_of(body));
                    assert(decoded@ == body);
                }
            }
        }
        return Err(
            RIDBError {
                code: Errors::Error,
                message: String::from_str("Invalid encrypted data length"),
            },
        );
    }
    // Split salt, nonce and ciphertext.
    let mut salt: Vec<u8> = Vec::new();
    let mut nonce: Vec<u8> = Vec::new();
    let mut ct: Vec<u8> = Vec::new();
    let mut i: usize = 0;
    while i < decoded.len()
        invariant
            i <= decoded@.len(),
            decoded@.len() >= 28,
            salt@ == decoded@.subrange(0, if i < 16 {
                i as int
            } else {
                16
            }),
            nonce@ == if i <= 16 {
                Seq::<u8>::empty()
            } else {
                decoded@.subrange(16, if i < 28 {
                    i as int
                } else {
                    28
                })
            },
            ct@ == if i <= 28 {
                Seq::<u8>::empty()
            } else {
                decoded@.subrange(28, i as int)
            },
        decreases decoded@.len() - i,
    {
        let b = decoded[i];
        if i < 16 {
            salt.push(b);
        } else if i < 28 {
            nonce.push(b);
        } else {
            ct.push(b);
        }
        proof {
            if i + 1 <= 16 {
                assert(salt@ =~= decoded@.subrange(0, i + 1));
            } else if i + 1 <= 28 {
                assert(nonce@ =~= decoded@.subrange(16, i + 1));
            } else {
                assert(ct@ =~= decoded@.subrange(28, i + 1));
            }
        }
        i = i + 1;
    }
    proof {
        assert(decoded@ =~= salt@ + nonce@ + ct@);
        assert forall|m: Val, salt0: Seq<u8>, nonce0: Seq<u8>|
            blob_carries(blob@, password@, m, salt0, nonce0) implies salt@ == salt0 && nonce@
            == nonce0 && ct@ == aead_seal_of(
            derived_key_of(vstd::utf8::encode_utf8(password@), salt0),
            nonce0,
            vstd::utf8::encode_utf8(ser(Val::Obj(m->Obj_0))),
        ) by {
            let sealed = aead_seal_of(
                derived_key_of(vstd::utf8::encode_utf8(password@), salt0),
                nonce0,
                vstd::utf8::encode_utf8(ser(Val::Obj(m->Obj_0))),
            );
            let body = salt0 + nonce0 + sealed;
            assert(blob@ == b64_of(body));
            assert(decoded@ == body);
            assert(salt@ =~= body.subrange(0, 16));
            assert(body.subrange(0, 16) =~= salt0);
            assert(nonce@ =~= body.subrange(16, 28));
            assert(body.subrange(16, 28) =~= nonce0);
            assert(ct@ =~= body.subrange(28, body.len() as int));
            assert(body.subrange(28, body.len() as int) =~= sealed);
        }
    }
    let key = match derive_key(password, &salt) {
        Ok(k) => k,
        Err(e) => {
            proof {
                assert forall|m: Val, salt0: Seq<u8>, nonce0: Seq<u8>|
                    !blob_carries(blob@, password@, m, salt0, nonce0) by {
                }
            }
            return Err(e);
        },
    };
    let pt = match crate::trusted::aes256gcm_open(&key, &nonce, &ct) {
        Some(p) => p,
        None => {
            proof {
                assert forall|m: Val, salt0: Seq<u8>, nonce0: Seq<u8>|
                    !blob_carries(blob@, password@, m, salt0, nonce0) by {
                    if blob_carries(blob@, password@, m, salt0, nonce0) {
                        assert(ct@ == aead_seal_of(
                            key@,
                            nonce@,
                            vstd::utf8::encode_utf8(ser(Val::Obj(m->Obj_0))),
                        ));
                    }
                }
            }
            return Err(
                RIDBError {
                    code: Errors::Error,
                    message: String::from_str("Decryption failed"),
                },
            );
        },
    };
    proof {
        assert forall|m: Val, salt0: Seq<u8>, nonce0: Seq<u8>|
            blob_carries(blob@, password@, m, salt0, nonce0) implies pt@
            == vstd::utf8::encode_utf8(ser(Val::Obj(m->Obj_0))) && pt@
            == vstd::utf8::encode_utf8(ser(m)) by {
            assert(ct@ == aead_seal_of(
                key@,
                nonce@,
                vstd::utf8::encode_utf8(ser(Val::Obj(m->Obj_0))),
            ));
            assert(Val::Obj(m->Obj_0) == m);
        }
    }
    let ghost ptv = pt@;
    let text = match crate::trusted::string_from_utf8(pt) {
        Some(t) => t,
        None => {
            proof {
                broadcast use vstd::utf8::encode_utf8_valid_utf8;

                assert forall|m: Val, salt0: Seq<u8>, nonce0: Seq<u8>|
                    !blob_carries(blob@, password@, m, salt0, nonce0) by {
                    if blob_carries(blob@, password@, m, salt0, nonce0) {
                        assert(vstd::utf8::valid_utf8(vstd::utf8::encode_utf8(ser(m))));
                    }
                }
            }
            return Err(
                RIDBError {
                    code: Errors::Error,
                    message: String::from_str("Invalid UTF-8 data"),
                },
            );
        },
    };
    proof {
        broadcast use vstd::utf8::encode_utf8_decode_utf8;

        assert forall|m: Val, salt0: Seq<u8>, nonce0: Seq<u8>|
            blob_carries(blob@, password@, m, salt0, nonce0) implies text@ == ser(m) by {
            assert(pt@ == vstd::utf8::encode_utf8(ser(m)));
            assert(vstd::utf8::decode_utf8(vstd::utf8::encode_utf8(ser(m))) == ser(m));
        }
    }
    let parsed = match crate::parse::parse_canonical(text.as_str()) {
        Some(p) => p,
        None => {
            proof {
                assert forall|m: Val, salt0: Seq<u8>, nonce0: Seq<u8>|
                    !blob_carries(blob@, password@, m, salt0, nonce0) by {
                    if blob_carries(blob@, password@, m, salt0, nonce0) {
                        assert(text@ == ser(m) && wf_val(m));
                    }
                }
            }
            return Err(
                RIDBError {
                    code: Errors::Error,
                    message: String::from_str("Failed to parse decrypted data"),
                },
            );
        },
    };
    proof {
        assert forall|m: Val, salt0: Seq<u8>, nonce0: Seq<u8>|
            blob_carries(blob@, password@, m, salt0, nonce0) implies parsed@ == m by {
            assert(text@ == ser(m) && wf_val(m));
        }
    }
    match &parsed {
        Value::Obj(_) => {},
        _ => {
            proof {
                assert forall|m: Val, salt0: Seq<u8>, nonce0: Seq<u8>|
                    !blob_carries(blob@, password@, m, salt0, nonce0) by {
                    if blob_carries(blob@, password@, m, salt0, nonce0) {
                        assert(parsed@ == m);
                    }
                }
            }
            return Err(
                RIDBError {
                    code: Errors::Error,
                    message: String::from_str("Failed to parse decrypted data"),
                },
            );
        },
    }
    proof {
        broadcast use vstd::utf8::decode_utf8_encode_utf8;

        assert(vstd::utf8::encode_utf8(ser(parsed@)) == ptv);
        assert(ct@ == aead_seal_of(key@, nonce@, ptv));
        assert(blob@ == b64_of(decoded@));
        assert(decoded@ == salt@ + nonce@ + ct@);
        assert(ser(Val::Obj(parsed@->Obj_0)) == ser(parsed@)) by {
            assert(Val::Obj(parsed@->Obj_0) == parsed@);
        }
        assert(Val::Str(blob@) == sealed_blob(password@, salt@, nonce@, parsed@->Obj_0));
    }
    Ok(parsed)
}

/// Decrypts `__encrypted` of one document and merges the fields back.
///
/// On success the merged fields come from a payload object whose sealed
/// form is the stored blob. And the round trip is owed: where the blob is
/// the sealed form of a payload under this password, decryption cannot
/// fail and merges back exactly that payload's fields.
#[verifier::loop_isolation(false)]
#[verifier::rlimit(100)]
#[verifier::spinoff_prover]
pub fn decrypt_single_document(schema: &Schema, password: &str, content: &Value) -> (r: Result<
    Value,
    RIDBError,
>)
    ensures
        !(content@ is Obj) ==> r is Err,
        (content@ is Obj && obj_get(content@->Obj_0, "__encrypted"@) is None) ==> r is Ok
            && r->Ok_0@ == content@,
        (content@ is Obj && obj_get(content@->Obj_0, "__encrypted"@) is Some && enc_names(
            *schema,
        ).len() == 0) ==> r is Ok && r->Ok_0@ == content@,
        (r is Ok && content@ is Obj && obj_get(content@->Obj_0, "__encrypted"@) is Some
            && enc_names(*schema).len() > 0) ==> exists|m: Val, salt: Seq<u8>, nonce: Seq<u8>|
            {
                &&& m is Obj
                &&& wf_val(m)
                &&& salt.len() == 16
                &&& nonce.len() == 12
                &&& obj_get(content@->Obj_0, "__encrypted"@) == Some(
                    sealed_blob(password@, salt, nonce, m->Obj_0),
                )
                &&& r->Ok_0@ == Val::Obj(
                    merge_enc(
                        enc_names(*schema),
                        m->Obj_0,
                        obj_remove(content@->Obj_0, "__encrypted"@),
                    ),
                )
            },
        forall|m: Val, salt: Seq<u8>, nonce: Seq<u8>|
            (content@ is Obj && enc_names(*schema).len() > 0 && m is Obj && wf_val(m)
                && salt.len() == 16 && nonce.len() == 12 && password@.len() > 0 && obj_get(
                content@->Obj_0,
                "__encrypted"@,
            ) == Some(#[trigger] sealed_blob(password@, salt, nonce, m->Obj_0))) ==> r is Ok
                && r->Ok_0@ == Val::Obj(
                merge_enc(
                    enc_names(*schema),
                    m->Obj_0,
                    obj_remove(content@->Obj_0, "__encrypted"@),
                ),
            ),
{
    let fields = match content {
        Value::Obj(fields) => fields,
        _ => {
            return Err(
                RIDBError {
                    code: Errors::Error,
                    message: String::from_str("Content must be an object"),
                },
            );
        },
    };
    let blob_value = match crate::value::obj_get_value(fields, "__encrypted") {
        None => {
            return Ok(content.deep_copy());
        },
        Some(b) => b,
    };
    let names = match &schema.encrypted {
        Some(names) => {
            if names.len() == 0 {
                return Ok(content.deep_copy());
            }
            names
        },
        None => {
            return Ok(content.deep_copy());
        },
    };
    let blob = match blob_value {
        Value::Str(s) => s.clone(),
        _ => {
            return Err(
                RIDBError {
                    code: Errors::Error,
                    message: String::from_str("Invalid encrypted data: expected string"),
                },
            );
        },
    };
    let payload = match open_blob(password, blob.as_str()) {
        Ok(p) => p,
        Err(e) => {
            proof {
                assert forall|m: Val, salt: Seq<u8>, nonce: Seq<u8>|
                    !(m is Obj && wf_val(m) && salt.len() == 16 && nonce.len() == 12
                        && password@.len() > 0 && obj_get(content@->Obj_0, "__encrypted"@)
                        == Some(#[trigger] sealed_blob(password@, salt, nonce, m->Obj_0))) by {
                    if m is Obj && wf_val(m) && salt.len() == 16 && nonce.len() == 12
                        && password@.len() > 0 && obj_get(content@->Obj_0, "__encrypted"@)
                        == Some(sealed_blob(password@, salt, nonce, m->Obj_0)) {
                        assert(blob_carries(blob@, password@, m, salt, nonce));
                    }
                }
            }
            return Err(e);
        },
    };
    let payload_fields = match &payload {
        Value::Obj(pf) => pf,
        _ => {
            return Err(
                RIDBError {
                    code: Errors::Error,
                    message: String::from_str("Failed to parse decrypted data"),
                },
            );
        },
    };
    // Rebuild the document: drop the blob, merge the recovered fields.
    let mut out: Vec<(String, Value)> = Vec::new();
    let mut i2: usize = 0;
    while i2 < fields.len()
        invariant
            i2 <= fields@.len(),
            out@.len() == i2,
            forall|j: int|
                0 <= j < i2 ==> (#[trigger] out@[j]).0@ == fields@[j].0@ && out@[j].1@
                    == fields@[j].1@,
        decreases fields@.len() - i2,
    {
        let k = fields[i2].0.clone();
        let v = fields[i2].1.deep_copy();
        out.push((k, v));
        i2 = i2 + 1;
    }
    proof {
        crate::value::view_fields_len(out@);
        crate::value::view_fields_len(fields@);
        assert forall|j: int| 0 <= j < out@.len() implies view_fields(out@)[j] == view_fields(
            fields@,
        )[j] by {
            crate::value::view_fields_index(out@, j);
            crate::value::view_fields_index(fields@, j);
        }
        assert(view_fields(out@) =~= view_fields(fields@));
    }
    crate::value::obj_remove_value(&mut out, "__encrypted");
    let ghost base = view_fields(out@);
    let ghost mfs = payload@->Obj_0;
    proof {
        assert(names@.subrange(0, names@.len() as int) =~= names@);
    }
    let mut n: usize = 0;
    while n < names.len()
        invariant
            n <= names@.len(),
            merge_enc(names@, mfs, base) == merge_enc(
                names@.subrange(n as int, names@.len() as int),
                mfs,
                view_fields(out@),
            ),
        decreases names@.len() - n,
    {
        let ghost tail = names@.subrange(n as int, names@.len() as int);
        proof {
            assert(tail[0] == names@[n as int]);
            assert(tail.subrange(1, tail.len() as int) =~= names@.subrange(
                n + 1,
                names@.len() as int,
            ));
        }
        let key = &names[n];
        match crate::value::obj_get_value(payload_fields, key.as_str()) {
            Some(v) => {
                let vc = v.deep_copy();
                crate::value::obj_set_value(&mut out, key.as_str(), vc);
            },
            None => {},
        }
        n = n + 1;
    }
    proof {
        assert(names@.subrange(names@.len() as int, names@.len() as int) =~= Seq::<
            String,
        >::empty());
        let fsg = content@->Obj_0;
        assert(Value::Obj(out)@ == Val::Obj(
            merge_enc(enc_names(*schema), payload@->Obj_0, obj_remove(fsg, "__encrypted"@)),
        ));
        // The success shape: the blob seals the payload that was merged.
        let (s0, n0) = choose|s0: Seq<u8>, n0: Seq<u8>|
            s0.len() == 16 && n0.len() == 12 && Val::Str(blob@) == sealed_blob(
                password@,
                s0,
                n0,
                payload@->Obj_0,
            );
        assert(obj_get(fsg, "__encrypted"@) == Some(
            sealed_blob(password@, s0, n0, payload@->Obj_0),
        ));
        // The owed round trip: a sealed payload comes back as itself.
        assert forall|m: Val, salt: Seq<u8>, nonce: Seq<u8>|
            (m is Obj && wf_val(m) && salt.len() == 16 && nonce.len() == 12 && password@.len()
                > 0 && obj_get(fsg, "__encrypted"@) == Some(
                #[trigger] sealed_blob(password@, salt, nonce, m->Obj_0),
            )) implies payload@ == m by {
            assert(blob_carries(blob@, password@, m, salt, nonce));
        }
    }
    Ok(Value::Obj(out))
}

/// A field the gathering pass left behind is unbound or null: removals
/// only ever shrink what stays.
proof fn lemma_split_residual_get(
    names: Seq<String>,
    fs: Seq<(Seq<char>, Val)>,
    acc: Seq<(Seq<char>, Val)>,
    x: Seq<char>,
)
    requires
        crate::value::fields_sorted(fs),
    ensures
        obj_get(split_enc(names, fs, acc).1, x) is None || obj_get(split_enc(names, fs, acc).1, x)
            == obj_get(fs, x),
    decreases names.len(),
{
    if names.len() > 0 {
        let k = names[0]@;
        let rest = names.subrange(1, names.len() as int);
        match obj_get(fs, k) {
            Some(v) => {
                if v == Val::Null {
                    lemma_split_residual_get(rest, fs, acc, x);
                } else {
                    crate::value::obj_remove_sorted(fs, k);
                    crate::value::obj_remove_get(fs, k, x);
                    lemma_split_residual_get(rest, obj_remove(fs, k), obj_insert(acc, k, v), x);
                }
            },
            None => {
                lemma_split_residual_get(rest, fs, acc, x);
            },
        }
    }
}

/// Law: the stored form of an encrypted document holds no plaintext of a
/// declared encrypted field.
///
/// After gathering, the remaining fields plus the `__encrypted` blob bind
/// each declared name either not at all or to null, whatever value the
/// blob holds: every present non-null encrypted field left the document.
pub proof fn lemma_encrypted_fields_hidden(
    names: Seq<String>,
    fs: Seq<(Seq<char>, Val)>,
    blob: Val,
    i: int,
)
    requires
        crate::value::fields_sorted(fs),
        0 <= i < names.len(),
        names[i]@ != "__encrypted"@,
    ensures
        ({
            let stored = obj_insert(split_enc(names, fs, Seq::empty()).1, "__encrypted"@, blob);
            obj_get(stored, names[i]@) is None || obj_get(stored, names[i]@) == Some(Val::Null)
        }),
    decreases i,
{
    let k = names[0]@;
    let rest = names.subrange(1, names.len() as int);
    crate::value::obj_insert_get(
        split_enc(names, fs, Seq::empty()).1,
        "__encrypted"@,
        blob,
        names[i]@,
    );
    if i == 0 {
        lemma_split_after_head(names, fs, Seq::empty());
    } else {
        lemma_hidden_generalized(names, fs, Seq::empty(), i);
    }
}

/// The generalized hiding argument over any accumulator.
proof fn lemma_hidden_generalized(
    names: Seq<String>,
    fs: Seq<(Seq<char>, Val)>,
    acc: Seq<(Seq<char>, Val)>,
    i: int,
)
    requires
        crate::value::fields_sorted(fs),
        0 <= i < names.len(),
    ensures
        obj_get(split_enc(names, fs, acc).1, names[i]@) is None || obj_get(
            split_enc(names, fs, acc).1,
            names[i]@,
        ) == Some(Val::Null),
    decreases i,
{
    if i == 0 {
        lemma_split_after_head(names, fs, acc);
    } else {
        let k = names[0]@;
        let rest = names.subrange(1, names.len() as int);
        assert(rest[i - 1] == names[i]);
        match obj_get(fs, k) {
            Some(v) => {
                if v == Val::Null {
                    lemma_hidden_generalized(rest, fs, acc, i - 1);
                } else {
                    crate::value::obj_remove_sorted(fs, k);
                    lemma_hidden_generalized(rest, obj_remove(fs, k), obj_insert(acc, k, v), i - 1);
                }
            },
            None => {
                lemma_hidden_generalized(rest, fs, acc, i - 1);
            },
        }
    }
}

/// The head name itself ends up unbound or null.
proof fn lemma_split_after_head(
    names: Seq<String>,
    fs: Seq<(Seq<char>, Val)>,
    acc: Seq<(Seq<char>, Val)>,
)
    requires
        crate::value::fields_sorted(fs),
        names.len() > 0,
    ensures
        obj_get(split_enc(names, fs, acc).1, names[0]@) is None || obj_get(
            split_enc(names, fs, acc).1,
            names[0]@,
        ) == Some(Val::Null),
{
    let k = names[0]@;
    let rest = names.subrange(1, names.len() as int);
    match obj_get(fs, k) {
        Some(v) => {
            if v == Val::Null {
                lemma_split_residual_get(rest, fs, acc, k);
            } else {
                crate::value::obj_remove_sorted(fs, k);
                crate::value::obj_remove_get(fs, k, k);
                lemma_split_residual_get(rest, obj_remove(fs, k), obj_insert(acc, k, v), k);
            }
        },
        None => {
            lemma_split_residual_get(rest, fs, acc, k);
        },
    }
}

/// The gathering pass keeps a present non-null field in its payload.
proof fn lemma_split_gathers(
    names: Seq<String>,
    fs: Seq<(Seq<char>, Val)>,
    acc: Seq<(Seq<char>, Val)>,
    i: int,
)
    requires
        crate::value::fields_sorted(fs),
        0 <= i < names.len(),
        obj_get(fs, names[i]@) is Some,
        obj_get(fs, names[i]@) != Some(Val::Null),
        obj_get(acc, names[i]@) is None,
    ensures
        obj_get(split_enc(names, fs, acc).0, names[i]@) == obj_get(fs, names[i]@),
    decreases names.len(),
{
    let k = names[0]@;
    let rest = names.subrange(1, names.len() as int);
    match obj_get(fs, k) {
        Some(v) => {
            if v == Val::Null {
                if i == 0 {
                } else {
                    lemma_split_gathers(rest, fs, acc, i - 1);
                }
            } else {
                let fs1 = obj_remove(fs, k);
                let acc1 = obj_insert(acc, k, v);
                crate::value::obj_remove_sorted(fs, k);
                crate::value::obj_insert_get(acc, k, v, names[i]@);
                if i == 0 {
                    crate::value::obj_remove_get(fs, k, k);
                    lemma_acc_binding_kept(rest, fs1, acc1, k);
                } else {
                    crate::value::obj_remove_get(fs, k, names[i]@);
                    if names[i]@ == k {
                        lemma_acc_binding_kept(rest, fs1, acc1, k);
                    } else {
                        lemma_split_gathers(rest, fs1, acc1, i - 1);
                    }
                }
            }
        },
        None => {
            if i == 0 {
            } else {
                lemma_split_gathers(rest, fs, acc, i - 1);
            }
        },
    }
}

/// A binding the accumulator holds for a key the remaining document lacks
/// stays as it is.
proof fn lemma_acc_binding_kept(
    names: Seq<String>,
    fs: Seq<(Seq<char>, Val)>,
    acc: Seq<(Seq<char>, Val)>,
    k: Seq<char>,
)
    requires
        crate::value::fields_sorted(fs),
        obj_get(fs, k) is None,
    ensures
        obj_get(split_enc(names, fs, acc).0, k) == obj_get(acc, k),
    decreases names.len(),
{
    if names.len() > 0 {
        let k0 = names[0]@;
        let rest = names.subrange(1, names.len() as int);
        match obj_get(fs, k0) {
            Some(v) => {
                if v == Val::Null {
                    lemma_acc_binding_kept(rest, fs, acc, k);
                } else {
                    crate::value::obj_remove_sorted(fs, k0);
                    crate::value::obj_remove_get(fs, k0, k);
                    crate::value::obj_insert_get(acc, k0, v, k);
                    lemma_acc_binding_kept(rest, obj_remove(fs, k0), obj_insert(acc, k0, v), k);
                }
            },
            None => {
                lemma_acc_binding_kept(rest, fs, acc, k);
            },
        }
    }
}

/// Merging binds a named payload field in the result.
proof fn lemma_merge_binds(
    names: Seq<String>,
    m: Seq<(Seq<char>, Val)>,
    base: Seq<(Seq<char>, Val)>,
    i: int,
)
    requires
        0 <= i < names.len(),
        obj_get(m, names[i]@) is Some,
    ensures
        obj_get(merge_enc(names, m, base), names[i]@) == obj_get(m, names[i]@),
    decreases names.len(),
{
    let k = names[0]@;
    let rest = names.subrange(1, names.len() as int);
    if i == 0 {
        match obj_get(m, k) {
            Some(v) => {
                crate::value::obj_insert_get(base, k, v, k);
                lemma_merge_keeps_binding(rest, m, obj_insert(base, k, v), k);
            },
            None => {},
        }
    } else {
        match obj_get(m, k) {
            Some(v) => {
                lemma_merge_binds(rest, m, obj_insert(base, k, v), i - 1);
            },
            None => {
                lemma_merge_binds(rest, m, base, i - 1);
            },
        }
    }
}

/// A binding that agrees with the payload survives the rest of the merge.
proof fn lemma_merge_keeps_binding(
    names: Seq<String>,
    m: Seq<(Seq<char>, Val)>,
    base: Seq<(Seq<char>, Val)>,
    k: Seq<char>,
)
    requires
        obj_get(base, k) == obj_get(m, k),
    ensures
        obj_get(merge_enc(names, m, base), k) == obj_get(m, k),
    decreases names.len(),
{
    if names.len() > 0 {
        let k0 = names[0]@;
        let rest = names.subrange(1, names.len() as int);
        match obj_get(m, k0) {
            Some(v) => {
                crate::value::obj_insert_get(base, k0, v, k);
                lemma_merge_keeps_binding(rest, m, obj_insert(base, k0, v), k);
            },
            None => {
                lemma_merge_keeps_binding(rest, m, base, k);
            },
        }
    }
}

/// A bound value is one of the object's field values.
pub proof fn lemma_obj_get_is_field(fs: Seq<(Seq<char>, Val)>, k: Seq<char>)
    requires
        obj_get(fs, k) is Some,
    ensures
        exists|i: int| 0 <= i < fs.len() && (#[trigger] fs[i]).1 == obj_get(fs, k)->0,
    decreases fs.len(),
{
    if fs.len() > 0 {
        if fs[0].0 == k {
            assert(fs[0].1 == obj_get(fs, k)->0);
        } else {
            let rest = fs.subrange(1, fs.len() as int);
            lemma_obj_get_is_field(rest, k);
            let i0 = choose|i: int| 0 <= i < rest.len() && (#[trigger] rest[i]).1 == obj_get(
                rest,
                k,
            )->0;
            assert(fs[i0 + 1].1 == obj_get(fs, k)->0);
        }
    }
}

/// Every value of an insertion is the inserted one or an old one.
pub proof fn lemma_obj_insert_vals(fs: Seq<(Seq<char>, Val)>, k: Seq<char>, v: Val)
    ensures
        forall|j: int|
            0 <= j < obj_insert(fs, k, v).len() ==> (#[trigger] obj_insert(fs, k, v)[j]).1 == v
                || exists|i: int| 0 <= i < fs.len() && (#[trigger] fs[i]).1 == obj_insert(
                fs,
                k,
                v,
            )[j].1,
    decreases fs.len(),
{
    let res = obj_insert(fs, k, v);
    if fs.len() == 0 {
    } else if crate::value::lex_lt(k, fs[0].0) {
        assert forall|j: int|
            0 <= j < res.len() implies (#[trigger] res[j]).1 == v || exists|i: int|
            0 <= i < fs.len() && (#[trigger] fs[i]).1 == res[j].1 by {
            if j > 0 {
                assert(fs[j - 1].1 == res[j].1);
            }
        }
    } else if fs[0].0 == k {
        assert forall|j: int|
            0 <= j < res.len() implies (#[trigger] res[j]).1 == v || exists|i: int|
            0 <= i < fs.len() && (#[trigger] fs[i]).1 == res[j].1 by {
            if j > 0 {
                assert(fs[j].1 == res[j].1);
            }
        }
    } else {
        let rest = fs.subrange(1, fs.len() as int);
        lemma_obj_insert_vals(rest, k, v);
        let res1 = obj_insert(rest, k, v);
        assert forall|j: int|
            0 <= j < res.len() implies (#[trigger] res[j]).1 == v || exists|i: int|
            0 <= i < fs.len() && (#[trigger] fs[i]).1 == res[j].1 by {
            if j == 0 {
                assert(fs[0].1 == res[0].1);
            } else {
                assert(res[j] == res1[j - 1]);
                if res1[j - 1].1 != v {
                    let i0 = choose|i: int|
                        0 <= i < rest.len() && (#[trigger] rest[i]).1 == res1[j - 1].1;
                    assert(fs[i0 + 1].1 == res[j].1);
                }
            }
        }
    }
}

/// Law: the gathered payload is itself a well-formed object, so the read
/// chain's owed round trip applies to what the write chain sealed.
pub proof fn lemma_split_gathered_wf(names: Seq<String>, fs: Seq<(Seq<char>, Val)>)
    requires
        crate::value::fields_sorted(fs),
        forall|i: int| 0 <= i < fs.len() ==> wf_val((#[trigger] fs[i]).1),
    ensures
        wf_val(Val::Obj(split_enc(names, fs, Seq::empty()).0)),
{
    lemma_split_wf_general(names, fs, Seq::empty());
}

/// The generalized induction behind `lemma_split_gathered_wf`.
proof fn lemma_split_wf_general(
    names: Seq<String>,
    fs: Seq<(Seq<char>, Val)>,
    acc: Seq<(Seq<char>, Val)>,
)
    requires
        crate::value::fields_sorted(fs),
        forall|i: int| 0 <= i < fs.len() ==> wf_val((#[trigger] fs[i]).1),
        crate::value::fields_sorted(acc),
        forall|i: int| 0 <= i < acc.len() ==> wf_val((#[trigger] acc[i]).1),
    ensures
        wf_val(Val::Obj(split_enc(names, fs, acc).0)),
    decreases names.len(),
{
    if names.len() == 0 {
    } else {
        let k = names[0]@;
        let rest = names.subrange(1, names.len() as int);
        match obj_get(fs, k) {
            Some(v) => {
                if v == Val::Null {
                    lemma_split_wf_general(rest, fs, acc);
                } else {
                    let fs1 = obj_remove(fs, k);
                    let acc1 = obj_insert(acc, k, v);
                    crate::value::obj_remove_sorted(fs, k);
                    crate::value::obj_insert_sorted(acc, k, v);
                    lemma_obj_get_is_field(fs, k);
                    lemma_obj_insert_vals(acc, k, v);
                    assert forall|i: int| 0 <= i < fs1.len() implies wf_val(
                        (#[trigger] fs1[i]).1,
                    ) by {
                        obj_remove_vals(fs, k, i);
                    }
                    lemma_split_wf_general(rest, fs1, acc1);
                }
            },
            None => {
                lemma_split_wf_general(rest, fs, acc);
            },
        }
    }
}

/// Every value of a removal is an old one.
pub proof fn obj_remove_vals(fs: Seq<(Seq<char>, Val)>, k: Seq<char>, j: int)
    requires
        0 <= j < obj_remove(fs, k).len(),
    ensures
        exists|i: int| 0 <= i < fs.len() && (#[trigger] fs[i]).1 == obj_remove(fs, k)[j].1,
    decreases fs.len(),
{
    let res = obj_remove(fs, k);
    if fs.len() == 0 {
    } else if fs[0].0 == k {
        assert(fs[j + 1].1 == res[j].1);
    } else {
        if j == 0 {
            assert(fs[0].1 == res[0].1);
        } else {
            let rest = fs.subrange(1, fs.len() as int);
            obj_remove_vals(rest, k, j - 1);
            assert(res[j] == obj_remove(rest, k)[j - 1]);
            let i0 = choose|i: int|
                0 <= i < rest.len() && (#[trigger] rest[i]).1 == obj_remove(rest, k)[j - 1].1;
            assert(fs[i0 + 1].1 == res[j].1);
        }
    }
}

/// What stays behind keeps its keys sorted.
proof fn lemma_split_residual_sorted(
    names: Seq<String>,
    fs: Seq<(Seq<char>, Val)>,
    acc: Seq<(Seq<char>, Val)>,
)
    requires
        crate::value::fields_sorted(fs),
    ensures
        crate::value::fields_sorted(split_enc(names, fs, acc).1),
    decreases names.len(),
{
    if names.len() > 0 {
        let k = names[0]@;
        let rest = names.subrange(1, names.len() as int);
        match obj_get(fs, k) {
            Some(v) => {
                if v == Val::Null {
                    lemma_split_residual_sorted(rest, fs, acc);
                } else {
                    crate::value::obj_remove_sorted(fs, k);
                    lemma_split_residual_sorted(rest, obj_remove(fs, k), obj_insert(acc, k, v));
                }
            },
            None => {
                lemma_split_residual_sorted(rest, fs, acc);
            },
        }
    }
}

/// A key bound to nothing or to null stays exactly as it was.
proof fn lemma_split_residual_exact(
    names: Seq<String>,
    fs: Seq<(Seq<char>, Val)>,
    acc: Seq<(Seq<char>, Val)>,
    k: Seq<char>,
)
    requires
        crate::value::fields_sorted(fs),
        obj_get(fs, k) is None || obj_get(fs, k) == Some(Val::Null),
    ensures
        obj_get(split_enc(names, fs, acc).1, k) == obj_get(fs, k),
    decreases names.len(),
{
    if names.len() > 0 {
        let k0 = names[0]@;
        let rest = names.subrange(1, names.len() as int);
        match obj_get(fs, k0) {
            Some(v) => {
                if v == Val::Null {
                    lemma_split_residual_exact(rest, fs, acc, k);
                } else {
                    crate::value::obj_remove_sorted(fs, k0);
                    crate::value::obj_remove_get(fs, k0, k);
                    lemma_split_residual_exact(rest, obj_remove(fs, k0), obj_insert(acc, k0, v), k);
                }
            },
            None => {
                lemma_split_residual_exact(rest, fs, acc, k);
            },
        }
    }
}

/// A key no declared name touches stays exactly as it was.
proof fn lemma_split_residual_untouched(
    names: Seq<String>,
    fs: Seq<(Seq<char>, Val)>,
    acc: Seq<(Seq<char>, Val)>,
    k: Seq<char>,
)
    requires
        crate::value::fields_sorted(fs),
        forall|i: int| 0 <= i < names.len() ==> (#[trigger] names[i])@ != k,
    ensures
        obj_get(split_enc(names, fs, acc).1, k) == obj_get(fs, k),
    decreases names.len(),
{
    if names.len() > 0 {
        let k0 = names[0]@;
        let rest = names.subrange(1, names.len() as int);
        assert forall|i: int| 0 <= i < rest.len() implies (#[trigger] rest[i])@ != k by {
            assert(rest[i] == names[i + 1]);
        }
        match obj_get(fs, k0) {
            Some(v) => {
                if v == Val::Null {
                    lemma_split_residual_untouched(rest, fs, acc, k);
                } else {
                    crate::value::obj_remove_sorted(fs, k0);
                    crate::value::obj_remove_get(fs, k0, k);
                    lemma_split_residual_untouched(rest, obj_remove(fs, k0), obj_insert(acc, k0, v), k);
                }
            },
            None => {
                lemma_split_residual_untouched(rest, fs, acc, k);
            },
        }
    }
}

/// A key bound to nothing or to null is not gathered.
proof fn lemma_split_not_gathered(
    names: Seq<String>,
    fs: Seq<(Seq<char>, Val)>,
    acc: Seq<(Seq<char>, Val)>,
    k: Seq<char>,
)
    requires
        crate::value::fields_sorted(fs),
        obj_get(acc, k) is None,
        obj_get(fs, k) is None || obj_get(fs, k) == Some(Val::Null),
    ensures
        obj_get(split_enc(names, fs, acc).0, k) is None,
    decreases names.len(),
{
    if names.len() == 0 {
    } else {
        let k0 = names[0]@;
        let rest = names.subrange(1, names.len() as int);
        match obj_get(fs, k0) {
            Some(v) => {
                if v == Val::Null {
                    lemma_split_not_gathered(rest, fs, acc, k);
                } else {
                    crate::value::obj_remove_sorted(fs, k0);
                    crate::value::obj_remove_get(fs, k0, k);
                    crate::value::obj_insert_get(acc, k0, v, k);
                    lemma_split_not_gathered(rest, obj_remove(fs, k0), obj_insert(acc, k0, v), k);
                }
            },
            None => {
                lemma_split_not_gathered(rest, fs, acc, k);
            },
        }
    }
}

/// Merging keeps the fields sorted.
proof fn lemma_merge_sorted(
    names: Seq<String>,
    m: Seq<(Seq<char>, Val)>,
    base: Seq<(Seq<char>, Val)>,
)
    requires
        crate::value::fields_sorted(base),
    ensures
        crate::value::fields_sorted(merge_enc(names, m, base)),
    decreases names.len(),
{
    if names.len() > 0 {
        let k = names[0]@;
        let rest = names.subrange(1, names.len() as int);
        match obj_get(m, k) {
            Some(v) => {
                crate::value::obj_insert_sorted(base, k, v);
                lemma_merge_sorted(rest, m, obj_insert(base, k, v));
            },
            None => {
                lemma_merge_sorted(rest, m, base);
            },
        }
    }
}

/// A key no declared name touches keeps its binding through the merge.
proof fn lemma_merge_untouched(
    names: Seq<String>,
    m: Seq<(Seq<char>, Val)>,
    base: Seq<(Seq<char>, Val)>,
    k: Seq<char>,
)
    requires
        forall|i: int| 0 <= i < names.len() ==> (#[trigger] names[i])@ != k,
    ensures
        obj_get(merge_enc(names, m, base), k) == obj_get(base, k),
    decreases names.len(),
{
    if names.len() > 0 {
        let k0 = names[0]@;
        let rest = names.subrange(1, names.len() as int);
        assert forall|i: int| 0 <= i < rest.len() implies (#[trigger] rest[i])@ != k by {
            assert(rest[i] == names[i + 1]);
        }
        match obj_get(m, k0) {
            Some(v) => {
                crate::value::obj_insert_get(base, k0, v, k);
                lemma_merge_untouched(rest, m, obj_insert(base, k0, v), k);
            },
            None => {
                lemma_merge_untouched(rest, m, base, k);
            },
        }
    }
}

/// A key the payload does not bind keeps its binding through the merge.
proof fn lemma_merge_payload_absent(
    names: Seq<String>,
    m: Seq<(Seq<char>, Val)>,
    base: Seq<(Seq<char>, Val)>,
    k: Seq<char>,
)
    requires
        obj_get(m, k) is None,
    ensures
        obj_get(merge_enc(names, m, base), k) == obj_get(base, k),
    decreases names.len(),
{
    if names.len() > 0 {
        let k0 = names[0]@;
        let rest = names.subrange(1, names.len() as int);
        match obj_get(m, k0) {
            Some(v) => {
                assert(k0 != k);
                crate::value::obj_insert_get(base, k0, v, k);
                lemma_merge_payload_absent(rest, m, obj_insert(base, k0, v), k);
            },
            None => {
                lemma_merge_payload_absent(rest, m, base, k);
            },
        }
    }
}

/// Law: the read chain's merge of the write chain's payload restores the
/// document exactly.
///
/// For a sorted document without an `__encrypted` field of its own, over
/// declared names that do not include `__encrypted`: gathering the
/// declared fields, storing the blob, and merging the gathered payload
/// back over the stored form (with the blob dropped) gives back the very
/// field sequence the document had.
pub proof fn lemma_gather_merge_round_trip(
    names: Seq<String>,
    fs: Seq<(Seq<char>, Val)>,
    blob: Val,
)
    requires
        crate::value::fields_sorted(fs),
        !crate::value::obj_has(fs, "__encrypted"@),
        forall|i: int| 0 <= i < names.len() ==> (#[trigger] names[i])@ != "__encrypted"@,
    ensures
        ({
            let gathered = split_enc(names, fs, Seq::empty()).0;
            let stored = obj_insert(split_enc(names, fs, Seq::empty()).1, "__encrypted"@, blob);
            merge_enc(names, gathered, obj_remove(stored, "__encrypted"@)) =~= fs
        }),
{
    let gathered = split_enc(names, fs, Seq::empty()).0;
    let residual = split_enc(names, fs, Seq::empty()).1;
    lemma_split_residual_sorted(names, fs, Seq::empty());
    lemma_split_residual_untouched(names, fs, Seq::empty(), "__encrypted"@);
    crate::value::obj_remove_of_insert(residual, "__encrypted"@, blob);
    let merged = merge_enc(names, gathered, obj_remove(obj_insert(residual, "__encrypted"@, blob), "__encrypted"@));
    assert(obj_remove(obj_insert(residual, "__encrypted"@, blob), "__encrypted"@) == residual);
    lemma_merge_sorted(names, gathered, residual);
    assert forall|k: Seq<char>| #[trigger] obj_get(merged, k) == obj_get(fs, k) by {
        if exists|i: int| 0 <= i < names.len() && (#[trigger] names[i])@ == k {
            let i = choose|i: int| 0 <= i < names.len() && (#[trigger] names[i])@ == k;
            match obj_get(fs, k) {
                Some(v) => {
                    if v == Val::Null {
                        lemma_split_not_gathered(names, fs, Seq::empty(), k);
                        lemma_merge_payload_absent(names, gathered, residual, k);
                        lemma_split_residual_exact(names, fs, Seq::empty(), k);
                    } else {
                        lemma_split_gathers(names, fs, Seq::empty(), i);
                        lemma_merge_binds(names, gathered, residual, i);
                    }
                },
                None => {
                    lemma_split_not_gathered(names, fs, Seq::empty(), k);
                    lemma_merge_payload_absent(names, gathered, residual, k);
                    lemma_split_residual_exact(names, fs, Seq::empty(), k);
                },
            }
        } else {
            assert(forall|i: int| 0 <= i < names.len() ==> (#[trigger] names[i])@ != k);
            lemma_merge_untouched(names, gathered, residual, k);
            lemma_split_residual_untouched(names, fs, Seq::empty(), k);
        }
    }
    crate::value::lemma_sorted_get_ext(merged, fs);
}

} // verus!
