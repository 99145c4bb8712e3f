//! Canonical JSON text.
//!
//! The integrity digest and the encrypted blob are computed over a
//! deterministic serialization: object keys in code-point order (which
//! well-formed values already keep), no whitespace, integers in shortest
//! decimal form, strings with the least escapes (`\"`, `\\`, and `\u00..`
//! for control characters).

use vstd::prelude::*;

use crate::value::{view_arr, view_fields, Val, Value};

verus! {

broadcast use vstd::seq::group_seq_axioms;

/// The decimal digit `d` as a character.
pub open spec fn digit_char(d: int) -> char {
    ((48 + d) as u8) as char
}

/// The hexadecimal digit `d` as a lowercase character.
pub open spec fn hex_char(d: int) -> char {
    if d < 10 {
        ((48 + d) as u8) as char
    } else {
        ((87 + d) as u8) as char
    }
}

/// Lowercase hexadecimal text of a byte string, two digits per byte.
pub open spec fn hex_of(bytes: Seq<u8>) -> Seq<char>
    decreases bytes.len(),
{
    if bytes.len() == 0 {
        Seq::empty()
    } else {
        seq![hex_char(bytes[0] as int / 16), hex_char(bytes[0] as int % 16)] + hex_of(
            bytes.subrange(1, bytes.len() as int),
        )
    }
}

/// Writes the lowercase hexadecimal text of a byte string.
#[verifier::loop_isolation(false)]
pub fn hex_text(bytes: &Vec<u8>) -> (r: Vec<char>)
    ensures
        r@ == hex_of(bytes@),
{
    let mut out: Vec<char> = Vec::new();
    proof {
        assert(bytes@.subrange(0, bytes@.len() as int) =~= bytes@);
    }
    let mut i: usize = 0;
    while i < bytes.len()
        invariant
            i <= bytes@.len(),
            hex_of(bytes@) == out@ + hex_of(bytes@.subrange(i as int, bytes@.len() as int)),
        decreases bytes@.len() - i,
    {
        let b = bytes[i];
        let hi = b / 16;
        let lo = b % 16;
        let hc: char = if hi < 10 {
            (48 + hi) as char
        } else {
            (87 + hi) as char
        };
        let lc: char = if lo < 10 {
            (48 + lo) as char
        } else {
            (87 + lo) as char
        };
        let ghost pre = out@;
        out.push(hc);
        out.push(lc);
        proof {
            let tail = bytes@.subrange(i as int, bytes@.len() as int);
            assert(tail[0] == bytes@[i as int]);
            assert(tail.subrange(1, tail.len() as int) =~= bytes@.subrange(
                i + 1,
                bytes@.len() as int,
            ));
            assert(hc == hex_char(b as int / 16));
            assert(lc == hex_char(b as int % 16));
            assert(out@ =~= pre + seq![hc, lc]);
            assert(pre + seq![hc, lc] + hex_of(bytes@.subrange(i + 1, bytes@.len() as int)) =~= pre
                + (seq![hc, lc] + hex_of(bytes@.subrange(i + 1, bytes@.len() as int))));
        }
        i = i + 1;
    }
    proof {
        assert(bytes@.subrange(bytes@.len() as int, bytes@.len() as int) =~= Seq::<u8>::empty());
        assert(out@ + Seq::<char>::empty() =~= out@);
    }
    out
}

/// Shortest decimal form of a non-negative integer.
pub open spec fn dec_nat(n: int) -> Seq<char>
    decreases n,
{
    if n < 10 {
        seq![digit_char(n)]
    } else {
        dec_nat(n / 10) + seq![digit_char(n % 10)]
    }
}

/// Shortest decimal form, with a sign for negative integers.
pub open spec fn dec_int(i: int) -> Seq<char> {
    if i < 0 {
        seq!['-'] + dec_nat(-i)
    } else {
        dec_nat(i)
    }
}

/// How one character appears inside a JSON string literal.
pub open spec fn esc_char(c: char) -> Seq<char> {
    if c == '"' {
        seq!['\\', '"']
    } else if c == '\\' {
        seq!['\\', '\\']
    } else if (c as u32) < 32 {
        seq![
            '\\',
            'u',
            '0',
            '0',
            hex_char((c as u32) as int / 16),
            hex_char((c as u32) as int % 16),
        ]
    } else {
        seq![c]
    }
}

/// The body of a JSON string literal.
pub open spec fn esc(s: Seq<char>) -> Seq<char>
    decreases s.len(),
{
    if s.len() == 0 {
        Seq::empty()
    } else {
        esc_char(s[0]) + esc(s.subrange(1, s.len() as int))
    }
}

/// A whole JSON string literal.
pub open spec fn quoted(s: Seq<char>) -> Seq<char> {
    seq!['"'] + esc(s) + seq!['"']
}

/// Canonical JSON text of a value.
pub open spec fn ser(v: Val) -> Seq<char>
    decreases v,
{
    match v {
        Val::Null => seq!['n', 'u', 'l', 'l'],
        Val::Bool(b) => if b {
            seq!['t', 'r', 'u', 'e']
        } else {
            seq!['f', 'a', 'l', 's', 'e']
        },
        Val::Int(i) => dec_int(i),
        Val::Str(s) => quoted(s),
        Val::Arr(a) => seq!['['] + ser_list(a) + seq![']'],
        Val::Obj(fs) => seq!['{'] + ser_fields(fs) + seq!['}'],
    }
}

/// Comma-separated canonical texts of array elements.
pub open spec fn ser_list(a: Seq<Val>) -> Seq<char>
    decreases a,
{
    if a.len() == 0 {
        Seq::empty()
    } else if a.len() == 1 {
        ser(a[0])
    } else {
        ser(a[0]) + seq![','] + ser_list(a.subrange(1, a.len() as int))
    }
}

/// Comma-separated `"key":value` texts of object fields.
pub open spec fn ser_fields(fs: Seq<(Seq<char>, Val)>) -> Seq<char>
    decreases fs,
{
    if fs.len() == 0 {
        Seq::empty()
    } else if fs.len() == 1 {
        quoted(fs[0].0) + seq![':'] + ser(fs[0].1)
    } else {
        quoted(fs[0].0) + seq![':'] + ser(fs[0].1) + seq![','] + ser_fields(
            fs.subrange(1, fs.len() as int),
        )
    }
}

/// Escaping a string one character longer appends that character's escape.
pub proof fn esc_snoc(s: Seq<char>, c: char)
    ensures
        esc(s.push(c)) =~= esc(s) + esc_char(c),
    decreases s.len(),
{
    let sp = s.push(c);
    if s.len() == 0 {
        assert(sp =~= seq![c]);
        assert(sp.subrange(1, sp.len() as int) =~= Seq::<char>::empty());
        assert(esc(sp) == esc_char(c) + esc(Seq::<char>::empty()));
        assert(esc(sp) =~= esc_char(c));
        assert(esc(s) + esc_char(c) =~= esc_char(c));
    } else {
        assert(sp.subrange(1, sp.len() as int) =~= s.subrange(1, s.len() as int).push(c));
        esc_snoc(s.subrange(1, s.len() as int), c);
        assert(sp[0] == s[0]);
        assert(esc(sp) == esc_char(s[0]) + (esc(s.subrange(1, s.len() as int)) + esc_char(c)));
        assert(esc(sp) =~= (esc_char(s[0]) + esc(s.subrange(1, s.len() as int))) + esc_char(c));
    }
}

/// Serializing one more element appends a comma and its text.
pub proof fn ser_list_snoc(a: Seq<Val>, x: Val)
    ensures
        a.len() == 0 ==> ser_list(a.push(x)) =~= ser(x),
        a.len() > 0 ==> ser_list(a.push(x)) =~= ser_list(a) + seq![','] + ser(x),
    decreases a,
{
    let ap = a.push(x);
    if a.len() == 0 {
        assert(ap.len() == 1);
        assert(ap[0] == x);
    } else {
        assert(ap.subrange(1, ap.len() as int) =~= a.subrange(1, a.len() as int).push(x));
        ser_list_snoc(a.subrange(1, a.len() as int), x);
        if a.len() == 1 {
            assert(ap[0] == a[0]);
        }
    }
}

/// Serializing one more field appends a comma and its text.
pub proof fn ser_fields_snoc(fs: Seq<(Seq<char>, Val)>, k: Seq<char>, v: Val)
    ensures
        fs.len() == 0 ==> ser_fields(fs.push((k, v))) =~= quoted(k) + seq![':'] + ser(v),
        fs.len() > 0 ==> ser_fields(fs.push((k, v))) =~= ser_fields(fs) + seq![','] + quoted(k)
            + seq![':'] + ser(v),
    decreases fs,
{
    let fp = fs.push((k, v));
    if fs.len() == 0 {
        assert(fp.len() == 1);
        assert(fp[0] == (k, v));
    } else {
        assert(fp.subrange(1, fp.len() as int) =~= fs.subrange(1, fs.len() as int).push((k, v)));
        ser_fields_snoc(fs.subrange(1, fs.len() as int), k, v);
        if fs.len() == 1 {
            assert(fp[0] == fs[0]);
        }
    }
}

/// Append the shortest decimal form of `n`.
fn write_nat(n: u64, out: &mut Vec<char>)
    ensures
        final(out)@ == old(out)@ + dec_nat(n as int),
    decreases n,
{
    if n < 10 {
        let c = ((48 + n) as u8) as char;
        out.push(c);
        proof {
            assert(final(out)@ =~= old(out)@ + dec_nat(n as int));
        }
    } else {
        write_nat(n / 10, out);
        let d = n % 10;
        let c = ((48 + d) as u8) as char;
        out.push(c);
        proof {
            assert(final(out)@ =~= old(out)@ + dec_nat(n as int));
        }
    }
}

/// Append the canonical decimal form of `i`.
pub fn write_int(i: i64, out: &mut Vec<char>)
    ensures
        final(out)@ == old(out)@ + dec_int(i as int),
{
    if i < 0 {
        out.push('-');
        // Two's-complement magnitude, safe for the smallest value.
        let mag: u64 = ((-(i + 1)) as u64) + 1;
        proof {
            assert(mag as int == -(i as int));
        }
        write_nat(mag, out);
        proof {
            assert(final(out)@ =~= old(out)@ + dec_int(i as int));
        }
    } else {
        write_nat(i as u64, out);
    }
}

/// Append a JSON string literal holding `s`.
fn write_quoted(s: &str, out: &mut Vec<char>)
    ensures
        final(out)@ == old(out)@ + quoted(s@),
{
    let n = s.unicode_len();
    out.push('"');
    let mut i: usize = 0;
    while i < n
        invariant
            i <= n,
            n == s@.len(),
            out@ == old(out)@ + seq!['"'] + esc(s@.subrange(0, i as int)),
        decreases n - i,
    {
        let c = s.get_char(i);
        let cu = c as u32;
        proof {
            esc_snoc(s@.subrange(0, i as int), c);
            assert(s@.subrange(0, i as int).push(c) =~= s@.subrange(0, i as int + 1));
        }
        if c == '"' {
            out.push('\\');
            out.push('"');
        } else if c == '\\' {
            out.push('\\');
            out.push('\\');
        } else if cu < 32 {
            out.push('\\');
            out.push('u');
            out.push('0');
            out.push('0');
            let hi = cu / 16;
            let lo = cu % 16;
            let hc = if hi < 10 {
                ((48 + hi) as u8) as char
            } else {
                ((87 + hi) as u8) as char
            };
            let lc = if lo < 10 {
                ((48 + lo) as u8) as char
            } else {
                ((87 + lo) as u8) as char
            };
            out.push(hc);
            out.push(lc);
        } else {
            out.push(c);
        }
        proof {
            assert(out@ =~= old(out)@ + seq!['"'] + esc(s@.subrange(0, i as int + 1)));
        }
        i = i + 1;
    }
    out.push('"');
    proof {
        assert(s@.subrange(0, s@.len() as int) =~= s@);
        assert(final(out)@ =~= old(out)@ + quoted(s@));
    }
}

/// Append the canonical JSON text of `v`.
#[verifier::loop_isolation(false)]
#[verifier::rlimit(60)]
pub fn write_value(v: &Value, out: &mut Vec<char>)
    ensures
        final(out)@ == old(out)@ + ser(v@),
    decreases v,
{
    match v {
        Value::Null => {
            out.push('n');
            out.push('u');
            out.push('l');
            out.push('l');
            proof {
                assert(final(out)@ =~= old(out)@ + ser(v@));
            }
        },
        Value::Bool(b) => {
            if *b {
                out.push('t');
                out.push('r');
                out.push('u');
                out.push('e');
            } else {
                out.push('f');
                out.push('a');
                out.push('l');
                out.push('s');
                out.push('e');
            }
            proof {
                assert(final(out)@ =~= old(out)@ + ser(v@));
            }
        },
        Value::Int(i) => {
            write_int(*i, out);
        },
        Value::Str(s) => {
            write_quoted(s.as_str(), out);
        },
        Value::Arr(a) => {
            out.push('[');
            let ghost base = out@;
            let mut i: usize = 0;
            while i < a.len()
                invariant
                    i <= a@.len(),
                    out@ == base + ser_list(view_arr(a@.subrange(0, i as int))),
                decreases a@.len() - i,
            {
                if i > 0 {
                    out.push(',');
                }
                proof {
                    assert(decreases_to!(*v => v->Arr_0@[i as int]));
                }
                write_value(&a[i], out);
                proof {
                    crate::value::view_arr_len(a@.subrange(0, i as int));
                    ser_list_snoc(view_arr(a@.subrange(0, i as int)), a@[i as int]@);
                    assert(view_arr(a@.subrange(0, i as int)).push(a@[i as int]@) =~= view_arr(
                        a@.subrange(0, i as int + 1),
                    )) by {
                        crate::value::view_arr_len(a@.subrange(0, i as int + 1));
                        assert forall|j: int| 0 <= j < i + 1 implies view_arr(
                            a@.subrange(0, i as int + 1),
                        )[j] == view_arr(a@.subrange(0, i as int)).push(a@[i as int]@)[j] by {
                            crate::value::view_arr_index(a@.subrange(0, i as int + 1), j);
                            if j < i {
                                crate::value::view_arr_index(a@.subrange(0, i as int), j);
                            }
                        }
                    }
                }
                i = i + 1;
            }
            out.push(']');
            proof {
                assert(a@.subrange(0, a@.len() as int) =~= a@);
                assert(final(out)@ =~= old(out)@ + ser(v@));
            }
        },
        Value::Obj(o) => {
            out.push('{');
            let ghost base = out@;
            let mut i: usize = 0;
            while i < o.len()
                invariant
                    i <= o@.len(),
                    out@ == base + ser_fields(view_fields(o@.subrange(0, i as int))),
                decreases o@.len() - i,
            {
                if i > 0 {
                    out.push(',');
                }
                write_quoted(o[i].0.as_str(), out);
                out.push(':');
                proof {
                    assert(decreases_to!(*v => v->Obj_0@[i as int].1));
                }
                write_value(&o[i].1, out);
                proof {
                    crate::value::view_fields_len(o@.subrange(0, i as int));
                    ser_fields_snoc(
                        view_fields(o@.subrange(0, i as int)),
                        o@[i as int].0@,
                        o@[i as int].1@,
                    );
                    assert(view_fields(o@.subrange(0, i as int)).push(
                        (o@[i as int].0@, o@[i as int].1@),
                    ) =~= view_fields(o@.subrange(0, i as int + 1))) by {
                        crate::value::view_fields_len(o@.subrange(0, i as int + 1));
                        assert forall|j: int| 0 <= j < i + 1 implies view_fields(
                            o@.subrange(0, i as int + 1),
                        )[j] == view_fields(o@.subrange(0, i as int)).push(
                            (o@[i as int].0@, o@[i as int].1@),
                        )[j] by {
                            crate::value::view_fields_index(o@.subrange(0, i as int + 1), j);
                            if j < i {
                                crate::value::view_fields_index(o@.subrange(0, i as int), j);
                            }
                        }
                    }
                }
                i = i + 1;
            }
            out.push('}');
            proof {
                assert(o@.subrange(0, o@.len() as int) =~= o@);
                assert(final(out)@ =~= old(out)@ + ser(v@));
            }
        },
    }
}

/// The canonical JSON text of `v`, as characters.
pub fn to_canonical_chars(v: &Value) -> (r: Vec<char>)
    ensures
        r@ == ser(v@),
{
    let mut out: Vec<char> = Vec::new();
    write_value(v, &mut out);
    proof {
        assert(out@ =~= ser(v@));
    }
    out
}

} // verus!
