//! Reading canonical JSON text back into values.
//!
//! The parser accepts exactly the canonical texts: anything it returns
//! serializes back to the consumed characters. Escapes, number forms and
//! key order outside the canonical profile are refused.

use vstd::prelude::*;
use vstd::string::StrSliceExecFns;

use crate::canon::{dec_int, dec_nat, digit_char, esc, esc_char, hex_char, quoted, ser, ser_fields, ser_list};
use crate::value::{view_arr, view_fields, wf_val, Val, Value};

verus! {

broadcast use vstd::seq::group_seq_axioms, vstd::utf8::char_u32_cast;

/// A byte cast to a character carries its code point over.
proof fn lemma_u8_char_code(b: u8, c: char)
    requires
        c as u32 == b as u32,
    ensures
        (b as char) == c,
{
    assert((b as char) as u32 == b as u32);
}

/// The character a decimal digit value came from.
proof fn lemma_digit_char_of(c: char, d: int)
    requires
        0 <= d < 10,
        c as u32 == 48 + d,
    ensures
        digit_char(d) == c,
{
    lemma_u8_char_code((48 + d) as u8, c);
}

/// The character a hexadecimal digit value came from.
proof fn lemma_hex_char_of(c: char, d: int)
    requires
        0 <= d < 16,
        d < 10 ==> c as u32 == 48 + d,
        d >= 10 ==> c as u32 == 87 + d,
    ensures
        hex_char(d) == c,
{
    if d < 10 {
        lemma_u8_char_code((48 + d) as u8, c);
    } else {
        lemma_u8_char_code((87 + d) as u8, c);
    }
}

/// A decimal digit character.
pub open spec fn is_digit(c: char) -> bool {
    48 <= (c as u32) <= 57
}

/// The canonical text of `m` stands in `cs` at `pos`.
pub open spec fn fits(cs: Seq<char>, pos: int, m: Val) -> bool {
    &&& 0 <= pos
    &&& pos + ser(m).len() <= cs.len()
    &&& cs.subrange(pos, pos + ser(m).len()) == ser(m)
}

/// Nothing at `p` could extend a number that ends just before it.
pub open spec fn delimited(cs: Seq<char>, p: int) -> bool {
    p >= cs.len() || !is_digit(cs[p])
}

/// A decimal digit character is a digit with the right code.
proof fn lemma_digit_char_code(d: int)
    requires
        0 <= d < 10,
    ensures
        (digit_char(d) as u32) == 48 + d,
        is_digit(digit_char(d)),
{
    assert((((48 + d) as u8) as char) as u32 == ((48 + d) as u8) as u32);
}

/// Every character of a decimal text is a digit.
proof fn lemma_dec_nat_digits(n: int)
    requires
        n >= 0,
    ensures
        forall|j: int| 0 <= j < dec_nat(n).len() ==> is_digit(#[trigger] dec_nat(n)[j]),
    decreases n,
{
    if n < 10 {
        lemma_digit_char_code(n);
        assert forall|j: int| 0 <= j < dec_nat(n).len() implies is_digit(
            #[trigger] dec_nat(n)[j],
        ) by {
            assert(dec_nat(n)[j] == digit_char(n));
        }
    } else {
        lemma_dec_nat_digits(n / 10);
        lemma_digit_char_code(n % 10);
        let pre = dec_nat(n / 10);
        assert forall|j: int| 0 <= j < dec_nat(n).len() implies is_digit(
            #[trigger] dec_nat(n)[j],
        ) by {
            if j < pre.len() {
                assert(dec_nat(n)[j] == pre[j]);
            } else {
                assert(dec_nat(n)[j] == digit_char(n % 10));
            }
        }
    }
}

/// The value a digit text denotes, most significant first.
pub open spec fn digits_val(ds: Seq<char>) -> int
    decreases ds.len(),
{
    if ds.len() == 0 {
        0
    } else {
        digits_val(ds.drop_last()) * 10 + ((ds.last() as u32) - 48)
    }
}

/// The decimal text of `n` denotes `n`, has no leading zero unless it is
/// zero, and grows with `n`.
proof fn lemma_dec_nat_val(n: int)
    requires
        n >= 0,
    ensures
        digits_val(dec_nat(n)) == n,
        n >= 1 ==> dec_nat(n)[0] != '0',
        n < 10 ==> dec_nat(n).len() == 1,
        n >= 10 ==> dec_nat(n).len() > 1,
    decreases n,
{
    if n < 10 {
        lemma_digit_char_code(n);
        assert(dec_nat(n) =~= seq![digit_char(n)]);
        assert(dec_nat(n).drop_last() =~= Seq::<char>::empty());
        assert(dec_nat(n).last() == digit_char(n));
        assert(digits_val(Seq::<char>::empty()) == 0);
        assert(digits_val(dec_nat(n)) == ((digit_char(n) as u32) - 48));
        if n >= 1 {
            assert(('0' as u32) == 48);
            assert(dec_nat(n)[0] == digit_char(n));
        }
    } else {
        lemma_digit_char_code(n % 10);
        lemma_dec_nat_val(n / 10);
        let ds = dec_nat(n);
        assert(ds == dec_nat(n / 10) + seq![digit_char(n % 10)]);
        assert(ds.drop_last() =~= dec_nat(n / 10));
        assert(ds.last() == digit_char(n % 10));
        assert(ds[0] == dec_nat(n / 10)[0]);
    }
}

/// A proper prefix of a digit text denotes no more than the whole.
proof fn lemma_digits_val_prefix(ds: Seq<char>, k: int)
    requires
        0 <= k <= ds.len(),
        forall|j: int| 0 <= j < ds.len() ==> is_digit(#[trigger] ds[j]),
    ensures
        0 <= digits_val(ds.subrange(0, k)) <= digits_val(ds),
    decreases ds.len() - k,
{
    if k == ds.len() {
        assert(ds.subrange(0, k) =~= ds);
        lemma_digits_val_nonneg(ds);
    } else {
        lemma_digits_val_prefix(ds, k + 1);
        let a = ds.subrange(0, k);
        let b = ds.subrange(0, k + 1);
        assert(b.drop_last() =~= a);
        assert(b.last() == ds[k]);
        lemma_digits_val_nonneg(a);
    }
}

/// A digit text denotes something non-negative.
proof fn lemma_digits_val_nonneg(ds: Seq<char>)
    requires
        forall|j: int| 0 <= j < ds.len() ==> is_digit(#[trigger] ds[j]),
    ensures
        digits_val(ds) >= 0,
    decreases ds.len(),
{
    if ds.len() > 0 {
        assert(forall|j: int|
            0 <= j < ds.drop_last().len() ==> is_digit(#[trigger] ds.drop_last()[j]));
        lemma_digits_val_nonneg(ds.drop_last());
    }
}

/// No value serializes to the empty text.
proof fn lemma_ser_nonempty(v: Val)
    ensures
        ser(v).len() > 0,
{
    match v {
        Val::Int(i) => {
            if i < 0 {
            } else {
                lemma_dec_nat_nonempty(i);
            }
        },
        _ => {},
    }
}

proof fn lemma_dec_nat_nonempty(n: int)
    ensures
        dec_nat(n).len() > 0,
    decreases n,
{
    if n >= 10 {
        lemma_dec_nat_nonempty(n / 10);
    }
}

/// Reading one more digit extends the decimal text.
proof fn lemma_dec_nat_snoc(n: int, d: int)
    requires
        n >= 1,
        0 <= d < 10,
    ensures
        dec_nat(10 * n + d) == dec_nat(n) + seq![digit_char(d)],
{
    assert((10 * n + d) / 10 == n);
    assert((10 * n + d) % 10 == d);
    assert(10 * n + d >= 10);
}

/// A hexadecimal digit character has the right code.
proof fn lemma_hex_char_code(d: int)
    requires
        0 <= d < 16,
    ensures
        d < 10 ==> (hex_char(d) as u32) == 48 + d,
        d >= 10 ==> (hex_char(d) as u32) == 87 + d,
{
    if d < 10 {
        assert((((48 + d) as u8) as char) as u32 == ((48 + d) as u8) as u32);
    } else {
        assert((((87 + d) as u8) as char) as u32 == ((87 + d) as u8) as u32);
    }
}

/// The value of one hexadecimal digit character.
fn hex_val(c: char) -> (r: Option<u32>)
    ensures
        r matches Some(d) ==> d < 16 && hex_char(d as int) == c,
        forall|d: u32| d < 16 && hex_char(d as int) == c ==> r == Some(d),
{
    proof {
        assert forall|d: u32| d < 16 && hex_char(d as int) == c implies ((d < 10 && c as u32
            == 48 + d) || (d >= 10 && c as u32 == 87 + d)) by {
            lemma_hex_char_code(d as int);
        }
    }
    let u = c as u32;
    if u >= 48 && u <= 57 {
        proof {
            lemma_hex_char_of(c, (u - 48) as int);
        }
        Some(u - 48)
    } else if u >= 97 && u <= 102 {
        proof {
            lemma_hex_char_of(c, (u - 87) as int);
        }
        Some(u - 87)
    } else {
        None
    }
}

/// The quoted form of `s0` stands in `cs` at `pos`.
pub open spec fn str_fits(cs: Seq<char>, pos: int, s0: Seq<char>) -> bool {
    &&& 0 <= pos
    &&& pos + quoted(s0).len() <= cs.len()
    &&& cs.subrange(pos, pos + quoted(s0).len()) == quoted(s0)
}

/// Escaping a concatenation escapes piece by piece.
proof fn lemma_esc_concat(a: Seq<char>, b: Seq<char>)
    ensures
        esc(a + b) =~= esc(a) + esc(b),
    decreases a.len(),
{
    if a.len() == 0 {
        assert(a + b =~= b);
        assert(esc(a) =~= Seq::<char>::empty());
    } else {
        let ab = a + b;
        assert(ab[0] == a[0]);
        assert(ab.subrange(1, ab.len() as int) =~= a.subrange(1, a.len() as int) + b);
        lemma_esc_concat(a.subrange(1, a.len() as int), b);
        assert(esc(ab) == esc_char(a[0]) + esc(ab.subrange(1, ab.len() as int)));
        assert(esc_char(a[0]) + (esc(a.subrange(1, a.len() as int)) + esc(b)) =~= (esc_char(
            a[0],
        ) + esc(a.subrange(1, a.len() as int))) + esc(b));
    }
}

/// The code points of the characters the escapes use.
proof fn lemma_escape_codes()
    ensures
        ('"' as u32) == 34,
        ('\\' as u32) == 92,
        ('u' as u32) == 117,
        ('0' as u32) == 48,
{
    assert(((34u8) as char) as u32 == 34);
    lemma_u8_char_code(34u8, '"');
    assert(((92u8) as char) as u32 == 92);
    lemma_u8_char_code(92u8, '\\');
    assert(((117u8) as char) as u32 == 117);
    lemma_u8_char_code(117u8, 'u');
    assert(((48u8) as char) as u32 == 48);
    lemma_u8_char_code(48u8, '0');
}

/// What the scan faces inside a fitting string: the closing quote, or the
/// escape of the next character.
pub open spec fn str_probe(cs: Seq<char>, pos: int, i: int, acc: Seq<char>, s0: Seq<char>) -> bool {
    &&& (acc.len() == s0.len() ==> i == pos + 1 + esc(s0).len() && i < cs.len() && cs[i] == '"')
    &&& (acc.len() < s0.len() ==> {
        let e = esc_char(s0[acc.len() as int]);
        &&& i + e.len() < cs.len()
        &&& cs.subrange(i, i + e.len()) == e
    })
}

/// Where the scan stands inside a fitting string.
proof fn lemma_str_step(cs: Seq<char>, pos: int, i: int, acc: Seq<char>, s0: Seq<char>)
    requires
        str_fits(cs, pos, s0),
        acc.len() <= s0.len(),
        acc == s0.subrange(0, acc.len() as int),
        pos + 1 <= i <= cs.len(),
        cs.subrange(pos + 1, i) == esc(acc),
    ensures
        str_probe(cs, pos, i, acc, s0),
{
    let k = acc.len() as int;
    let q = quoted(s0);
    assert(q == seq!['"'] + esc(s0) + seq!['"']);
    assert(forall|j: int| 0 <= j < q.len() ==> cs[pos + j] == #[trigger] q[j]) by {
        assert forall|j: int| 0 <= j < q.len() implies cs[pos + j] == #[trigger] q[j] by {
            assert(cs.subrange(pos, pos + q.len())[j] == cs[pos + j]);
        }
    }
    if k == s0.len() {
        assert(acc =~= s0);
        assert(i == pos + 1 + esc(s0).len());
        assert(q[1 + esc(s0).len() as int] == '"');
        assert(cs[i] == q[i - pos]);
    } else {
        let tail = s0.subrange(k, s0.len() as int);
        assert(s0 =~= acc + tail);
        lemma_esc_concat(acc, tail);
        let e = esc_char(s0[k]);
        assert(tail[0] == s0[k]);
        assert(tail.subrange(1, tail.len() as int) =~= s0.subrange(k + 1, s0.len() as int));
        assert(esc(tail) == e + esc(tail.subrange(1, tail.len() as int)));
        assert(esc(s0).len() == esc(acc).len() + esc(tail).len());
        assert(i + e.len() <= pos + 1 + esc(s0).len());
        assert(pos + 1 + esc(s0).len() < cs.len());
        assert forall|j: int| 0 <= j < e.len() implies cs.subrange(i, i + e.len())[j] == e[j] by {
            assert(cs.subrange(i, i + e.len())[j] == cs[i + j]);
            assert(cs[i + j] == q[i + j - pos]);
            assert(q[i + j - pos] == esc(s0)[i + j - pos - 1]);
            assert(esc(s0)[esc(acc).len() + j] == esc(tail)[j]);
            assert(esc(tail)[j] == e[j]);
        }
        assert(cs.subrange(i, i + e.len()) =~= e);
    }
}

/// The scan stands at an escape: the next source character is escaped.
pub open spec fn esc_head(cs: Seq<char>, i: int, acc: Seq<char>, s0: Seq<char>) -> bool {
    &&& acc.len() < s0.len()
    &&& esc_char(s0[acc.len() as int])[0] == '\\'
    &&& i + esc_char(s0[acc.len() as int]).len() < cs.len()
    &&& cs.subrange(i, i + esc_char(s0[acc.len() as int]).len()) == esc_char(
        s0[acc.len() as int],
    )
}

/// The scan stands at a control escape: six characters spell the code.
pub open spec fn u_head(cs: Seq<char>, i: int, acc: Seq<char>, s0: Seq<char>) -> bool {
    &&& acc.len() < s0.len()
    &&& (s0[acc.len() as int] as u32) < 32
    &&& esc_char(s0[acc.len() as int]).len() == 6
    &&& i + 6 < cs.len()
    &&& cs.subrange(i, i + 6) == esc_char(s0[acc.len() as int])
}

/// Reads a string literal at `pos`: what comes back quotes to exactly the
/// consumed text, and where the text holds the quoted form of some string
/// the reader returns exactly that string.
#[verifier::loop_isolation(false)]
#[verifier::rlimit(100)]
#[verifier::spinoff_prover]
fn parse_string(cs: &Vec<char>, pos: usize) -> (r: Option<(String, usize)>)
    requires
        pos < cs@.len(),
    ensures
        r matches Some((s, p)) ==> pos < p <= cs@.len() && cs@.subrange(pos as int, p as int)
            == quoted(s@),
        forall|s0: Seq<char>|
            str_fits(cs@, pos as int, s0) ==> r is Some && (r->0).0@ == s0 && (r->0).1 as int
                == pos + quoted(s0).len(),
    decreases cs@.len() - pos,
{
    let n = cs.len();
    proof {
        lemma_escape_codes();
    }
    if cs[pos] != '"' {
        proof {
            assert forall|s0: Seq<char>| !str_fits(cs@, pos as int, s0) by {
                if str_fits(cs@, pos as int, s0) {
                    assert(cs@.subrange(pos as int, pos + quoted(s0).len())[0] == cs@[
                        pos as int
                    ]);
                }
            }
        }
        return None;
    }
    let mut acc: Vec<char> = Vec::new();
    let mut i: usize = pos + 1;
    loop
        invariant
            pos + 1 <= i <= cs@.len(),
            cs@.subrange(pos + 1, i as int) == esc(acc@),
            forall|s0: Seq<char>|
                str_fits(cs@, pos as int, s0) ==> acc@.len() <= s0.len() && acc@ == s0.subrange(
                    0,
                    acc@.len() as int,
                ),
        decreases cs@.len() - i,
    {
        proof {
            assert forall|s0: Seq<char>| str_fits(cs@, pos as int, s0) implies str_probe(
                cs@,
                pos as int,
                i as int,
                acc@,
                s0,
            ) by {
                lemma_str_step(cs@, pos as int, i as int, acc@, s0);
            }
        }
        if i >= n {
            proof {
                assert forall|s0: Seq<char>| !str_fits(cs@, pos as int, s0) by {
                    if str_fits(cs@, pos as int, s0) {
                        assert(str_probe(cs@, pos as int, i as int, acc@, s0));
                    }
                }
            }
            return None;
        }
        let c = cs[i];
        if c == '"' {
            let st = crate::trusted::chars_to_string(&acc);
            proof {
                assert(cs@.subrange(pos as int, i + 1) =~= seq!['"'] + esc(acc@) + seq!['"']);
                assert forall|s0: Seq<char>| str_fits(cs@, pos as int, s0) implies acc@ == s0
                    && i + 1 == pos + quoted(s0).len() by {
                    assert(str_probe(cs@, pos as int, i as int, acc@, s0));
                    if acc@.len() < s0.len() {
                        let e = esc_char(s0[acc@.len() as int]);
                        assert(cs@.subrange(i as int, i + e.len())[0] == cs@[i as int]);
                        assert(e[0] != '"');
                    }
                    assert(acc@ =~= s0);
                }
            }
            return Some((st, i + 1));
        }
        if c == '\\' {
            proof {
                assert forall|s0: Seq<char>| str_fits(cs@, pos as int, s0) implies esc_head(
                    cs@,
                    i as int,
                    acc@,
                    s0,
                ) by {
                    assert(str_probe(cs@, pos as int, i as int, acc@, s0));
                    if acc@.len() == s0.len() {
                        assert(cs@[i as int] == '"');
                    }
                    let e = esc_char(s0[acc@.len() as int]);
                    assert(cs@.subrange(i as int, i + e.len())[0] == cs@[i as int]);
                }
            }
            if i + 1 >= n {
                proof {
                    assert forall|s0: Seq<char>| !str_fits(cs@, pos as int, s0) by {
                        if str_fits(cs@, pos as int, s0) {
                            assert(esc_head(cs@, i as int, acc@, s0));
                        }
                    }
                }
                return None;
            }
            let c2 = cs[i + 1];
            if c2 == '"' || c2 == '\\' {
                let ghost pre = acc@;
                acc.push(c2);
                proof {
                    crate::canon::esc_snoc(pre, c2);
                    assert(esc_char(c2) =~= seq!['\\', c2]);
                    assert(cs@.subrange(pos + 1, i + 2) =~= esc(pre) + seq!['\\', c2]);
                    assert forall|s0: Seq<char>|
                        str_fits(cs@, pos as int, s0) implies acc@.len() <= s0.len() && acc@
                        == s0.subrange(0, acc@.len() as int) by {
                        assert(esc_head(cs@, i as int, pre, s0));
                        let x = s0[pre.len() as int];
                        let e = esc_char(x);
                        assert(cs@.subrange(i as int, i + e.len())[1] == cs@[i + 1]);
                        assert(x == c2);
                        assert(acc@ =~= s0.subrange(0, pre.len() as int + 1));
                    }
                }
                i = i + 2;
            } else if c2 == 'u' {
                proof {
                    assert forall|s0: Seq<char>| str_fits(cs@, pos as int, s0) implies u_head(
                        cs@,
                        i as int,
                        acc@,
                        s0,
                    ) by {
                        assert(esc_head(cs@, i as int, acc@, s0));
                        let x = s0[acc@.len() as int];
                        let e = esc_char(x);
                        assert(cs@.subrange(i as int, i + e.len())[1] == cs@[i + 1]);
                    }
                }
                if n - i < 7 {
                    proof {
                        assert forall|s0: Seq<char>| !str_fits(cs@, pos as int, s0) by {
                            if str_fits(cs@, pos as int, s0) {
                                assert(u_head(cs@, i as int, acc@, s0));
                            }
                        }
                    }
                    return None;
                }
                if cs[i + 2] != '0' || cs[i + 3] != '0' {
                    proof {
                        assert forall|s0: Seq<char>| !str_fits(cs@, pos as int, s0) by {
                            if str_fits(cs@, pos as int, s0) {
                                assert(u_head(cs@, i as int, acc@, s0));
                                let e = esc_char(s0[acc@.len() as int]);
                                assert(cs@.subrange(i as int, i + 6)[2] == cs@[i + 2]);
                                assert(cs@.subrange(i as int, i + 6)[3] == cs@[i + 3]);
                            }
                        }
                    }
                    return None;
                }
                let h1 = match hex_val(cs[i + 4]) {
                    Some(h) => h,
                    None => {
                        proof {
                            assert forall|s0: Seq<char>| !str_fits(cs@, pos as int, s0) by {
                                if str_fits(cs@, pos as int, s0) {
                                    assert(u_head(cs@, i as int, acc@, s0));
                                    let x = s0[acc@.len() as int];
                                    assert(cs@.subrange(i as int, i + 6)[4] == cs@[i + 4]);
                                    assert(hex_char((x as u32) as int / 16) == cs@[i + 4]);
                                }
                            }
                        }
                        return None;
                    },
                };
                let h2 = match hex_val(cs[i + 5]) {
                    Some(h) => h,
                    None => {
                        proof {
                            assert forall|s0: Seq<char>| !str_fits(cs@, pos as int, s0) by {
                                if str_fits(cs@, pos as int, s0) {
                                    assert(u_head(cs@, i as int, acc@, s0));
                                    let x = s0[acc@.len() as int];
                                    assert(cs@.subrange(i as int, i + 6)[5] == cs@[i + 5]);
                                    assert(hex_char((x as u32) as int % 16) == cs@[i + 5]);
                                }
                            }
                        }
                        return None;
                    },
                };
                let v = h1 * 16 + h2;
                if v >= 32 {
                    proof {
                        assert forall|s0: Seq<char>| !str_fits(cs@, pos as int, s0) by {
                            if str_fits(cs@, pos as int, s0) {
                                assert(u_head(cs@, i as int, acc@, s0));
                                let x = s0[acc@.len() as int];
                                assert(cs@.subrange(i as int, i + 6)[4] == cs@[i + 4]);
                                assert(cs@.subrange(i as int, i + 6)[5] == cs@[i + 5]);
                                assert(hex_char((x as u32) as int / 16) == cs@[i + 4]);
                                assert(hex_char((x as u32) as int % 16) == cs@[i + 5]);
                                assert(h1 == (x as u32) / 16 && h2 == (x as u32) % 16);
                            }
                        }
                    }
                    return None;
                }
                let vc = ((v as u8) as char);
                let ghost pre = acc@;
                acc.push(vc);
                proof {
                    crate::canon::esc_snoc(pre, vc);
                    assert((vc as u32) == v);
                    assert(h1 == v / 16 && h2 == v % 16);
                    lemma_hex_char_of(cs@[i + 4], ((vc as u32) as int) / 16);
                    lemma_hex_char_of(cs@[i + 5], ((vc as u32) as int) % 16);
                    assert(esc_char(vc) =~= seq!['\\', 'u', '0', '0', cs@[i + 4], cs@[i + 5]]);
                    assert(cs@.subrange(pos + 1, i + 6) =~= esc(pre) + esc_char(vc));
                    assert forall|s0: Seq<char>|
                        str_fits(cs@, pos as int, s0) implies acc@.len() <= s0.len() && acc@
                        == s0.subrange(0, acc@.len() as int) by {
                        assert(u_head(cs@, i as int, pre, s0));
                        let x = s0[pre.len() as int];
                        assert(cs@.subrange(i as int, i + 6)[4] == cs@[i + 4]);
                        assert(cs@.subrange(i as int, i + 6)[5] == cs@[i + 5]);
                        assert(hex_char((x as u32) as int / 16) == cs@[i + 4]);
                        assert(hex_char((x as u32) as int % 16) == cs@[i + 5]);
                        assert(h1 == (x as u32) / 16 && h2 == (x as u32) % 16);
                        assert((x as u32) == v);
                        lemma_u8_char_code(v as u8, x);
                        assert(x == vc);
                        assert(acc@ =~= s0.subrange(0, pre.len() as int + 1));
                    }
                }
                i = i + 6;
            } else {
                proof {
                    assert forall|s0: Seq<char>| !str_fits(cs@, pos as int, s0) by {
                        if str_fits(cs@, pos as int, s0) {
                            assert(esc_head(cs@, i as int, acc@, s0));
                            let x = s0[acc@.len() as int];
                            let e = esc_char(x);
                            assert(cs@.subrange(i as int, i + e.len())[1] == cs@[i + 1]);
                        }
                    }
                }
                return None;
            }
        } else {
            if (c as u32) < 32 {
                proof {
                    assert forall|s0: Seq<char>| !str_fits(cs@, pos as int, s0) by {
                        if str_fits(cs@, pos as int, s0) {
                            assert(str_probe(cs@, pos as int, i as int, acc@, s0));
                            if acc@.len() == s0.len() {
                                assert(cs@[i as int] == '"');
                            } else {
                                let x = s0[acc@.len() as int];
                                let e = esc_char(x);
                                assert(cs@.subrange(i as int, i + e.len())[0] == cs@[i as int]);
                            }
                        }
                    }
                }
                return None;
            }
            let ghost pre = acc@;
            acc.push(c);
            proof {
                crate::canon::esc_snoc(pre, c);
                assert(esc_char(c) =~= seq![c]);
                assert(cs@.subrange(pos + 1, i + 1) =~= esc(pre) + seq![c]);
                assert forall|s0: Seq<char>|
                    str_fits(cs@, pos as int, s0) implies acc@.len() <= s0.len() && acc@
                    == s0.subrange(0, acc@.len() as int) by {
                    assert(str_probe(cs@, pos as int, i as int, pre, s0));
                    if pre.len() == s0.len() {
                        assert(cs@[i as int] == '"');
                    }
                    let x = s0[pre.len() as int];
                    let e = esc_char(x);
                    assert(cs@.subrange(i as int, i + e.len())[0] == cs@[i as int]);
                    assert(x == c);
                    assert(acc@ =~= s0.subrange(0, pre.len() as int + 1));
                }
            }
            i = i + 1;
        }
    }
}

/// Whether the character at `i` is a decimal digit.
fn is_digit_at(cs: &Vec<char>, i: usize) -> (r: bool)
    requires
        i < cs@.len(),
    ensures
        r == is_digit(cs@[i as int]),
{
    let u = cs[i] as u32;
    u >= 48 && u <= 57
}

/// Two decimal texts agree only on equal numbers.
proof fn lemma_dec_nat_unique(a: int, b: int)
    requires
        a >= 0,
        b >= 0,
        dec_nat(a) == dec_nat(b),
    ensures
        a == b,
{
    lemma_dec_nat_val(a);
    lemma_dec_nat_val(b);
}

/// Reads a canonical integer at `pos`: the digit run, consumed whole.
///
/// Besides reading back exactly what it consumed, the reader is complete:
/// where the text holds the canonical form of `v` followed by a non-digit,
/// it returns `v` and stops right after it.
#[verifier::loop_isolation(false)]
#[verifier::rlimit(100)]
#[verifier::spinoff_prover]
fn parse_int(cs: &Vec<char>, pos: usize) -> (r: Option<(i64, usize)>)
    requires
        pos < cs@.len(),
    ensures
        r matches Some((v, p)) ==> pos < p <= cs@.len() && cs@.subrange(pos as int, p as int)
            == dec_int(v as int),
        forall|v: i64|
            fits(cs@, pos as int, Val::Int(v as int)) && delimited(
                cs@,
                pos + ser(Val::Int(v as int)).len(),
            ) ==> r is Some && (r->0).0 == v && (r->0).1 as int == pos + ser(
                Val::Int(v as int),
            ).len(),
    decreases cs@.len() - pos,
{
    let n = cs.len();
    let neg = cs[pos] == '-';
    let dstart: usize = if neg {
        pos + 1
    } else {
        pos
    };
    proof {
        assert forall|v: i64|
            fits(cs@, pos as int, Val::Int(v as int)) && delimited(
                cs@,
                pos + ser(Val::Int(v as int)).len(),
            ) implies int_run_fits(cs@, pos as int, neg, dstart as int, v) by {
            int_fits_run(cs@, pos as int, neg, dstart as int, v);
        }
    }
    if dstart >= n {
        proof {
            no_fitting_int(cs@, pos as int, neg, dstart as int);
        }
        return None;
    }
    let c0 = cs[dstart];
    let u0 = c0 as u32;
    if u0 < 48 || u0 > 57 {
        proof {
            no_fitting_int(cs@, pos as int, neg, dstart as int);
        }
        return None;
    }
    let mut mag: u64 = (u0 - 48) as u64;
    let mut i: usize = dstart + 1;
    proof {
        lemma_digit_char_of(c0, mag as int);
        assert(cs@.subrange(dstart as int, i as int) =~= seq![c0]);
        assert(dec_nat(mag as int) =~= seq![digit_char(mag as int)]);
    }
    if mag > 0 {
        while i < n && is_digit_at(cs, i)
            invariant
                dstart < i <= cs@.len(),
                mag >= 1,
                cs@.subrange(dstart as int, i as int) == dec_nat(mag as int),
                forall|v: i64|
                    int_run_fits(cs@, pos as int, neg, dstart as int, v) ==> i <= dstart
                        + dec_nat(int_mag(v)).len(),
            decreases cs@.len() - i,
        {
            let c = cs[i];
            let u = c as u32;
            let d = (u - 48) as u64;
            proof {
                digit_run_step(cs@, pos as int, neg, dstart as int, i as int, mag as int);
            }
            if mag > (18446744073709551615u64 - d) / 10 {
                proof {
                    run_no_overflow(cs@, pos as int, neg, dstart as int, i as int, mag as int);
                    assert forall|v: i64|
                        !(fits(cs@, pos as int, Val::Int(v as int)) && delimited(
                            cs@,
                            pos + ser(Val::Int(v as int)).len(),
                        )) by {
                        if int_run_fits(cs@, pos as int, neg, dstart as int, v) {
                            assert(mag * 10 + ((cs@[i as int] as u32) - 48) <= int_mag(v));
                            assert(int_mag(v) <= 9223372036854775808int);
                        }
                    }
                }
                return None;
            }
            let ghost oldmag = mag as int;
            mag = mag * 10 + d;
            proof {
                lemma_dec_nat_snoc(oldmag, d as int);
                lemma_digit_char_of(c, d as int);
                assert(cs@.subrange(dstart as int, i + 1) =~= cs@.subrange(
                    dstart as int,
                    i as int,
                ) + seq![c]);
            }
            i = i + 1;
        }
    }
    proof {
        run_complete(cs@, pos as int, neg, dstart as int, i as int, mag as int);
    }
    if neg {
        if mag == 0 {
            proof {
                assert forall|v: i64|
                    !(fits(cs@, pos as int, Val::Int(v as int)) && delimited(
                        cs@,
                        pos + ser(Val::Int(v as int)).len(),
                    )) by {
                    if int_run_fits(cs@, pos as int, neg, dstart as int, v) {
                        assert(int_mag(v) == mag as int);
                    }
                }
            }
            return None;
        }
        if mag > 9223372036854775808u64 {
            proof {
                assert forall|v: i64|
                    !(fits(cs@, pos as int, Val::Int(v as int)) && delimited(
                        cs@,
                        pos + ser(Val::Int(v as int)).len(),
                    )) by {
                    if int_run_fits(cs@, pos as int, neg, dstart as int, v) {
                        assert(int_mag(v) == mag as int);
                        assert(int_mag(v) <= 9223372036854775808int);
                    }
                }
            }
            return None;
        }
        let v: i64 = if mag == 9223372036854775808u64 {
            -9223372036854775807i64 - 1
        } else {
            -(mag as i64)
        };
        proof {
            assert(cs@.subrange(pos as int, i as int) =~= seq!['-'] + cs@.subrange(
                dstart as int,
                i as int,
            ));
            assert(-(v as int) == mag as int);
            assert forall|v0: i64|
                fits(cs@, pos as int, Val::Int(v0 as int)) && delimited(
                    cs@,
                    pos + ser(Val::Int(v0 as int)).len(),
                ) implies v0 == v && i as int == pos + ser(Val::Int(v0 as int)).len() by {
                assert(int_run_fits(cs@, pos as int, neg, dstart as int, v0));
                assert(int_mag(v0) == mag as int);
                assert(v0 < 0);
                assert(ser(Val::Int(v0 as int)).len() == 1 + dec_nat(int_mag(v0)).len());
            }
        }
        Some((v, i))
    } else {
        if mag > 9223372036854775807u64 {
            proof {
                assert forall|v: i64|
                    !(fits(cs@, pos as int, Val::Int(v as int)) && delimited(
                        cs@,
                        pos + ser(Val::Int(v as int)).len(),
                    )) by {
                    if int_run_fits(cs@, pos as int, neg, dstart as int, v) {
                        assert(int_mag(v) == mag as int);
                        assert(v >= 0);
                        assert(int_mag(v) <= 9223372036854775807int);
                    }
                }
            }
            return None;
        }
        proof {
            assert forall|v0: i64|
                fits(cs@, pos as int, Val::Int(v0 as int)) && delimited(
                    cs@,
                    pos + ser(Val::Int(v0 as int)).len(),
                ) implies v0 == mag as i64 && i as int == pos + ser(
                Val::Int(v0 as int),
            ).len() by {
                assert(int_run_fits(cs@, pos as int, neg, dstart as int, v0));
                assert(int_mag(v0) == mag as int);
                assert(v0 >= 0);
                assert(ser(Val::Int(v0 as int)).len() == dec_nat(int_mag(v0)).len());
            }
        }
        Some((mag as i64, i))
    }
}

/// The magnitude of an integer, as a mathematical number.
pub open spec fn int_mag(v: i64) -> int {
    if v < 0 {
        -(v as int)
    } else {
        v as int
    }
}

/// The canonical form of `v` stands at `pos` with the sign the scan saw,
/// and a non-digit follows it.
pub open spec fn int_run_fits(cs: Seq<char>, pos: int, neg: bool, dstart: int, v: i64) -> bool {
    &&& fits(cs, pos, Val::Int(v as int))
    &&& delimited(cs, pos + ser(Val::Int(v as int)).len())
    &&& neg == (v < 0)
    &&& dstart == pos + (if v < 0 {
        1int
    } else {
        0int
    })
    &&& cs.subrange(dstart, dstart + dec_nat(int_mag(v)).len()) == dec_nat(int_mag(v))
    &&& delimited(cs, dstart + dec_nat(int_mag(v)).len())
    &&& dstart + dec_nat(int_mag(v)).len() <= cs.len()
}

/// Any fitting integer is a signed digit run: the scan's view agrees.
proof fn int_fits_run(cs: Seq<char>, pos: int, neg: bool, dstart: int, v: i64)
    requires
        0 <= pos < cs.len(),
        fits(cs, pos, Val::Int(v as int)),
        delimited(cs, pos + ser(Val::Int(v as int)).len()),
        neg == (cs[pos] == '-'),
        dstart == pos + (if neg {
            1int
        } else {
            0int
        }),
    ensures
        int_run_fits(cs, pos, neg, dstart, v),
{
    let sv = ser(Val::Int(v as int));
    lemma_dec_nat_digits(int_mag(v));
    lemma_dec_nat_val(int_mag(v));
    if v < 0 {
        assert(sv == seq!['-'] + dec_nat(int_mag(v)));
        assert(cs[pos] == sv[0]);
        assert(sv[0] == '-');
        assert(cs.subrange(dstart, dstart + dec_nat(int_mag(v)).len()) =~= sv.subrange(
            1,
            sv.len() as int,
        ));
        assert(sv.subrange(1, sv.len() as int) =~= dec_nat(int_mag(v)));
    } else {
        assert(sv == dec_nat(int_mag(v)));
        assert(cs[pos] == sv[0]);
        assert(is_digit(sv[0]));
        assert(('-' as u32) == 45) by {
            assert(((45u8) as char) as u32 == 45);
            lemma_u8_char_code(45u8, '-');
        }
        assert(cs[pos] != '-');
        assert(cs.subrange(dstart, dstart + dec_nat(int_mag(v)).len()) =~= sv);
    }
}

/// When the scan finds no digit where one would have to stand, nothing
/// fits.
proof fn no_fitting_int(cs: Seq<char>, pos: int, neg: bool, dstart: int)
    requires
        0 <= pos < cs.len(),
        neg == (cs[pos] == '-'),
        dstart == pos + (if neg {
            1int
        } else {
            0int
        }),
        dstart >= cs.len() || !is_digit(cs[dstart]),
    ensures
        forall|v: i64|
            !(fits(cs, pos, Val::Int(v as int)) && delimited(
                cs,
                pos + ser(Val::Int(v as int)).len(),
            )),
{
    assert forall|v: i64|
        !(fits(cs, pos, Val::Int(v as int)) && delimited(
            cs,
            pos + ser(Val::Int(v as int)).len(),
        )) by {
        if fits(cs, pos, Val::Int(v as int)) && delimited(
            cs,
            pos + ser(Val::Int(v as int)).len(),
        ) {
            int_fits_run(cs, pos, neg, dstart, v);
            lemma_dec_nat_digits(int_mag(v));
            lemma_dec_nat_val(int_mag(v));
            assert(cs.subrange(dstart, dstart + dec_nat(int_mag(v)).len())[0] == cs[dstart]);
        }
    }
}

/// Inside the run, a fitting integer still has digits to give: the scan
/// index stays within its text.
proof fn digit_run_step(cs: Seq<char>, pos: int, neg: bool, dstart: int, i: int, mag: int)
    requires
        0 <= pos <= dstart < i <= cs.len(),
        i < cs.len(),
        is_digit(cs[i]),
        mag >= 1,
        cs.subrange(dstart, i) == dec_nat(mag),
        forall|v: i64|
            int_run_fits(cs, pos, neg, dstart, v) ==> i <= dstart + dec_nat(int_mag(v)).len(),
    ensures
        forall|v: i64|
            int_run_fits(cs, pos, neg, dstart, v) ==> i + 1 <= dstart + dec_nat(
                int_mag(v),
            ).len(),
{
    assert forall|v: i64| int_run_fits(cs, pos, neg, dstart, v) implies i + 1 <= dstart
        + dec_nat(int_mag(v)).len() by {
        if i == dstart + dec_nat(int_mag(v)).len() {
            assert(!is_digit(cs[i]));
        }
    }
}

/// Under a fitting integer, the accumulated magnitude cannot overflow.
proof fn run_no_overflow(cs: Seq<char>, pos: int, neg: bool, dstart: int, i: int, mag: int)
    requires
        0 <= pos <= dstart < i <= cs.len(),
        i < cs.len(),
        is_digit(cs[i]),
        mag >= 1,
        cs.subrange(dstart, i) == dec_nat(mag),
        forall|v: i64|
            int_run_fits(cs, pos, neg, dstart, v) ==> i + 1 <= dstart + dec_nat(
                int_mag(v),
            ).len(),
    ensures
        forall|v: i64|
            int_run_fits(cs, pos, neg, dstart, v) ==> mag * 10 + ((cs[i] as u32) - 48)
                <= int_mag(v),
{
    assert forall|v: i64| int_run_fits(cs, pos, neg, dstart, v) implies mag * 10
        + ((cs[i] as u32) - 48) <= int_mag(v) by {
        let dd = dec_nat(int_mag(v));
        lemma_dec_nat_digits(int_mag(v));
        lemma_dec_nat_val(int_mag(v));
        let k = i - dstart;
        assert(cs.subrange(dstart, i) =~= dd.subrange(0, k));
        lemma_dec_nat_val(mag);
        lemma_digits_val_prefix(dd, k + 1);
        let b = dd.subrange(0, k + 1);
        assert(b.drop_last() =~= dd.subrange(0, k));
        assert(b.last() == dd[k]);
        assert(dd[k] == cs[i]) by {
            assert(cs.subrange(dstart, dstart + dd.len())[k] == cs[dstart + k]);
        }
        assert(digits_val(b) == digits_val(dd.subrange(0, k)) * 10 + ((cs[i] as u32) - 48));
        assert(digits_val(dd.subrange(0, k)) == mag);
    }
}

/// When the run stops, the accumulated magnitude of a fitting integer is
/// the whole of it.
proof fn run_complete(cs: Seq<char>, pos: int, neg: bool, dstart: int, i: int, mag: int)
    requires
        0 <= pos <= dstart < i <= cs.len(),
        mag == 0 || i >= cs.len() || !is_digit(cs[i]),
        mag >= 0,
        mag >= 1 || i == dstart + 1,
        cs.subrange(dstart, i) == dec_nat(mag),
        forall|v: i64|
            int_run_fits(cs, pos, neg, dstart, v) ==> i <= dstart + dec_nat(int_mag(v)).len(),
    ensures
        forall|v: i64|
            int_run_fits(cs, pos, neg, dstart, v) ==> int_mag(v) == mag && i == dstart
                + dec_nat(int_mag(v)).len(),
{
    assert forall|v: i64| int_run_fits(cs, pos, neg, dstart, v) implies int_mag(v) == mag && i
        == dstart + dec_nat(int_mag(v)).len() by {
        let dd = dec_nat(int_mag(v));
        lemma_dec_nat_digits(int_mag(v));
        lemma_dec_nat_val(int_mag(v));
        lemma_dec_nat_val(mag);
        if mag == 0 {
            // A zero starts the run, so the fitting number is zero too.
            assert(cs.subrange(dstart, i) =~= seq![digit_char(0)]);
            assert(cs[dstart] == digit_char(0));
            assert(dd[0] == cs[dstart]) by {
                assert(cs.subrange(dstart, dstart + dd.len())[0] == cs[dstart]);
            }
            lemma_digit_char_code(0);
            if int_mag(v) >= 1 {
                assert(dd[0] != '0');
                assert(('0' as u32) == 48);
                assert((dd[0] as u32) == 48);
                assert(dd[0] == '0') by {
                    lemma_u8_char_code(48u8, dd[0]);
                }
            }
            assert(int_mag(v) == 0);
            assert(dd =~= cs.subrange(dstart, i));
        } else {
            if i < dstart + dd.len() {
                assert(cs[i] == dd[i - dstart]) by {
                    assert(cs.subrange(dstart, dstart + dd.len())[i - dstart] == cs[i]);
                }
                assert(is_digit(dd[i - dstart]));
                assert(i < cs.len());
            }
            assert(i == dstart + dd.len());
            assert(cs.subrange(dstart, i) =~= dd);
            lemma_dec_nat_unique(mag, int_mag(v));
        }
    }
}

/// The code points of the structural characters.
proof fn lemma_token_codes()
    ensures
        ('n' as u32) == 110,
        ('u' as u32) == 117,
        ('l' as u32) == 108,
        ('t' as u32) == 116,
        ('r' as u32) == 114,
        ('e' as u32) == 101,
        ('f' as u32) == 102,
        ('a' as u32) == 97,
        ('s' as u32) == 115,
        ('"' as u32) == 34,
        ('[' as u32) == 91,
        (']' as u32) == 93,
        ('{' as u32) == 123,
        ('}' as u32) == 125,
        (',' as u32) == 44,
        (':' as u32) == 58,
        ('-' as u32) == 45,
{
    assert(((110u8) as char) as u32 == 110);
    lemma_u8_char_code(110u8, 'n');
    assert(((117u8) as char) as u32 == 117);
    lemma_u8_char_code(117u8, 'u');
    assert(((108u8) as char) as u32 == 108);
    lemma_u8_char_code(108u8, 'l');
    assert(((116u8) as char) as u32 == 116);
    lemma_u8_char_code(116u8, 't');
    assert(((114u8) as char) as u32 == 114);
    lemma_u8_char_code(114u8, 'r');
    assert(((101u8) as char) as u32 == 101);
    lemma_u8_char_code(101u8, 'e');
    assert(((102u8) as char) as u32 == 102);
    lemma_u8_char_code(102u8, 'f');
    assert(((97u8) as char) as u32 == 97);
    lemma_u8_char_code(97u8, 'a');
    assert(((115u8) as char) as u32 == 115);
    lemma_u8_char_code(115u8, 's');
    assert(((34u8) as char) as u32 == 34);
    lemma_u8_char_code(34u8, '"');
    assert(((91u8) as char) as u32 == 91);
    lemma_u8_char_code(91u8, '[');
    assert(((93u8) as char) as u32 == 93);
    lemma_u8_char_code(93u8, ']');
    assert(((123u8) as char) as u32 == 123);
    lemma_u8_char_code(123u8, '{');
    assert(((125u8) as char) as u32 == 125);
    lemma_u8_char_code(125u8, '}');
    assert(((44u8) as char) as u32 == 44);
    lemma_u8_char_code(44u8, ',');
    assert(((58u8) as char) as u32 == 58);
    lemma_u8_char_code(58u8, ':');
    assert(((45u8) as char) as u32 == 45);
    lemma_u8_char_code(45u8, '-');
}

/// The first character of a canonical text names its shape.
proof fn lemma_ser_head(m: Val)
    ensures
        m is Null ==> ser(m)[0] == 'n',
        m is Bool ==> (m->Bool_0 ==> ser(m)[0] == 't') && (!m->Bool_0 ==> ser(m)[0] == 'f'),
        m is Int ==> ser(m)[0] == '-' || is_digit(ser(m)[0]),
        m is Str ==> ser(m)[0] == '"',
        m is Arr ==> ser(m)[0] == '[',
        m is Obj ==> ser(m)[0] == '{',
        ser(m).len() > 0,
{
    lemma_ser_nonempty(m);
    match m {
        Val::Int(i) => {
            if i < 0 {
            } else {
                lemma_dec_nat_digits(i);
                lemma_dec_nat_nonempty(i);
            }
        },
        _ => {},
    }
}

/// A canonical text fits at `pos` with a delimiter after it.
pub open spec fn val_fits(cs: Seq<char>, pos: int, m: Val) -> bool {
    &&& wf_val(m)
    &&& fits(cs, pos, m)
    &&& delimited(cs, pos + ser(m).len())
}

/// The text of an element list splits around its `k`-th member.
proof fn lemma_ser_list_decomp(items: Seq<Val>, k: int)
    requires
        0 <= k < items.len(),
    ensures
        ser_list(items) =~= ser_list(items.subrange(0, k)) + (if k > 0 {
            seq![',']
        } else {
            Seq::<char>::empty()
        }) + ser(items[k]) + (if k < items.len() - 1 {
            seq![','] + ser_list(items.subrange(k + 1, items.len() as int))
        } else {
            Seq::<char>::empty()
        }),
    decreases k,
{
    if k == 0 {
        assert(items.subrange(0, 0) =~= Seq::<Val>::empty());
        if items.len() == 1 {
        } else {
            assert(items.subrange(1, items.len() as int).len() > 0);
        }
    } else {
        let rest = items.subrange(1, items.len() as int);
        lemma_ser_list_decomp(rest, k - 1);
        assert(rest[k - 1] == items[k]);
        assert(rest.subrange(0, k - 1) =~= items.subrange(1, k));
        assert(rest.subrange(k, rest.len() as int) =~= items.subrange(k + 1, items.len() as int));
        assert(items.len() >= 2);
        assert(ser_list(items) == ser(items[0]) + seq![','] + ser_list(rest));
        let pre = items.subrange(0, k);
        assert(pre[0] == items[0]);
        assert(pre.subrange(1, pre.len() as int) =~= items.subrange(1, k));
        if k == 1 {
            assert(pre.len() == 1);
            assert(ser_list(pre) == ser(items[0]));
        } else {
            assert(ser_list(pre) == ser(items[0]) + seq![','] + ser_list(
                items.subrange(1, k),
            ));
        }
    }
}

/// The text of a field list splits around its `k`-th field.
proof fn lemma_ser_fields_decomp(fs: Seq<(Seq<char>, Val)>, k: int)
    requires
        0 <= k < fs.len(),
    ensures
        ser_fields(fs) =~= ser_fields(fs.subrange(0, k)) + (if k > 0 {
            seq![',']
        } else {
            Seq::<char>::empty()
        }) + quoted(fs[k].0) + seq![':'] + ser(fs[k].1) + (if k < fs.len() - 1 {
            seq![','] + ser_fields(fs.subrange(k + 1, fs.len() as int))
        } else {
            Seq::<char>::empty()
        }),
    decreases k,
{
    if k == 0 {
        assert(fs.subrange(0, 0) =~= Seq::<(Seq<char>, Val)>::empty());
        if fs.len() == 1 {
        } else {
            assert(fs.subrange(1, fs.len() as int).len() > 0);
        }
    } else {
        let rest = fs.subrange(1, fs.len() as int);
        lemma_ser_fields_decomp(rest, k - 1);
        assert(rest[k - 1] == fs[k]);
        assert(rest.subrange(0, k - 1) =~= fs.subrange(1, k));
        assert(rest.subrange(k, rest.len() as int) =~= fs.subrange(k + 1, fs.len() as int));
        assert(fs.len() >= 2);
        assert(ser_fields(fs) == quoted(fs[0].0) + seq![':'] + ser(fs[0].1) + seq![',']
            + ser_fields(rest));
        let pre = fs.subrange(0, k);
        assert(pre[0] == fs[0]);
        assert(pre.subrange(1, pre.len() as int) =~= fs.subrange(1, k));
        if k == 1 {
            assert(pre.len() == 1);
            assert(ser_fields(pre) == quoted(fs[0].0) + seq![':'] + ser(fs[0].1));
        } else {
            assert(ser_fields(pre) == quoted(fs[0].0) + seq![':'] + ser(fs[0].1) + seq![',']
                + ser_fields(fs.subrange(1, k)));
        }
    }
}

/// Every character of a fitting text can be read off its serialization.
proof fn lemma_fits_chars(cs: Seq<char>, pos: int, m: Val)
    requires
        fits(cs, pos, m),
    ensures
        forall|j: int| 0 <= j < ser(m).len() ==> cs[pos + j] == #[trigger] ser(m)[j],
{
    assert forall|j: int| 0 <= j < ser(m).len() implies cs[pos + j] == #[trigger] ser(m)[j] by {
        assert(cs.subrange(pos, pos + ser(m).len())[j] == cs[pos + j]);
    }
}

/// Where the scan stands inside a fitting array: at its `k`-th element,
/// which fits there with a comma or the closing bracket after it.
proof fn lemma_arr_step(cs: Seq<char>, pos: int, i: int, k: int, m: Val)
    requires
        val_fits(cs, pos, m),
        m is Arr,
        0 <= k < m->Arr_0.len(),
        i == pos + 1 + ser_list(m->Arr_0.subrange(0, k)).len() + (if k > 0 {
            1int
        } else {
            0int
        }),
    ensures
        ({
            let items = m->Arr_0;
            let e = ser(items[k]);
            &&& val_fits(cs, i, items[k])
            &&& i + e.len() < cs.len()
            &&& (k < items.len() - 1 ==> cs[i + e.len()] == ',')
            &&& (k == items.len() - 1 ==> cs[i + e.len()] == ']' && i + e.len() + 1 == pos + ser(
                m,
            ).len())
        }),
{
    lemma_token_codes();
    let items = m->Arr_0;
    let e = ser(items[k]);
    lemma_ser_list_decomp(items, k);
    lemma_fits_chars(cs, pos, m);
    let sl = ser_list(items);
    assert(ser(m) == seq!['['] + sl + seq![']']);
    let off = 1 + ser_list(items.subrange(0, k)).len() + (if k > 0 {
        1int
    } else {
        0int
    });
    assert(i == pos + off);
    assert forall|j: int| 0 <= j < e.len() implies cs.subrange(i, i + e.len())[j] == e[j] by {
        assert(cs.subrange(i, i + e.len())[j] == cs[i + j]);
        assert(cs[i + j] == ser(m)[off + j - 1 + 1]);
        assert(ser(m)[off + j] == sl[off + j - 1]);
        assert(sl[off - 1 + j] == e[j]);
    }
    assert(cs.subrange(i, i + e.len()) =~= e);
    assert(wf_val(items[k])) by {
        assert(wf_val(m));
    }
    if k < items.len() - 1 {
        assert(sl[off - 1 + e.len()] == ',');
        assert(cs[i + e.len()] == ser(m)[off + e.len()]);
        assert(!is_digit(','));
    } else {
        assert(off - 1 + e.len() == sl.len());
        assert(ser(m)[1 + sl.len() as int] == ']');
        assert(cs[i + e.len()] == ser(m)[off + e.len()]);
        assert(!is_digit(']'));
    }
    assert(pos + ser(m).len() <= cs.len());
}

/// Where the scan stands inside a fitting object: at its `k`-th key.
proof fn lemma_obj_step(cs: Seq<char>, pos: int, i: int, k: int, m: Val)
    requires
        val_fits(cs, pos, m),
        m is Obj,
        0 <= k < m->Obj_0.len(),
        i == pos + 1 + ser_fields(m->Obj_0.subrange(0, k)).len() + (if k > 0 {
            1int
        } else {
            0int
        }),
    ensures
        ({
            let fs = m->Obj_0;
            let q = quoted(fs[k].0);
            let e = ser(fs[k].1);
            &&& str_fits(cs, i, fs[k].0)
            &&& cs[i + q.len()] == ':'
            &&& val_fits(cs, i + q.len() + 1, fs[k].1)
            &&& i + q.len() + 1 + e.len() < cs.len()
            &&& (k < fs.len() - 1 ==> cs[i + q.len() + 1 + e.len()] == ',')
            &&& (k == fs.len() - 1 ==> cs[i + q.len() + 1 + e.len()] == '}' && i + q.len() + 1
                + e.len() + 1 == pos + ser(m).len())
        }),
{
    lemma_token_codes();
    let fs = m->Obj_0;
    let q = quoted(fs[k].0);
    let e = ser(fs[k].1);
    lemma_ser_fields_decomp(fs, k);
    lemma_fits_chars(cs, pos, m);
    let sl = ser_fields(fs);
    assert(ser(m) == seq!['{'] + sl + seq!['}']);
    let off = 1 + ser_fields(fs.subrange(0, k)).len() + (if k > 0 {
        1int
    } else {
        0int
    });
    assert(i == pos + off);
    assert forall|j: int| 0 <= j < q.len() implies cs.subrange(i, i + q.len())[j] == q[j] by {
        assert(cs.subrange(i, i + q.len())[j] == cs[i + j]);
        assert(cs[i + j] == ser(m)[off + j]);
        assert(ser(m)[off + j] == sl[off + j - 1]);
        assert(sl[off - 1 + j] == q[j]);
    }
    assert(cs.subrange(i, i + q.len()) =~= q);
    assert(sl[off - 1 + q.len()] == ':');
    assert(cs[i + q.len()] == ser(m)[off + q.len()]);
    let vstart = i + q.len() + 1;
    assert forall|j: int| 0 <= j < e.len() implies cs.subrange(vstart, vstart + e.len())[j]
        == e[j] by {
        assert(cs.subrange(vstart, vstart + e.len())[j] == cs[vstart + j]);
        assert(cs[vstart + j] == ser(m)[off + q.len() + 1 + j]);
        assert(ser(m)[off + q.len() + 1 + j] == sl[off + q.len() + j]);
        assert(sl[off - 1 + q.len() + 1 + j] == e[j]);
    }
    assert(cs.subrange(vstart, vstart + e.len()) =~= e);
    assert(wf_val(fs[k].1)) by {
        assert(wf_val(m));
    }
    if k < fs.len() - 1 {
        assert(sl[off - 1 + q.len() + 1 + e.len()] == ',');
        assert(cs[vstart + e.len()] == ser(m)[off + q.len() + 1 + e.len()]);
        assert(!is_digit(','));
    } else {
        assert(off - 1 + q.len() + 1 + e.len() == sl.len());
        assert(ser(m)[1 + sl.len() as int] == '}');
        assert(cs[vstart + e.len()] == ser(m)[off + q.len() + 1 + e.len()]);
        assert(!is_digit('}'));
    }
    assert(pos + ser(m).len() <= cs.len());
}

/// Reads a canonical array at `pos`; where the text holds the canonical
/// form of some array, the reader returns exactly that array.
#[verifier::loop_isolation(false)]
#[verifier::rlimit(100)]
#[verifier::spinoff_prover]
fn parse_array(cs: &Vec<char>, pos: usize) -> (r: Option<(Value, usize)>)
    requires
        pos < cs@.len(),
        cs@[pos as int] == '[',
    ensures
        r matches Some((v, p)) ==> pos < p <= cs@.len() && wf_val(v@) && cs@.subrange(
            pos as int,
            p as int,
        ) == ser(v@),
        forall|m: Val|
            val_fits(cs@, pos as int, m) ==> r is Some && (r->0).0@ == m && (r->0).1 as int
                == pos + ser(m).len(),
    decreases cs@.len() - pos, 0int,
{
    let n = cs.len();
    proof {
        lemma_token_codes();
        assert forall|m: Val| val_fits(cs@, pos as int, m) implies m is Arr by {
            lemma_ser_head(m);
            lemma_fits_chars(cs@, pos as int, m);
        }
        assert forall|m: Val|
            val_fits(cs@, pos as int, m) && m->Arr_0.len() > 0 implies cs@[pos + 1] != ']'
            && pos + 1 < cs@.len() by {
            lemma_arr_step(cs@, pos as int, pos + 1, 0, m);
            let e = ser(m->Arr_0[0]);
            assert(cs@.subrange(pos + 1, pos + 1 + e.len())[0] == cs@[pos + 1]);
            lemma_ser_head(m->Arr_0[0]);
        }
    }
    let mut elems: Vec<Value> = Vec::new();
    let mut i: usize = pos + 1;
    if i < n && cs[i] == ']' {
        proof {
            assert(cs@.subrange(pos as int, pos + 2) =~= seq!['['] + ser_list(
                view_arr(elems@),
            ) + seq![']']);
            assert forall|m: Val| val_fits(cs@, pos as int, m) implies Value::Arr(elems)@ == m
                && pos + 2 == pos + ser(m).len() by {
                assert(m->Arr_0.len() == 0);
                assert(m->Arr_0 =~= view_arr(elems@));
            }
        }
        return Some((Value::Arr(elems), pos + 2));
    }
    proof {
        assert forall|m: Val| val_fits(cs@, pos as int, m) implies m->Arr_0.len() > 0 by {
            if m->Arr_0.len() == 0 {
                assert(ser_list(m->Arr_0) =~= Seq::<char>::empty());
                lemma_fits_chars(cs@, pos as int, m);
                assert(cs@[pos + 1] == ser(m)[1]);
            }
        }
        assert(view_arr(elems@) =~= Seq::<Val>::empty());
        assert forall|m: Val| val_fits(cs@, pos as int, m) implies arr_scan(
            view_arr(elems@),
            i as int,
            pos as int,
            m,
        ) by {
            assert(m->Arr_0.subrange(0, 0) =~= Seq::<Val>::empty());
            assert(view_arr(elems@) =~= m->Arr_0.subrange(0, 0));
            assert(ser_list(m->Arr_0.subrange(0, 0)) =~= Seq::<char>::empty());
        }
    }
    loop
        invariant
            pos < i <= cs@.len(),
            elems@.len() == 0 ==> i == pos + 1,
            elems@.len() > 0 ==> cs@.subrange(pos + 1, i as int) == ser_list(
                view_arr(elems@),
            ) + seq![','],
            forall|j: int| 0 <= j < elems@.len() ==> wf_val((#[trigger] elems@[j])@),
            forall|m: Val|
                val_fits(cs@, pos as int, m) ==> #[trigger] arr_scan(
                    view_arr(elems@),
                    i as int,
                    pos as int,
                    m,
                ),
        decreases cs@.len() - i,
    {
        let ghost pre = elems@;
        proof {
            crate::value::view_arr_len(pre);
            assert forall|m: Val| val_fits(cs@, pos as int, m) implies arr_probe(
                cs@,
                pos as int,
                i as int,
                pre.len() as int,
                m,
            ) by {
                assert(arr_scan(view_arr(pre), i as int, pos as int, m));
                lemma_arr_step(cs@, pos as int, i as int, pre.len() as int, m);
            }
        }
        let (v, p) = match parse_value(cs, i) {
            Some(x) => x,
            None => {
                proof {
                    assert forall|m: Val| !val_fits(cs@, pos as int, m) by {
                        if val_fits(cs@, pos as int, m) {
                            assert(arr_probe(cs@, pos as int, i as int, pre.len() as int, m));
                        }
                    }
                }
                return None;
            },
        };
        elems.push(v);
        proof {
            crate::value::view_arr_push(pre, elems@.last());
            crate::canon::ser_list_snoc(view_arr(pre), elems@.last()@);
            if pre.len() == 0 {
                assert(cs@.subrange(pos + 1, p as int) =~= ser(elems@.last()@));
            } else {
                assert(cs@.subrange(pos + 1, p as int) =~= cs@.subrange(pos + 1, i as int)
                    + cs@.subrange(i as int, p as int));
            }
            assert(cs@.subrange(pos + 1, p as int) == ser_list(view_arr(elems@)));
            crate::value::view_arr_len(pre);
            assert forall|m: Val|
                val_fits(cs@, pos as int, m) implies view_arr(elems@) == m->Arr_0.subrange(
                0,
                pre.len() as int + 1,
            ) && p as int == i + ser(m->Arr_0[pre.len() as int]).len() by {
                assert(arr_probe(cs@, pos as int, i as int, pre.len() as int, m));
                assert(arr_scan(view_arr(pre), i as int, pos as int, m));
                let k = pre.len() as int;
                assert(elems@.last()@ == m->Arr_0[k]);
                assert(view_arr(elems@) =~= view_arr(pre).push(m->Arr_0[k]));
                assert(m->Arr_0.subrange(0, k + 1)[k] == m->Arr_0[k]);
                assert(view_arr(pre).push(m->Arr_0[k]) =~= m->Arr_0.subrange(0, k + 1));
            }
        }
        if p >= n {
            proof {
                assert forall|m: Val| !val_fits(cs@, pos as int, m) by {
                    if val_fits(cs@, pos as int, m) {
                        assert(arr_probe(cs@, pos as int, i as int, pre.len() as int, m));
                    }
                }
            }
            return None;
        }
        let t = cs[p];
        if t == ']' {
            proof {
                assert(cs@.subrange(pos as int, p + 1) =~= seq!['['] + ser_list(
                    view_arr(elems@),
                ) + seq![']']);
                crate::value::view_arr_len(elems@);
                assert forall|j: int| 0 <= j < view_arr(elems@).len() implies wf_val(
                    #[trigger] view_arr(elems@)[j],
                ) by {
                    crate::value::view_arr_index(elems@, j);
                }
                assert forall|m: Val| val_fits(cs@, pos as int, m) implies Value::Arr(elems)@
                    == m && p + 1 == pos + ser(m).len() by {
                    assert(arr_probe(cs@, pos as int, i as int, pre.len() as int, m));
                    let items = m->Arr_0;
                    let k = pre.len() as int;
                    if k < items.len() - 1 {
                        assert(cs@[p as int] == ',');
                    }
                    assert(k == items.len() - 1);
                    assert(view_arr(elems@) =~= items);
                }
            }
            return Some((Value::Arr(elems), p + 1));
        }
        if t != ',' {
            proof {
                assert forall|m: Val| !val_fits(cs@, pos as int, m) by {
                    if val_fits(cs@, pos as int, m) {
                        assert(arr_probe(cs@, pos as int, i as int, pre.len() as int, m));
                    }
                }
            }
            return None;
        }
        proof {
            assert(cs@.subrange(pos + 1, p + 1) =~= ser_list(view_arr(elems@)) + seq![',']);
            assert forall|m: Val| val_fits(cs@, pos as int, m) implies arr_scan(
                view_arr(elems@),
                p + 1,
                pos as int,
                m,
            ) by {
                assert(arr_probe(cs@, pos as int, i as int, pre.len() as int, m));
                let items = m->Arr_0;
                let k = pre.len() as int;
                if k == items.len() - 1 {
                    assert(cs@[p as int] == ']');
                }
                assert(view_arr(elems@) =~= items.subrange(0, k + 1));
                assert(items.subrange(0, k + 1).drop_last() =~= items.subrange(0, k));
                crate::canon::ser_list_snoc(items.subrange(0, k), items[k]);
                assert(items.subrange(0, k).push(items[k]) =~= items.subrange(0, k + 1));
            }
        }
        i = p + 1;
    }
}

/// Where the element scan stands for a fitting array.
pub open spec fn arr_scan(got: Seq<Val>, i: int, pos: int, m: Val) -> bool {
    &&& m is Arr
    &&& got.len() < m->Arr_0.len()
    &&& got == m->Arr_0.subrange(0, got.len() as int)
    &&& i == pos + 1 + ser_list(m->Arr_0.subrange(0, got.len() as int)).len() + (if got.len()
        > 0 {
        1int
    } else {
        0int
    })
}

/// What `lemma_arr_step` says of the element about to be read.
pub open spec fn arr_probe(cs: Seq<char>, pos: int, i: int, k: int, m: Val) -> bool {
    &&& m is Arr
    &&& 0 <= k < m->Arr_0.len()
    &&& val_fits(cs, i, m->Arr_0[k])
    &&& i + ser(m->Arr_0[k]).len() < cs.len()
    &&& (k < m->Arr_0.len() - 1 ==> cs[i + ser(m->Arr_0[k]).len()] == ',')
    &&& (k == m->Arr_0.len() - 1 ==> cs[i + ser(m->Arr_0[k]).len()] == ']' && i + ser(
        m->Arr_0[k],
    ).len() + 1 == pos + ser(m).len())
}

/// A `"key":value` pair stands at `pos`.
pub open spec fn field_fits(cs: Seq<char>, pos: int, k0: Seq<char>, v0: Val) -> bool {
    &&& str_fits(cs, pos, k0)
    &&& pos + quoted(k0).len() < cs.len()
    &&& cs[pos + quoted(k0).len()] == ':'
    &&& val_fits(cs, pos + quoted(k0).len() + 1, v0)
}

/// Reads one `"key":value` pair at `pos`; where the text holds one, the
/// reader returns exactly it.
#[verifier::loop_isolation(false)]
#[verifier::rlimit(100)]
#[verifier::spinoff_prover]
fn parse_field(cs: &Vec<char>, pos: usize) -> (r: Option<(String, Value, usize)>)
    requires
        pos < cs@.len(),
    ensures
        r matches Some((key, v, p)) ==> pos < p <= cs@.len() && wf_val(v@) && cs@.subrange(
            pos as int,
            p as int,
        ) == quoted(key@) + seq![':'] + ser(v@),
        forall|k0: Seq<char>, v0: Val|
            #[trigger] field_fits(cs@, pos as int, k0, v0) ==> r is Some && (r->0).0@ == k0 && (
            r->0).1@ == v0 && (r->0).2 as int == pos + quoted(k0).len() + 1 + ser(v0).len(),
    decreases cs@.len() - pos, 2int,
{
    proof {
        lemma_token_codes();
    }
    let n = cs.len();
    let (key, kp) = match parse_string(cs, pos) {
        Some(x) => x,
        None => {
            return None;
        },
    };
    if kp >= n {
        return None;
    }
    if cs[kp] != ':' {
        return None;
    }
    let (v, p) = match parse_value(cs, kp + 1) {
        Some(x) => x,
        None => {
            return None;
        },
    };
    proof {
        assert(cs@.subrange(pos as int, p as int) =~= cs@.subrange(pos as int, kp as int)
            + seq![':'] + cs@.subrange(kp + 1, p as int));
    }
    Some((key, v, p))
}

/// Where the field scan stands for a fitting object.
pub open spec fn obj_scan(got: Seq<(Seq<char>, Val)>, i: int, pos: int, m: Val) -> bool {
    &&& m is Obj
    &&& got.len() < m->Obj_0.len()
    &&& got == m->Obj_0.subrange(0, got.len() as int)
    &&& i == pos + 1 + ser_fields(m->Obj_0.subrange(0, got.len() as int)).len() + (if got.len()
        > 0 {
        1int
    } else {
        0int
    })
}

/// What `lemma_obj_step` says of the field about to be read.
pub open spec fn obj_probe(cs: Seq<char>, pos: int, i: int, k: int, m: Val) -> bool {
    &&& m is Obj
    &&& 0 <= k < m->Obj_0.len()
    &&& field_fits(cs, i, m->Obj_0[k].0, m->Obj_0[k].1)
    &&& i + quoted(m->Obj_0[k].0).len() + 1 + ser(m->Obj_0[k].1).len() < cs.len()
    &&& (k < m->Obj_0.len() - 1 ==> cs[i + quoted(m->Obj_0[k].0).len() + 1 + ser(
        m->Obj_0[k].1,
    ).len()] == ',')
    &&& (k == m->Obj_0.len() - 1 ==> cs[i + quoted(m->Obj_0[k].0).len() + 1 + ser(
        m->Obj_0[k].1,
    ).len()] == '}' && i + quoted(m->Obj_0[k].0).len() + 1 + ser(m->Obj_0[k].1).len() + 1 == pos
        + ser(m).len())
}

/// The scan's view of every fitting object, at its `k`-th field.
proof fn lemma_obj_probe_all(cs: Seq<char>, pos: int, i: int, got: Seq<(Seq<char>, Val)>)
    requires
        forall|m: Val| val_fits(cs, pos, m) ==> #[trigger] obj_scan(got, i, pos, m),
    ensures
        forall|m: Val|
            val_fits(cs, pos, m) ==> #[trigger] obj_probe(cs, pos, i, got.len() as int, m),
{
    assert forall|m: Val| val_fits(cs, pos, m) implies #[trigger] obj_probe(
        cs,
        pos,
        i,
        got.len() as int,
        m,
    ) by {
        assert(obj_scan(got, i, pos, m));
        lemma_obj_step(cs, pos, i, got.len() as int, m);
    }
}

/// Reads a canonical object at `pos`; keys must come strictly sorted.
/// Where the text holds the canonical form of some object, the reader
/// returns exactly that object.
#[verifier::loop_isolation(false)]
#[verifier::rlimit(100)]
#[verifier::spinoff_prover]
fn parse_object(cs: &Vec<char>, pos: usize) -> (r: Option<(Value, usize)>)
    requires
        pos < cs@.len(),
        cs@[pos as int] == '{',
    ensures
        r matches Some((v, p)) ==> pos < p <= cs@.len() && wf_val(v@) && cs@.subrange(
            pos as int,
            p as int,
        ) == ser(v@),
        forall|m: Val|
            val_fits(cs@, pos as int, m) ==> r is Some && (r->0).0@ == m && (r->0).1 as int
                == pos + ser(m).len(),
    decreases cs@.len() - pos, 0int,
{
    let n = cs.len();
    proof {
        lemma_token_codes();
        assert forall|m: Val| val_fits(cs@, pos as int, m) implies m is Obj by {
            lemma_ser_head(m);
            lemma_fits_chars(cs@, pos as int, m);
        }
        assert forall|m: Val|
            val_fits(cs@, pos as int, m) && m->Obj_0.len() > 0 implies cs@[pos + 1] != '}'
            && pos + 1 < cs@.len() by {
            lemma_obj_step(cs@, pos as int, pos + 1, 0, m);
            let q = quoted(m->Obj_0[0].0);
            assert(cs@.subrange(pos + 1, pos + 1 + q.len())[0] == cs@[pos + 1]);
            assert(q[0] == '"');
        }
    }
    let mut fields: Vec<(String, Value)> = Vec::new();
    let mut i: usize = pos + 1;
    if i < n && cs[i] == '}' {
        proof {
            assert(cs@.subrange(pos as int, pos + 2) =~= seq!['{'] + ser_fields(
                view_fields(fields@),
            ) + seq!['}']);
            assert forall|m: Val| val_fits(cs@, pos as int, m) implies Value::Obj(fields)@ == m
                && pos + 2 == pos + ser(m).len() by {
                assert(m->Obj_0.len() == 0);
                assert(m->Obj_0 =~= view_fields(fields@));
            }
        }
        return Some((Value::Obj(fields), pos + 2));
    }
    proof {
        assert forall|m: Val| val_fits(cs@, pos as int, m) implies m->Obj_0.len() > 0 by {
            if m->Obj_0.len() == 0 {
                assert(ser_fields(m->Obj_0) =~= Seq::<char>::empty());
                lemma_fits_chars(cs@, pos as int, m);
                assert(cs@[pos + 1] == ser(m)[1]);
            }
        }
        assert(view_fields(fields@) =~= Seq::<(Seq<char>, Val)>::empty());
        assert forall|m: Val| val_fits(cs@, pos as int, m) implies obj_scan(
            view_fields(fields@),
            i as int,
            pos as int,
            m,
        ) by {
            assert(m->Obj_0.subrange(0, 0) =~= Seq::<(Seq<char>, Val)>::empty());
            assert(view_fields(fields@) =~= m->Obj_0.subrange(0, 0));
            assert(ser_fields(m->Obj_0.subrange(0, 0)) =~= Seq::<char>::empty());
        }
    }
    loop
        invariant
            pos < i <= cs@.len(),
            fields@.len() == 0 ==> i == pos + 1,
            fields@.len() > 0 ==> cs@.subrange(pos + 1, i as int) == ser_fields(
                view_fields(fields@),
            ) + seq![','],
            forall|j: int| 0 <= j < fields@.len() ==> wf_val((#[trigger] fields@[j]).1@),
            crate::value::fields_sorted(view_fields(fields@)),
            forall|m: Val|
                val_fits(cs@, pos as int, m) ==> #[trigger] obj_scan(
                    view_fields(fields@),
                    i as int,
                    pos as int,
                    m,
                ),
        decreases cs@.len() - i,
    {
        let ghost gotpre = view_fields(fields@);
        proof {
            crate::value::view_fields_len(fields@);
            lemma_obj_probe_all(cs@, pos as int, i as int, gotpre);
        }
        if i >= n {
            proof {
                assert forall|m: Val| !val_fits(cs@, pos as int, m) by {
                    if val_fits(cs@, pos as int, m) {
                        assert(obj_probe(cs@, pos as int, i as int, gotpre.len() as int, m));
                        let q = quoted(m->Obj_0[gotpre.len() as int].0);
                        assert(q.len() >= 2);
                    }
                }
            }
            return None;
        }
        let (key, v, p) = match parse_field(cs, i) {
            Some(x) => x,
            None => {
                proof {
                    assert forall|m: Val| !val_fits(cs@, pos as int, m) by {
                        if val_fits(cs@, pos as int, m) {
                            assert(obj_probe(
                                cs@,
                                pos as int,
                                i as int,
                                gotpre.len() as int,
                                m,
                            ));
                        }
                    }
                }
                return None;
            },
        };
        let ghost kview = key@;
        // Canonical form: keys come in strictly increasing order.
        if fields.len() > 0 {
            let last_idx = fields.len() - 1;
            if !crate::value::str_lt(fields[last_idx].0.as_str(), key.as_str()) {
                proof {
                    assert forall|m: Val| !val_fits(cs@, pos as int, m) by {
                        if val_fits(cs@, pos as int, m) {
                            assert(obj_probe(
                                cs@,
                                pos as int,
                                i as int,
                                gotpre.len() as int,
                                m,
                            ));
                            assert(obj_scan(gotpre, i as int, pos as int, m));
                            let k = gotpre.len() as int;
                            assert(kview == m->Obj_0[k].0);
                            crate::value::view_fields_index(fields@, k - 1);
                            assert(m->Obj_0.subrange(0, k)[k - 1] == m->Obj_0[k - 1]);
                            assert(gotpre[k - 1].0 == fields@[k - 1].0@);
                            assert(fields@[k - 1].0@ == m->Obj_0[k - 1].0);
                            assert(wf_val(m));
                            assert(crate::value::lex_lt(m->Obj_0[k - 1].0, m->Obj_0[k].0));
                        }
                    }
                }
                return None;
            }
            proof {
                assert(crate::value::lex_lt(fields@[fields@.len() - 1].0@, kview));
            }
        }
        let ghost pre = fields@;
        fields.push((key, v));
        proof {
            crate::value::lemma_view_fields_push(
                pre,
                fields@,
                fields@.last().0@,
                fields@.last().1@,
            );
            crate::canon::ser_fields_snoc(
                view_fields(pre),
                fields@.last().0@,
                fields@.last().1@,
            );
            if pre.len() == 0 {
                assert(cs@.subrange(pos + 1, p as int) =~= cs@.subrange(i as int, p as int));
            } else {
                assert(cs@.subrange(pos + 1, p as int) =~= cs@.subrange(pos + 1, i as int)
                    + cs@.subrange(i as int, p as int));
            }
            assert(cs@.subrange(pos + 1, p as int) == ser_fields(view_fields(fields@)));
            crate::value::view_fields_len(pre);
            if pre.len() > 0 {
                crate::value::view_fields_index(pre, pre.len() - 1);
                assert(view_fields(pre)[pre.len() - 1].0 == pre[pre.len() - 1].0@);
                assert(crate::value::lex_lt(pre[pre.len() - 1].0@, kview));
            }
            assert(fields@.last().0@ == kview);
            lemma_sorted_snoc(view_fields(pre), fields@.last().0@, fields@.last().1@);
            assert forall|m: Val|
                val_fits(cs@, pos as int, m) implies view_fields(fields@) == m->Obj_0.subrange(
                0,
                gotpre.len() as int + 1,
            ) && p as int == i + quoted(m->Obj_0[gotpre.len() as int].0).len() + 1 + ser(
                m->Obj_0[gotpre.len() as int].1,
            ).len() by {
                assert(obj_probe(cs@, pos as int, i as int, gotpre.len() as int, m));
                assert(obj_scan(gotpre, i as int, pos as int, m));
                let k = gotpre.len() as int;
                assert(kview == m->Obj_0[k].0);
                assert(fields@.last().1@ == m->Obj_0[k].1);
                assert(view_fields(fields@) =~= gotpre.push((m->Obj_0[k].0, m->Obj_0[k].1)));
                assert(m->Obj_0.subrange(0, k + 1)[k] == m->Obj_0[k]);
                assert(gotpre.push((m->Obj_0[k].0, m->Obj_0[k].1)) =~= m->Obj_0.subrange(
                    0,
                    k + 1,
                ));
            }
        }
        if p >= n {
            proof {
                assert forall|m: Val| !val_fits(cs@, pos as int, m) by {
                    if val_fits(cs@, pos as int, m) {
                        assert(obj_probe(cs@, pos as int, i as int, gotpre.len() as int, m));
                    }
                }
            }
            return None;
        }
        let t = cs[p];
        if t == '}' {
            proof {
                assert(cs@.subrange(pos as int, p + 1) =~= seq!['{'] + ser_fields(
                    view_fields(fields@),
                ) + seq!['}']);
                crate::value::view_fields_len(fields@);
                assert forall|j: int| 0 <= j < view_fields(fields@).len() implies wf_val(
                    #[trigger] view_fields(fields@)[j].1,
                ) by {
                    crate::value::view_fields_index(fields@, j);
                }
                assert forall|m: Val| val_fits(cs@, pos as int, m) implies Value::Obj(fields)@
                    == m && p + 1 == pos + ser(m).len() by {
                    assert(obj_probe(cs@, pos as int, i as int, gotpre.len() as int, m));
                    let k = gotpre.len() as int;
                    if k < m->Obj_0.len() - 1 {
                        assert(cs@[p as int] == ',');
                    }
                    assert(k == m->Obj_0.len() - 1);
                    assert(view_fields(fields@) =~= m->Obj_0);
                }
            }
            return Some((Value::Obj(fields), p + 1));
        }
        if t != ',' {
            proof {
                assert forall|m: Val| !val_fits(cs@, pos as int, m) by {
                    if val_fits(cs@, pos as int, m) {
                        assert(obj_probe(cs@, pos as int, i as int, gotpre.len() as int, m));
                        let k = gotpre.len() as int;
                        if k == m->Obj_0.len() - 1 {
                            assert(cs@[p as int] == '}');
                        } else {
                            assert(cs@[p as int] == ',');
                        }
                    }
                }
            }
            return None;
        }
        proof {
            assert(cs@.subrange(pos + 1, p + 1) =~= ser_fields(view_fields(fields@)) + seq![
                ',',
            ]);
            assert forall|m: Val| val_fits(cs@, pos as int, m) implies obj_scan(
                view_fields(fields@),
                p + 1,
                pos as int,
                m,
            ) by {
                assert(obj_probe(cs@, pos as int, i as int, gotpre.len() as int, m));
                let k = gotpre.len() as int;
                if k == m->Obj_0.len() - 1 {
                    assert(cs@[p as int] == '}');
                }
                assert(m->Obj_0.subrange(0, k + 1).drop_last() =~= m->Obj_0.subrange(0, k));
                crate::canon::ser_fields_snoc(
                    m->Obj_0.subrange(0, k),
                    m->Obj_0[k].0,
                    m->Obj_0[k].1,
                );
                assert(m->Obj_0.subrange(0, k).push(m->Obj_0[k]) =~= m->Obj_0.subrange(
                    0,
                    k + 1,
                ));
            }
        }
        i = p + 1;
    }
}

/// Reads one canonical value at `pos`: whatever comes back is well formed
/// and serializes to exactly the consumed text; and where the text holds
/// the canonical form of some value followed by a delimiter, the reader
/// returns exactly that value.
#[verifier::loop_isolation(false)]
#[verifier::rlimit(100)]
#[verifier::spinoff_prover]
pub fn parse_value(cs: &Vec<char>, pos: usize) -> (r: Option<(Value, usize)>)
    ensures
        r matches Some((v, p)) ==> pos < p <= cs@.len() && wf_val(v@) && cs@.subrange(
            pos as int,
            p as int,
        ) == ser(v@),
        forall|m: Val|
            val_fits(cs@, pos as int, m) ==> r is Some && (r->0).0@ == m && (r->0).1 as int
                == pos + ser(m).len(),
    decreases cs@.len() - pos, 1int,
{
    proof {
        lemma_token_codes();
    }
    if pos >= cs.len() {
        proof {
            assert forall|m: Val| !val_fits(cs@, pos as int, m) by {
                if val_fits(cs@, pos as int, m) {
                    lemma_ser_head(m);
                }
            }
        }
        return None;
    }
    let n = cs.len();
    let c = cs[pos];
    proof {
        assert forall|m: Val| val_fits(cs@, pos as int, m) implies ser(m)[0] == c by {
            lemma_ser_head(m);
            lemma_fits_chars(cs@, pos as int, m);
        }
    }
    if c == 'n' {
        proof {
            assert forall|m: Val| val_fits(cs@, pos as int, m) implies m == Val::Null && ser(
                m,
            ) == seq!['n', 'u', 'l', 'l'] by {
                lemma_ser_head(m);
            }
        }
        if n - pos < 4 {
            return None;
        }
        if cs[pos + 1] == 'u' && cs[pos + 2] == 'l' && cs[pos + 3] == 'l' {
            proof {
                assert(cs@.subrange(pos as int, pos + 4) =~= seq!['n', 'u', 'l', 'l']);
            }
            Some((Value::Null, pos + 4))
        } else {
            proof {
                assert forall|m: Val| !val_fits(cs@, pos as int, m) by {
                    if val_fits(cs@, pos as int, m) {
                        lemma_fits_chars(cs@, pos as int, m);
                    }
                }
            }
            None
        }
    } else if c == 't' {
        proof {
            assert forall|m: Val| val_fits(cs@, pos as int, m) implies m == Val::Bool(true)
                && ser(m) == seq!['t', 'r', 'u', 'e'] by {
                lemma_ser_head(m);
            }
        }
        if n - pos < 4 {
            return None;
        }
        if cs[pos + 1] == 'r' && cs[pos + 2] == 'u' && cs[pos + 3] == 'e' {
            proof {
                assert(cs@.subrange(pos as int, pos + 4) =~= seq!['t', 'r', 'u', 'e']);
            }
            Some((Value::Bool(true), pos + 4))
        } else {
            proof {
                assert forall|m: Val| !val_fits(cs@, pos as int, m) by {
                    if val_fits(cs@, pos as int, m) {
                        lemma_fits_chars(cs@, pos as int, m);
                    }
                }
            }
            None
        }
    } else if c == 'f' {
        proof {
            assert forall|m: Val| val_fits(cs@, pos as int, m) implies m == Val::Bool(false)
                && ser(m) == seq!['f', 'a', 'l', 's', 'e'] by {
                lemma_ser_head(m);
            }
        }
        if n - pos < 5 {
            return None;
        }
        if cs[pos + 1] == 'a' && cs[pos + 2] == 'l' && cs[pos + 3] == 's' && cs[pos + 4] == 'e' {
            proof {
                assert(cs@.subrange(pos as int, pos + 5) =~= seq!['f', 'a', 'l', 's', 'e']);
            }
            Some((Value::Bool(false), pos + 5))
        } else {
            proof {
                assert forall|m: Val| !val_fits(cs@, pos as int, m) by {
                    if val_fits(cs@, pos as int, m) {
                        lemma_fits_chars(cs@, pos as int, m);
                    }
                }
            }
            None
        }
    } else if c == '"' {
        proof {
            assert forall|m: Val|
                val_fits(cs@, pos as int, m) implies m is Str && str_fits(
                cs@,
                pos as int,
                m->Str_0,
            ) by {
                lemma_ser_head(m);
            }
        }
        match parse_string(cs, pos) {
            Some((s, p)) => Some((Value::Str(s), p)),
            None => None,
        }
    } else if c == '[' {
        parse_array(cs, pos)
    } else if c == '{' {
        parse_object(cs, pos)
    } else if c == '-' || ((c as u32) >= 48 && (c as u32) <= 57) {
        proof {
            assert forall|m: Val|
                val_fits(cs@, pos as int, m) implies m is Int && fits(
                cs@,
                pos as int,
                Val::Int(m->Int_0),
            ) && delimited(cs@, pos + ser(Val::Int(m->Int_0)).len()) by {
                lemma_ser_head(m);
            }
        }
        match parse_int(cs, pos) {
            Some((v, p)) => {
                proof {
                    assert forall|m: Val| val_fits(cs@, pos as int, m) implies Value::Int(v)@
                        == m && p as int == pos + ser(m).len() by {
                        let v0 = m->Int_0;
                        assert(i64::MIN <= v0 <= i64::MAX);
                        assert(((v0 as i64) as int) == v0);
                        assert(fits(cs@, pos as int, Val::Int((v0 as i64) as int)));
                    }
                }
                Some((Value::Int(v), p))
            },
            None => None,
        }
    } else {
        proof {
            assert forall|m: Val| !val_fits(cs@, pos as int, m) by {
                if val_fits(cs@, pos as int, m) {
                    lemma_ser_head(m);
                }
            }
        }
        None
    }
}

/// Appending a field above every key keeps the object sorted.
proof fn lemma_sorted_snoc(fs: Seq<(Seq<char>, Val)>, k: Seq<char>, v: Val)
    requires
        crate::value::fields_sorted(fs),
        fs.len() > 0 ==> crate::value::lex_lt(fs[fs.len() - 1].0, k),
    ensures
        crate::value::fields_sorted(fs.push((k, v))),
{
    let fp = fs.push((k, v));
    assert forall|i: int, j: int| 0 <= i < j < fp.len() implies crate::value::lex_lt(
        (#[trigger] fp[i]).0,
        (#[trigger] fp[j]).0,
    ) by {
        if j < fs.len() {
        } else {
            if i < fs.len() - 1 {
                crate::value::lex_lt_trans(fs[i].0, fs[fs.len() - 1].0, k);
            }
        }
    }
}

/// Reads a whole canonical text; what comes back is well formed and
/// serializes to exactly the input. Where the input is the canonical text
/// of some well-formed value, the reader returns exactly that value.
pub fn parse_canonical(text: &str) -> (r: Option<Value>)
    ensures
        r matches Some(v) ==> wf_val(v@) && text@ == ser(v@),
        forall|m: Val|
            wf_val(m) && text@ == ser(m) ==> r is Some && (#[trigger] r->0)@ == m,
{
    let n = text.unicode_len();
    let mut cs: Vec<char> = Vec::new();
    let mut i: usize = 0;
    while i < n
        invariant
            i <= n,
            n == text@.len(),
            cs@ == text@.subrange(0, i as int),
        decreases n - i,
    {
        let c = text.get_char(i);
        proof {
            assert(text@.subrange(0, i + 1) =~= text@.subrange(0, i as int).push(text@[i as int]));
        }
        cs.push(c);
        i = i + 1;
    }
    proof {
        assert(text@.subrange(0, text@.len() as int) =~= text@);
    }
    proof {
        assert forall|m: Val| wf_val(m) && text@ == ser(m) implies val_fits(cs@, 0, m) by {
            assert(cs@.subrange(0, ser(m).len() as int) =~= cs@);
        }
    }
    match parse_value(&cs, 0) {
        Some((v, p)) => {
            if p == cs.len() {
                proof {
                    assert(cs@.subrange(0, cs@.len() as int) =~= cs@);
                }
                Some(v)
            } else {
                proof {
                    assert forall|m: Val| !(wf_val(m) && text@ == ser(m)) by {
                        if wf_val(m) && text@ == ser(m) {
                            assert(val_fits(cs@, 0, m));
                        }
                    }
                }
                None
            }
        },
        None => None,
    }
}

} // verus!
