//! The tree walker: encrypts and decrypts a document in place, node by
//! node, deriving each node's tweak from its structural path.
//!
//! The root tweak is the single byte `#`.  Descending into an object member
//! appends the member key's bytes; into an array element, the single index
//! byte (which caps arrays at 256 elements); into the integral or the
//! fractional half of a split numeral, the byte 0 or 1.  Decryption is a
//! pure function of the key, the tweak and the node, written out here as a
//! specification that the executable walker provably matches; encryption
//! draws randomness, and its contract states instead that whatever it
//! returns decrypts back to the original.
use vstd::prelude::*;

use crate::chars::chars_of;
use crate::chars::string_of_chars;
use crate::chars::tail_vec;
use crate::error::Error;
use crate::fpe::fpe_text_decrypt;
use crate::fpe::fpe_text_encrypt;
use crate::fpe::fpe_utf_dec;
use crate::fpe::fpe_utf_enc;
use crate::json::find_dot;
use crate::json::json_text;
use crate::json::parse_document;
use crate::json::p_value;
use crate::json::to_json_string;
use crate::json::view_of_elems;
use crate::json::view_of_members;
use crate::json::wf_doc;
use crate::numeric::decrypt_fractional;
use crate::numeric::decrypt_integral;
use crate::numeric::encrypt_fractional;
use crate::numeric::encrypt_integral;
use crate::numeric::spec_decrypt_fractional;
use crate::numeric::spec_decrypt_integral;
use crate::value::SpecValue;
use crate::value::Value;
use crate::value::view_of;
use vstd::utf8::encode_utf8;

verus! {

broadcast use vstd::std_specs::vec::group_vec_axioms, vstd::seq::group_seq_axioms;

/// The tweak of the document root: the single byte `#`.
pub open spec fn root_tweak() -> Seq<u8> {
    seq![35u8]
}

/// The depth of a child object node, saturating instead of wrapping.
pub open spec fn bump(d: u32) -> u32 {
    if d == u32::MAX {
        d
    } else {
        (d + 1) as u32
    }
}

/// What decrypting one node yields: a pure function of the key, the node's
/// tweak and the node.  Numbers are split on the first dot and deciphered
/// half by half; strings are deciphered and, when the plaintext carries the
/// collapse escape (the prefix `json` followed by a parsable object text),
/// re-expanded into that object; arrays and objects recurse with extended
/// tweaks.  Null and boolean leaves pass through.
pub open spec fn spec_dec_value(key: Seq<u8>, tweak: Seq<u8>, v: SpecValue) -> Result<
    SpecValue,
    Error,
>
    decreases v, 0nat, 0nat,
{
    match v {
        SpecValue::Null => Ok(SpecValue::Null),
        SpecValue::Bool(b) => Ok(SpecValue::Bool(b)),
        SpecValue::Number(s) => {
            let d = find_dot(s, 0);
            if d == s.len() {
                match spec_decrypt_integral(key, tweak, s) {
                    Ok(t) => Ok(SpecValue::Number(t)),
                    Err(e) => Err(e),
                }
            } else {
                match spec_decrypt_integral(key, tweak.push(0u8), s.subrange(0, d)) {
                    Err(e) => Err(e),
                    Ok(lo) => match spec_decrypt_fractional(
                        key,
                        tweak.push(1u8),
                        s.subrange(d + 1, s.len() as int),
                    ) {
                        Err(e) => Err(e),
                        Ok(ro) => Ok(SpecValue::Number(lo + seq!['.'] + ro)),
                    },
                }
            }
        },
        SpecValue::Text(s) => match fpe_utf_dec(key, tweak, s) {
            Option::None => Err(Error::Fpe),
            Option::Some(d) => {
                if d.len() >= 4 && d.subrange(0, 4) == seq!['j', 's', 'o', 'n'] {
                    match parse_document(d.skip(4)) {
                        Option::Some(SpecValue::Object(ps)) => Ok(SpecValue::Object(ps)),
                        _ => Ok(SpecValue::Text(d)),
                    }
                } else {
                    Ok(SpecValue::Text(d))
                }
            },
        },
        SpecValue::Array(es) => {
            if es.len() > 256 {
                Err(Error::Schema)
            } else {
                match spec_dec_elems(key, tweak, es, 0) {
                    Ok(out) => Ok(SpecValue::Array(out)),
                    Err(e) => Err(e),
                }
            }
        },
        SpecValue::Object(ps) => match spec_dec_membs(key, tweak, ps, 0) {
            Ok(out) => Ok(SpecValue::Object(out)),
            Err(e) => Err(e),
        },
    }
}

/// What decrypting the array elements from index `k` on yields; element `q`
/// is deciphered under the tweak extended by the byte `q`.
pub open spec fn spec_dec_elems(key: Seq<u8>, tweak: Seq<u8>, es: Seq<SpecValue>, k: int) -> Result<
    Seq<SpecValue>,
    Error,
>
    decreases es, (es.len() - k) as nat, 1nat,
{
    if k < 0 || k >= es.len() {
        Ok(Seq::empty())
    } else {
        match spec_dec_value(key, tweak.push(k as u8), es[k]) {
            Err(e) => Err(e),
            Ok(w) => match spec_dec_elems(key, tweak, es, k + 1) {
                Err(e) => Err(e),
                Ok(rest) => Ok(seq![w] + rest),
            },
        }
    }
}

/// What decrypting the object members from index `k` on yields; a member's
/// value is deciphered under the tweak extended by the key's bytes, and
/// member keys pass through.
pub open spec fn spec_dec_membs(
    key: Seq<u8>,
    tweak: Seq<u8>,
    ps: Seq<(Seq<char>, SpecValue)>,
    k: int,
) -> Result<Seq<(Seq<char>, SpecValue)>, Error>
    decreases ps, (ps.len() - k) as nat, 1nat,
{
    if k < 0 || k >= ps.len() {
        Ok(Seq::empty())
    } else {
        match spec_dec_value(key, tweak + encode_utf8(ps[k].0), ps[k].1) {
            Err(e) => Err(e),
            Ok(w) => match spec_dec_membs(key, tweak, ps, k + 1) {
                Err(e) => Err(e),
                Ok(rest) => Ok(seq![(ps[k].0, w)] + rest),
            },
        }
    }
}

/// Every numeral leaf is short enough for the codec's padding arithmetic.
pub open spec fn bounded_doc(v: SpecValue) -> bool
    decreases v,
{
    match v {
        SpecValue::Number(s) => s.len() + 18 <= u32::MAX,
        SpecValue::Array(es) => forall|q: int|
            0 <= q < es.len() ==> bounded_doc(#[trigger] es[q]),
        SpecValue::Object(ps) => forall|q: int|
            0 <= q < ps.len() ==> bounded_doc(#[trigger] ps[q].1),
        _ => true,
    }
}

/// No string leaf that decryption would reach collides with the collapse
/// escape: none starts with `json` followed by a parsable object text.
/// Below a collapsed object nothing is constrained, since its strings are
/// never deciphered one by one.
pub open spec fn collision_free(v: SpecValue, depth: u32, m: u32) -> bool
    decreases v,
{
    match v {
        SpecValue::Text(s) => !(s.len() >= 4 && s.subrange(0, 4) == seq!['j', 's', 'o', 'n']
            && parse_document(s.skip(4)) matches Option::Some(SpecValue::Object(_))),
        SpecValue::Array(es) => forall|q: int|
            0 <= q < es.len() ==> collision_free(#[trigger] es[q], depth, m),
        SpecValue::Object(ps) => if m > 0 && depth > m {
            true
        } else {
            forall|q: int| 0 <= q < ps.len() ==> collision_free(#[trigger] ps[q].1, bump(depth), m)
        },
        _ => true,
    }
}

/// A valid ciphertext numeral: each half is a legal numeral half, with no
/// leading zero on the integral side and no trailing zero on the fractional
/// side.
pub open spec fn valid_ct_number(t: Seq<char>) -> bool {
    let d = find_dot(t, 0);
    if d == t.len() {
        crate::numeric::ct_integral(t)
    } else {
        crate::numeric::ct_integral(t.subrange(0, d)) && crate::numeric::wf_fraction(
            t.subrange(d + 1, t.len() as int),
        )
    }
}

/// How an encrypted document relates to its plaintext in shape: null and
/// boolean leaves pass through, a number stays a valid number, a string
/// keeps its length in code points, an array keeps its length, an object
/// keeps its keys in order — except that past the depth bound an object
/// becomes a string.
pub open spec fn enc_shape(a: SpecValue, b: SpecValue, depth: u32, m: u32) -> bool
    decreases a,
{
    match a {
        SpecValue::Null => b is Null,
        SpecValue::Bool(x) => b == SpecValue::Bool(x),
        SpecValue::Number(_) => b is Number && valid_ct_number(b->Number_0),
        SpecValue::Text(s) => b is Text && b->Text_0.len() == s.len(),
        SpecValue::Array(es) => b is Array && b->Array_0.len() == es.len() && (forall|q: int|
            0 <= q < es.len() ==> enc_shape(#[trigger] es[q], b->Array_0[q], depth, m)),
        SpecValue::Object(ps) => if m > 0 && depth > m {
            b is Text
        } else {
            b is Object && b->Object_0.len() == ps.len() && (forall|q: int|
                0 <= q < ps.len() ==> #[trigger] b->Object_0[q].0 == ps[q].0) && (forall|q: int|
                0 <= q < ps.len() ==> enc_shape(#[trigger] ps[q].1, b->Object_0[q].1, bump(depth), m))
        },
    }
}

/// Whether encrypting a node succeeds, and with which error it fails: a
/// string (or a collapsed object's escape text) fails with `Fpe` when the
/// primitive rejects it, an array of more than 256 elements fails with
/// `Schema`, and the first failure in walking order wins.
pub open spec fn spec_enc_check(key: Seq<u8>, tweak: Seq<u8>, depth: u32, m: u32, v: SpecValue) -> Result<
    (),
    Error,
>
    decreases v, 0nat, 0nat,
{
    match v {
        SpecValue::Null => Ok(()),
        SpecValue::Bool(_) => Ok(()),
        SpecValue::Number(_) => Ok(()),
        SpecValue::Text(s) => if fpe_utf_enc(key, tweak, s) is Some {
            Ok(())
        } else {
            Err(Error::Fpe)
        },
        SpecValue::Array(es) => {
            if es.len() > 256 {
                Err(Error::Schema)
            } else {
                spec_enc_elems_check(key, tweak, depth, m, es, 0)
            }
        },
        SpecValue::Object(ps) => {
            if m > 0 && depth > m {
                if fpe_utf_enc(key, tweak, seq!['j', 's', 'o', 'n'] + json_text(v)) is Some {
                    Ok(())
                } else {
                    Err(Error::Fpe)
                }
            } else {
                spec_enc_membs_check(key, tweak, depth, m, ps, 0)
            }
        },
    }
}

/// Whether encrypting the array elements from index `k` on succeeds.
pub open spec fn spec_enc_elems_check(
    key: Seq<u8>,
    tweak: Seq<u8>,
    depth: u32,
    m: u32,
    es: Seq<SpecValue>,
    k: int,
) -> Result<(), Error>
    decreases es, (es.len() - k) as nat, 1nat,
{
    if k < 0 || k >= es.len() {
        Ok(())
    } else {
        match spec_enc_check(key, tweak.push(k as u8), depth, m, es[k]) {
            Err(e) => Err(e),
            Ok(_) => spec_enc_elems_check(key, tweak, depth, m, es, k + 1),
        }
    }
}

/// Whether encrypting the object members from index `k` on succeeds.
pub open spec fn spec_enc_membs_check(
    key: Seq<u8>,
    tweak: Seq<u8>,
    depth: u32,
    m: u32,
    ps: Seq<(Seq<char>, SpecValue)>,
    k: int,
) -> Result<(), Error>
    decreases ps, (ps.len() - k) as nat, 1nat,
{
    if k < 0 || k >= ps.len() {
        Ok(())
    } else {
        match spec_enc_check(key, tweak + encode_utf8(ps[k].0), bump(depth), m, ps[k].1) {
            Err(e) => Err(e),
            Ok(_) => spec_enc_membs_check(key, tweak, depth, m, ps, k + 1),
        }
    }
}

/// A document the primitive is certain to accept: every string leaf that a
/// walk at this depth would encipher holds at least two (and at most
/// `u32::MAX`) characters of the full-Unicode alphabet, every array fits
/// the one-byte index tweak, and every collapse text fits the primitive's
/// length bound.
pub open spec fn enc_viable(v: SpecValue, depth: u32, m: u32) -> bool
    decreases v,
{
    match v {
        SpecValue::Text(s) => 2 <= crate::fpe::utf_count(s) <= u32::MAX,
        SpecValue::Array(es) => es.len() <= 256 && (forall|q: int|
            0 <= q < es.len() ==> enc_viable(#[trigger] es[q], depth, m)),
        SpecValue::Object(ps) => if m > 0 && depth > m {
            json_text(v).len() + 4 <= u32::MAX
        } else {
            forall|q: int| 0 <= q < ps.len() ==> enc_viable(#[trigger] ps[q].1, bump(depth), m)
        },
        _ => true,
    }
}

/// The collapse escape text of a serialised subtree always holds enough
/// alphabet characters: its four-letter prefix is ASCII.
proof fn lemma_escape_text_count(j: Seq<char>)
    requires
        j.len() + 4 <= u32::MAX,
    ensures
        2 <= crate::fpe::utf_count(seq!['j', 's', 'o', 'n'] + j) <= u32::MAX,
{
    let p = crate::fpe::utf_pred();
    let pre = seq!['j', 's', 'o', 'n'];
    Seq::<char>::filter_distributes_over_add(pre, j, p);
    assert(pre.filter(p).len() == 4) by {
        reveal_with_fuel(Seq::filter, 6);
        assert(pre.drop_last() =~= seq!['j', 's', 'o']);
        assert(seq!['j', 's', 'o'].drop_last() =~= seq!['j', 's']);
        assert(seq!['j', 's'].drop_last() =~= seq!['j']);
        assert(seq!['j'].drop_last() =~= Seq::<char>::empty());
        assert(p('j') && p('s') && p('o') && p('n'));
    }
    j.lemma_filter_len(p);
}

/// A fresh copy of a byte vector.
fn copy_bytes(v: &Vec<u8>) -> (r: Vec<u8>)
    ensures
        r@ == v@,
{
    let mut out: Vec<u8> = Vec::new();
    let mut j: usize = 0;
    while j < v.len()
        invariant
            j <= v@.len(),
            out@ =~= v@.subrange(0, j as int),
        decreases v@.len() - j,
    {
        out.push(v[j]);
        assert(out@ =~= v@.subrange(0, j + 1 as int));
        j = j + 1;
    }
    proof {
        assert(out@ =~= v@);
    }
    out
}

/// The tweak extended by a single byte.
fn tweak_push(t: &Vec<u8>, b: u8) -> (r: Vec<u8>)
    ensures
        r@ == t@.push(b),
{
    let mut out = copy_bytes(t);
    out.push(b);
    out
}

/// The tweak extended by a member key's bytes.
fn tweak_key(t: &Vec<u8>, k: &str) -> (r: Vec<u8>)
    ensures
        r@ == t@ + encode_utf8(k@),
{
    let mut out = copy_bytes(t);
    let kb = k.as_bytes_vec();
    let mut j: usize = 0;
    while j < kb.len()
        invariant
            j <= kb@.len(),
            kb@ == encode_utf8(k@),
            out@ =~= t@ + kb@.subrange(0, j as int),
        decreases kb@.len() - j,
    {
        out.push(kb[j]);
        assert(out@ =~= t@ + kb@.subrange(0, j + 1 as int));
        j = j + 1;
    }
    proof {
        assert(kb@.subrange(0, kb@.len() as int) =~= kb@);
        assert(out@ =~= t@ + encode_utf8(k@));
    }
    out
}

/// The position of the first dot of `s`, or its length.
fn find_dot_str(s: &str) -> (d: usize)
    ensures
        d as int == find_dot(s@, 0),
        d <= s@.len(),
{
    let n = s.unicode_len();
    let mut j: usize = 0;
    while j < n && s.get_char(j) != '.'
        invariant
            j <= n,
            n == s@.len(),
            find_dot(s@, 0) == find_dot(s@, j as int),
        decreases n - j,
    {
        j = j + 1;
    }
    j
}

/// Decrypts one node: the executable mirror of `spec_dec_value`.
pub fn dec_node(key: &[u8], tweak: &Vec<u8>, v: &Value) -> (r: Result<Value, Error>)
    requires
        key@.len() == 32,
    ensures
        match r {
            Ok(w) => spec_dec_value(key@, tweak@, v@) == Ok::<SpecValue, Error>(w@),
            Err(e) => spec_dec_value(key@, tweak@, v@) == Err::<SpecValue, Error>(e),
        },
    decreases v, 0nat, 0nat,
{
    match v {
        Value::Null => Ok(Value::Null),
        Value::Bool(b) => Ok(Value::Bool(*b)),
        Value::Number(s) => {
            let d = find_dot_str(s.as_str());
            let n = s.as_str().unicode_len();
            if d == n {
                match decrypt_integral(key, tweak.as_slice(), s.as_str()) {
                    Ok(out) => {
                        let w = Value::Number(out);
                        proof {
                            assert(view_of(w)->Number_0 =~= w->Number_0@);
                        }
                        Ok(w)
                    },
                    Err(e) => Err(e),
                }
            } else {
                let t0 = tweak_push(tweak, 0);
                let t1 = tweak_push(tweak, 1);
                let left = s.as_str().substring_char(0, d);
                let right = s.as_str().substring_char(d + 1, n);
                match decrypt_integral(key, t0.as_slice(), left) {
                    Err(e) => Err(e),
                    Ok(lo) => match decrypt_fractional(key, t1.as_slice(), right) {
                        Err(e) => Err(e),
                        Ok(ro) => {
                            let ghost glo = lo@;
                            let ghost gro = ro@;
                            let mut cv = chars_of(lo.as_str());
                            cv.push('.');
                            let mut rv = chars_of(ro.as_str());
                            cv.append(&mut rv);
                            let out = string_of_chars(&cv);
                            proof {
                                assert(out@ =~= glo + seq!['.'] + gro);
                            }
                            Ok(Value::Number(out))
                        },
                    },
                }
            }
        },
        Value::Text(s) => {
            match fpe_text_decrypt(key, tweak.as_slice(), s.as_str()) {
                Err(_) => Err(Error::Fpe),
                Ok(dtxt) => {
                    let dv = chars_of(dtxt.as_str());
                    let pref = dv.len() >= 4 && dv[0] == 'j' && dv[1] == 's' && dv[2] == 'o'
                        && dv[3] == 'n';
                    proof {
                        if dv@.len() >= 4 {
                            let sub = dv@.subrange(0, 4);
                            assert(sub[0] == dv@[0]);
                            assert(sub[1] == dv@[1]);
                            assert(sub[2] == dv@[2]);
                            assert(sub[3] == dv@[3]);
                            if pref {
                                assert(sub =~= seq!['j', 's', 'o', 'n']);
                            } else {
                                assert(sub != seq!['j', 's', 'o', 'n']);
                            }
                        }
                    }
                    if pref {
                        let tl = tail_vec(&dv, 4);
                        proof {
                            assert(tl@ =~= dtxt@.skip(4));
                        }
                        match p_value(&tl, 0) {
                            Option::Some((w, j)) => {
                                if j == tl.len() {
                                    match w {
                                        Value::Object(ps) => {
                                            let ghost gps = view_of_members(&ps);
                                            proof {
                                                assert(view_of(Value::Object(ps))->Object_0
                                                    =~= gps);
                                            }
                                            Ok(Value::Object(ps))
                                        },
                                        _ => Ok(Value::Text(dtxt)),
                                    }
                                } else {
                                    Ok(Value::Text(dtxt))
                                }
                            },
                            Option::None => Ok(Value::Text(dtxt)),
                        }
                    } else {
                        Ok(Value::Text(dtxt))
                    }
                },
            }
        },
        Value::Array(vs) => {
            proof {
                assert(view_of(*v)->Array_0 =~= view_of_elems(vs));
            }
            if vs.len() > 256 {
                Err(Error::Schema)
            } else {
                proof {
                    assert(decreases_to!(vs => vs@));
                }
                match dec_elems(key, tweak, vs, 0) {
                    Ok(out) => {
                        let ghost g = view_of_elems(&out);
                        proof {
                            assert(view_of(Value::Array(out))->Array_0 =~= g);
                        }
                        Ok(Value::Array(out))
                    },
                    Err(e) => Err(e),
                }
            }
        },
        Value::Object(ps) => {
            proof {
                assert(view_of(*v)->Object_0 =~= view_of_members(ps));
                assert(decreases_to!(ps => ps@));
            }
            match dec_membs(key, tweak, ps, 0) {
                Ok(out) => {
                    let ghost g = view_of_members(&out);
                    proof {
                        assert(view_of(Value::Object(out))->Object_0 =~= g);
                    }
                    Ok(Value::Object(out))
                },
                Err(e) => Err(e),
            }
        },
    }
}

/// Decrypts the array elements from index `k` on: the executable mirror of
/// `spec_dec_elems`.
fn dec_elems(key: &[u8], tweak: &Vec<u8>, vs: &Vec<Value>, k: usize) -> (r: Result<
    Vec<Value>,
    Error,
>)
    requires
        key@.len() == 32,
        k <= vs@.len(),
        vs@.len() <= 256,
    ensures
        match r {
            Ok(out) => spec_dec_elems(key@, tweak@, view_of_elems(vs), k as int) == Ok::<
                Seq<SpecValue>,
                Error,
            >(view_of_elems(&out)),
            Err(e) => spec_dec_elems(key@, tweak@, view_of_elems(vs), k as int) == Err::<
                Seq<SpecValue>,
                Error,
            >(e),
        },
    decreases vs, (vs@.len() - k) as nat, 1nat,
{
    if k >= vs.len() {
        let out: Vec<Value> = Vec::new();
        proof {
            assert(view_of_elems(&out) =~= Seq::<SpecValue>::empty());
        }
        return Ok(out);
    }
    let tk = tweak_push(tweak, k as u8);
    proof {
        assert(decreases_to!(vs => vs@));
        assert(decreases_to!(vs@ => vs@[k as int]));
        assert(view_of_elems(vs)[k as int] == vs@[k as int]@);
    }
    match dec_node(key, &tk, &vs[k]) {
        Err(e) => Err(e),
        Ok(w) => match dec_elems(key, tweak, vs, k + 1) {
            Err(e) => Err(e),
            Ok(rest) => {
                let ghost gw = w@;
                let ghost grest = view_of_elems(&rest);
                let mut out: Vec<Value> = Vec::new();
                out.push(w);
                let mut rm = rest;
                out.append(&mut rm);
                proof {
                    assert(view_of_elems(&out) =~= seq![gw] + grest);
                }
                Ok(out)
            },
        },
    }
}

/// Decrypts the object members from index `k` on: the executable mirror of
/// `spec_dec_membs`.
fn dec_membs(key: &[u8], tweak: &Vec<u8>, ps: &Vec<(String, Value)>, k: usize) -> (r: Result<
    Vec<(String, Value)>,
    Error,
>)
    requires
        key@.len() == 32,
        k <= ps@.len(),
    ensures
        match r {
            Ok(out) => spec_dec_membs(key@, tweak@, view_of_members(ps), k as int) == Ok::<
                Seq<(Seq<char>, SpecValue)>,
                Error,
            >(view_of_members(&out)),
            Err(e) => spec_dec_membs(key@, tweak@, view_of_members(ps), k as int) == Err::<
                Seq<(Seq<char>, SpecValue)>,
                Error,
            >(e),
        },
    decreases ps, (ps@.len() - k) as nat, 1nat,
{
    if k >= ps.len() {
        let out: Vec<(String, Value)> = Vec::new();
        proof {
            assert(view_of_members(&out) =~= Seq::<(Seq<char>, SpecValue)>::empty());
        }
        return Ok(out);
    }
    let tk = tweak_key(tweak, ps[k].0.as_str());
    proof {
        assert(decreases_to!(ps => ps@));
        assert(decreases_to!(ps@ => ps@[k as int]));
        assert(view_of_members(ps)[k as int].0 == ps@[k as int].0@);
        assert(view_of_members(ps)[k as int].1 == ps@[k as int].1@);
    }
    match dec_node(key, &tk, &ps[k].1) {
        Err(e) => Err(e),
        Ok(w) => match dec_membs(key, tweak, ps, k + 1) {
            Err(e) => Err(e),
            Ok(rest) => {
                let ghost gk = ps@[k as int].0@;
                let ghost gw = w@;
                let ghost grest = view_of_members(&rest);
                let kc = ps[k].0.clone();
                let mut out: Vec<(String, Value)> = Vec::new();
                out.push((kc, w));
                let mut rm = rest;
                out.append(&mut rm);
                proof {
                    assert(view_of_members(&out) =~= seq![(gk, gw)] + grest);
                }
                Ok(out)
            },
        },
    }
}

/// A valid integral ciphertext numeral holds no dot.
proof fn lemma_ct_integral_no_dot(t: Seq<char>)
    requires
        crate::numeric::ct_integral(t),
    ensures
        find_dot(t, 0) == t.len(),
        forall|q: int| 0 <= q < t.len() ==> t[q] != '.',
{
    assert(!crate::chars::is_digit('.')) by {
        assert('.' as u32 == 46);
    }
    let b = crate::numeric::numeral_body(t);
    assert forall|q: int| 0 <= q < t.len() implies t[q] != '.' by {
        if t.len() > 0 && t[0] == '-' {
            if q > 0 {
                assert(t[q] == b[q - 1]);
                assert(crate::chars::is_digit(b[q - 1]));
            }
        } else {
            assert(t[q] == b[q]);
            assert(crate::chars::is_digit(b[q]));
        }
    }
    crate::json::lemma_find_dot(t, 0);
    let fd = find_dot(t, 0);
    if fd < t.len() {
        assert(t[fd] == '.');
        assert(false);
    }
}

/// The first dot of an integral ciphertext joined with a fraction stands
/// right after the integral half.
proof fn lemma_find_dot_join(l: Seq<char>, r: Seq<char>)
    requires
        forall|q: int| 0 <= q < l.len() ==> l[q] != '.',
    ensures
        find_dot(l + seq!['.'] + r, 0) == l.len(),
{
    let t = l + seq!['.'] + r;
    crate::json::lemma_find_dot(t, 0);
    let fd = find_dot(t, 0);
    assert(t[l.len() as int] == '.');
    if fd < l.len() {
        assert(t[fd] == l[fd]);
        assert(false);
    }
    if fd > l.len() {
        assert(false);
    }
}

/// Encrypts one node.  On success the result has the encrypted shape of the
/// input and — unless a string leaf collides with the collapse escape —
/// decrypts back to the input under the same key and tweak.  Success and
/// the error value match `spec_enc_check` exactly.
#[verifier::rlimit(50)]
pub fn enc_node(key: &[u8], tweak: &Vec<u8>, depth: u32, m: u32, v: &Value) -> (r: Result<
    Value,
    Error,
>)
    requires
        key@.len() == 32,
        wf_doc(v@),
        bounded_doc(v@),
    ensures
        match r {
            Ok(w) => spec_enc_check(key@, tweak@, depth, m, v@) == Ok::<(), Error>(())
                && enc_shape(v@, w@, depth, m) && (collision_free(v@, depth, m)
                ==> spec_dec_value(key@, tweak@, w@) == Ok::<SpecValue, Error>(v@)),
            Err(e) => spec_enc_check(key@, tweak@, depth, m, v@) == Err::<(), Error>(e),
        },
        enc_viable(v@, depth, m) ==> r is Ok,
    decreases v, 0nat, 0nat,
{
    match v {
        Value::Null => Ok(Value::Null),
        Value::Bool(b) => Ok(Value::Bool(*b)),
        Value::Number(s) => {
            let d = find_dot_str(s.as_str());
            let n = s.as_str().unicode_len();
            proof {
                crate::json::lemma_find_dot(s@, 0);
            }
            if d == n {
                let ct = encrypt_integral(key, tweak.as_slice(), s.as_str());
                let w = Value::Number(ct);
                proof {
                    lemma_ct_integral_no_dot(w@->Number_0);
                    assert(spec_dec_value(key@, tweak@, w@) == Ok::<SpecValue, Error>(v@));
                    assert(enc_shape(v@, w@, depth, m));
                }
                Ok(w)
            } else {
                proof {
                    assert(s@[d as int] == '.');
                    assert(s@.subrange(0, d as int).len() + 16 <= u32::MAX);
                    assert(s@.subrange(d + 1 as int, s@.len() as int).len() + 16 <= u32::MAX);
                }
                let t0 = tweak_push(tweak, 0);
                let t1 = tweak_push(tweak, 1);
                let left = s.as_str().substring_char(0, d);
                let right = s.as_str().substring_char(d + 1, n);
                let ctl = encrypt_integral(key, t0.as_slice(), left);
                let ctr = encrypt_fractional(key, t1.as_slice(), right);
                let ghost gl = ctl@;
                let ghost gr = ctr@;
                let mut cv = chars_of(ctl.as_str());
                cv.push('.');
                let mut rv = chars_of(ctr.as_str());
                cv.append(&mut rv);
                let out = string_of_chars(&cv);
                let w = Value::Number(out);
                proof {
                    assert(w@->Number_0 =~= gl + seq!['.'] + gr);
                    lemma_ct_integral_no_dot(gl);
                    lemma_find_dot_join(gl, gr);
                    let t = w@->Number_0;
                    assert(find_dot(t, 0) == gl.len());
                    assert(t.subrange(0, gl.len() as int) =~= gl);
                    assert(t.subrange(gl.len() as int + 1, t.len() as int) =~= gr);
                    assert(spec_decrypt_integral(key@, tweak@.push(0u8), gl) == Ok::<
                        Seq<char>,
                        Error,
                    >(s@.subrange(0, d as int)));
                    assert(spec_decrypt_fractional(key@, tweak@.push(1u8), gr) == Ok::<
                        Seq<char>,
                        Error,
                    >(s@.subrange(d + 1 as int, s@.len() as int)));
                    assert(s@.subrange(0, d as int) + seq!['.'] + s@.subrange(
                        d + 1 as int,
                        s@.len() as int,
                    ) =~= s@);
                    assert(spec_dec_value(key@, tweak@, w@) == Ok::<SpecValue, Error>(v@));
                    assert(valid_ct_number(t));
                }
                Ok(w)
            }
        },
        Value::Text(s) => {
            match fpe_text_encrypt(key, tweak.as_slice(), s.as_str()) {
                Err(_) => {
                    proof {
                        assert(!enc_viable(v@, depth, m));
                    }
                    Err(Error::Fpe)
                },
                Ok(c) => {
                    let w = Value::Text(c);
                    proof {
                        assert(enc_shape(v@, w@, depth, m));
                        if collision_free(v@, depth, m) {
                            assert(spec_dec_value(key@, tweak@, w@) == Ok::<SpecValue, Error>(v@));
                        }
                    }
                    Ok(w)
                },
            }
        },
        Value::Array(vs) => {
            proof {
                assert(view_of(*v)->Array_0 =~= view_of_elems(vs));
            }
            if vs.len() > 256 {
                Err(Error::Schema)
            } else {
                proof {
                    assert(decreases_to!(vs => vs@));
                }
                match enc_elems(key, tweak, depth, m, vs, 0) {
                    Err(e) => {
                        proof {
                            if enc_viable(v@, depth, m) {
                                assert forall|q: int|
                                    0 <= q < vs@.len() implies enc_viable(
                                    #[trigger] view_of_elems(vs)[q],
                                    depth,
                                    m,
                                ) by {
                                    assert(view_of_elems(vs)[q] == v@->Array_0[q]);
                                }
                                assert(false);
                            }
                        }
                        Err(e)
                    },
                    Ok(out) => {
                        let ghost gout = view_of_elems(&out);
                        let ghost ges = view_of_elems(vs);
                        let w = Value::Array(out);
                        proof {
                            assert(w@->Array_0 =~= gout);
                            assert(v@->Array_0 =~= ges);
                            assert(enc_shape(v@, w@, depth, m)) by {
                                assert forall|q: int|
                                    0 <= q < v@->Array_0.len() implies enc_shape(
                                    #[trigger] v@->Array_0[q],
                                    w@->Array_0[q],
                                    depth,
                                    m,
                                ) by {
                                    assert(v@->Array_0[q] == ges[q]);
                                    assert(w@->Array_0[q] == gout[q - 0]);
                                    assert(enc_shape(ges[q], gout[q - 0], depth, m));
                                }
                            }
                            if collision_free(v@, depth, m) {
                                assert forall|q: int|
                                    0 <= q < ges.len() implies collision_free(
                                    #[trigger] ges[q],
                                    depth,
                                    m,
                                ) by {
                                    assert(ges[q] == v@->Array_0[q]);
                                }
                                assert(forall|q: int|
                                    0 <= q < ges.len() ==> #[trigger] gout[q] == gout[q - 0]);
                                assert(spec_dec_elems(key@, tweak@, gout, 0) == Ok::<
                                    Seq<SpecValue>,
                                    Error,
                                >(ges.skip(0)));
                                assert(ges.skip(0) =~= ges);
                                assert(spec_dec_value(key@, tweak@, w@) == Ok::<
                                    SpecValue,
                                    Error,
                                >(v@));
                            }
                        }
                        Ok(w)
                    },
                }
            }
        },
        Value::Object(ps) => {
            proof {
                assert(view_of(*v)->Object_0 =~= view_of_members(ps));
            }
            if m > 0 && depth > m {
                let jt = to_json_string(v);
                let ghost gjt = jt@;
                let mut pv: Vec<char> = Vec::new();
                pv.push('j');
                pv.push('s');
                pv.push('o');
                pv.push('n');
                let mut jv = chars_of(jt.as_str());
                pv.append(&mut jv);
                let pstr = string_of_chars(&pv);
                proof {
                    assert(pstr@ =~= seq!['j', 's', 'o', 'n'] + json_text(v@));
                }
                match fpe_text_encrypt(key, tweak.as_slice(), pstr.as_str()) {
                    Err(_) => {
                        proof {
                            if enc_viable(v@, depth, m) {
                                lemma_escape_text_count(json_text(v@));
                                assert(2 <= crate::fpe::utf_count(pstr@) <= u32::MAX);
                                assert(false);
                            }
                        }
                        Err(Error::Fpe)
                    },
                    Ok(c) => {
                        let w = Value::Text(c);
                        proof {
                            assert(enc_shape(v@, w@, depth, m));
                            let dtxt = pstr@;
                            assert(fpe_utf_dec(key@, tweak@, w@->Text_0) == Option::Some(dtxt));
                            assert(dtxt.subrange(0, 4) =~= seq!['j', 's', 'o', 'n']);
                            assert(dtxt.skip(4) =~= json_text(v@));
                            crate::json::lemma_parse_document_of_text(v@);
                            assert(spec_dec_value(key@, tweak@, w@) == Ok::<SpecValue, Error>(v@));
                        }
                        Ok(w)
                    },
                }
            } else {
                proof {
                    assert(decreases_to!(ps => ps@));
                }
                match enc_membs(key, tweak, depth, m, ps, 0) {
                    Err(e) => {
                        proof {
                            if enc_viable(v@, depth, m) {
                                assert forall|q: int|
                                    0 <= q < ps@.len() implies enc_viable(
                                    #[trigger] view_of_members(ps)[q].1,
                                    bump(depth),
                                    m,
                                ) by {
                                    assert(view_of_members(ps)[q] == v@->Object_0[q]);
                                }
                                assert(false);
                            }
                        }
                        Err(e)
                    },
                    Ok(out) => {
                        let ghost gout = view_of_members(&out);
                        let ghost gps = view_of_members(ps);
                        let w = Value::Object(out);
                        proof {
                            assert(w@->Object_0 =~= gout);
                            assert(v@->Object_0 =~= gps);
                            assert(enc_shape(v@, w@, depth, m)) by {
                                assert forall|q: int|
                                    0 <= q < v@->Object_0.len() implies #[trigger] w@->Object_0[q].0
                                    == v@->Object_0[q].0 by {
                                    assert(v@->Object_0[q] == gps[q]);
                                    assert(w@->Object_0[q] == gout[q - 0]);
                                    assert(gout[q - 0].0 == gps[q].0);
                                }
                                assert forall|q: int|
                                    0 <= q < v@->Object_0.len() implies enc_shape(
                                    #[trigger] v@->Object_0[q].1,
                                    w@->Object_0[q].1,
                                    bump(depth),
                                    m,
                                ) by {
                                    assert(v@->Object_0[q] == gps[q]);
                                    assert(w@->Object_0[q] == gout[q - 0]);
                                    assert(enc_shape(gps[q].1, gout[q - 0].1, bump(depth), m));
                                }
                            }
                            if collision_free(v@, depth, m) {
                                assert forall|q: int|
                                    0 <= q < gps.len() implies collision_free(
                                    #[trigger] gps[q].1,
                                    bump(depth),
                                    m,
                                ) by {
                                    assert(gps[q] == v@->Object_0[q]);
                                    assert(collision_free(v@->Object_0[q].1, bump(depth), m));
                                }
                                assert(forall|q: int|
                                    0 <= q < gps.len() ==> #[trigger] gout[q] == gout[q - 0]);
                                assert(spec_dec_membs(key@, tweak@, gout, 0) == Ok::<
                                    Seq<(Seq<char>, SpecValue)>,
                                    Error,
                                >(gps.skip(0)));
                                assert(gps.skip(0) =~= gps);
                                assert(spec_dec_value(key@, tweak@, w@) == Ok::<
                                    SpecValue,
                                    Error,
                                >(v@));
                            }
                        }
                        Ok(w)
                    },
                }
            }
        },
    }
}

/// Encrypts the array elements from index `k` on.
fn enc_elems(key: &[u8], tweak: &Vec<u8>, depth: u32, m: u32, vs: &Vec<Value>, k: usize) -> (r:
    Result<Vec<Value>, Error>)
    requires
        key@.len() == 32,
        k <= vs@.len(),
        vs@.len() <= 256,
        forall|q: int| 0 <= q < vs@.len() ==> wf_doc(#[trigger] view_of_elems(vs)[q]),
        forall|q: int| 0 <= q < vs@.len() ==> bounded_doc(#[trigger] view_of_elems(vs)[q]),
    ensures
        match r {
            Ok(out) => {
                &&& spec_enc_elems_check(key@, tweak@, depth, m, view_of_elems(vs), k as int)
                    == Ok::<(), Error>(())
                &&& out@.len() == vs@.len() - k
                &&& forall|q: int|
                    k <= q < vs@.len() ==> enc_shape(
                        #[trigger] view_of_elems(vs)[q],
                        view_of_elems(&out)[q - k],
                        depth,
                        m,
                    )
                &&& ((forall|q: int|
                    k <= q < vs@.len() ==> collision_free(#[trigger] view_of_elems(vs)[q], depth, m))
                    ==> (forall|full: Seq<SpecValue>|
                    (full.len() == vs@.len() && (forall|q: int|
                        k <= q < vs@.len() ==> #[trigger] full[q] == view_of_elems(&out)[q - k]))
                        ==> #[trigger] spec_dec_elems(key@, tweak@, full, k as int) == Ok::<
                        Seq<SpecValue>,
                        Error,
                    >(view_of_elems(vs).skip(k as int))))
            },
            Err(e) => spec_enc_elems_check(key@, tweak@, depth, m, view_of_elems(vs), k as int)
                == Err::<(), Error>(e),
        },
        (forall|q: int| k <= q < vs@.len() ==> enc_viable(#[trigger] view_of_elems(vs)[q], depth, m))
            ==> r is Ok,
    decreases vs, (vs@.len() - k) as nat, 1nat,
{
    let ghost ges = view_of_elems(vs);
    if k >= vs.len() {
        let out: Vec<Value> = Vec::new();
        proof {
            assert(view_of_elems(&out) =~= Seq::<SpecValue>::empty());
            assert(ges.skip(k as int) =~= Seq::<SpecValue>::empty());
        }
        return Ok(out);
    }
    let tk = tweak_push(tweak, k as u8);
    proof {
        assert(decreases_to!(vs => vs@));
        assert(decreases_to!(vs@ => vs@[k as int]));
        assert(ges[k as int] == vs@[k as int]@);
    }
    match enc_node(key, &tk, depth, m, &vs[k]) {
        Err(e) => Err(e),
        Ok(w) => match enc_elems(key, tweak, depth, m, vs, k + 1) {
            Err(e) => Err(e),
            Ok(rest) => {
                let ghost gw = w@;
                let ghost grest = view_of_elems(&rest);
                let mut out: Vec<Value> = Vec::new();
                out.push(w);
                let mut rm = rest;
                out.append(&mut rm);
                let ghost gout = view_of_elems(&out);
                proof {
                    assert(gout =~= seq![gw] + grest);
                    assert forall|q: int|
                        k <= q < vs@.len() implies enc_shape(
                        #[trigger] ges[q],
                        gout[q - k],
                        depth,
                        m,
                    ) by {
                        if q == k {
                            assert(gout[0] == gw);
                        } else {
                            assert(gout[q - k] == grest[q - (k + 1)]);
                            assert(enc_shape(ges[q], grest[q - (k + 1)], depth, m));
                        }
                    }
                    if forall|q: int|
                        k <= q < vs@.len() ==> collision_free(#[trigger] ges[q], depth, m) {
                        assert(collision_free(ges[k as int], depth, m));
                        assert forall|full: Seq<SpecValue>|
                            (full.len() == vs@.len() && (forall|q: int|
                                k <= q < vs@.len() ==> #[trigger] full[q] == gout[q
                                    - k])) implies #[trigger] spec_dec_elems(
                            key@,
                            tweak@,
                            full,
                            k as int,
                        ) == Ok::<Seq<SpecValue>, Error>(ges.skip(k as int)) by {
                            assert(full[k as int] == gout[0]);
                            assert(gout[0] == gw);
                            assert(spec_dec_value(key@, tweak@.push(k as u8), full[k as int])
                                == Ok::<SpecValue, Error>(ges[k as int]));
                            assert(forall|q: int|
                                k + 1 <= q < vs@.len() ==> #[trigger] full[q] == grest[q - (k
                                    + 1)]);
                            assert(spec_dec_elems(key@, tweak@, full, k + 1 as int) == Ok::<
                                Seq<SpecValue>,
                                Error,
                            >(ges.skip(k + 1 as int)));
                            assert(seq![ges[k as int]] + ges.skip(k + 1) =~= ges.skip(k as int));
                        }
                    }
                }
                Ok(out)
            },
        },
    }
}

/// Encrypts the object members from index `k` on; member values descend one
/// depth level, member keys pass through.
fn enc_membs(key: &[u8], tweak: &Vec<u8>, depth: u32, m: u32, ps: &Vec<(String, Value)>, k: usize) -> (r:
    Result<Vec<(String, Value)>, Error>)
    requires
        key@.len() == 32,
        k <= ps@.len(),
        forall|q: int| 0 <= q < ps@.len() ==> wf_doc(#[trigger] view_of_members(ps)[q].1),
        forall|q: int| 0 <= q < ps@.len() ==> bounded_doc(#[trigger] view_of_members(ps)[q].1),
    ensures
        match r {
            Ok(out) => {
                &&& spec_enc_membs_check(key@, tweak@, depth, m, view_of_members(ps), k as int)
                    == Ok::<(), Error>(())
                &&& out@.len() == ps@.len() - k
                &&& forall|q: int|
                    k <= q < ps@.len() ==> #[trigger] view_of_members(&out)[q - k].0
                        == view_of_members(ps)[q].0
                &&& forall|q: int|
                    k <= q < ps@.len() ==> enc_shape(
                        #[trigger] view_of_members(ps)[q].1,
                        view_of_members(&out)[q - k].1,
                        bump(depth),
                        m,
                    )
                &&& ((forall|q: int|
                    k <= q < ps@.len() ==> collision_free(
                        #[trigger] view_of_members(ps)[q].1,
                        bump(depth),
                        m,
                    )) ==> (forall|full: Seq<(Seq<char>, SpecValue)>|
                    (full.len() == ps@.len() && (forall|q: int|
                        k <= q < ps@.len() ==> #[trigger] full[q] == view_of_members(&out)[q - k]))
                        ==> #[trigger] spec_dec_membs(key@, tweak@, full, k as int) == Ok::<
                        Seq<(Seq<char>, SpecValue)>,
                        Error,
                    >(view_of_members(ps).skip(k as int))))
            },
            Err(e) => spec_enc_membs_check(key@, tweak@, depth, m, view_of_members(ps), k as int)
                == Err::<(), Error>(e),
        },
        (forall|q: int|
            k <= q < ps@.len() ==> enc_viable(#[trigger] view_of_members(ps)[q].1, bump(depth), m))
            ==> r is Ok,
    decreases ps, (ps@.len() - k) as nat, 1nat,
{
    let ghost gps = view_of_members(ps);
    if k >= ps.len() {
        let out: Vec<(String, Value)> = Vec::new();
        proof {
            assert(view_of_members(&out) =~= Seq::<(Seq<char>, SpecValue)>::empty());
            assert(gps.skip(k as int) =~= Seq::<(Seq<char>, SpecValue)>::empty());
        }
        return Ok(out);
    }
    let tk = tweak_key(tweak, ps[k].0.as_str());
    let d2: u32 = if depth < u32::MAX {
        depth + 1
    } else {
        depth
    };
    proof {
        assert(d2 == bump(depth));
        assert(decreases_to!(ps => ps@));
        assert(decreases_to!(ps@ => ps@[k as int]));
        assert(gps[k as int].0 == ps@[k as int].0@);
        assert(gps[k as int].1 == ps@[k as int].1@);
    }
    match enc_node(key, &tk, d2, m, &ps[k].1) {
        Err(e) => Err(e),
        Ok(w) => match enc_membs(key, tweak, depth, m, ps, k + 1) {
            Err(e) => Err(e),
            Ok(rest) => {
                let ghost gw = w@;
                let ghost gk = ps@[k as int].0@;
                let ghost grest = view_of_members(&rest);
                let kc = ps[k].0.clone();
                let mut out: Vec<(String, Value)> = Vec::new();
                out.push((kc, w));
                let mut rm = rest;
                out.append(&mut rm);
                let ghost gout = view_of_members(&out);
                proof {
                    assert(gout =~= seq![(gk, gw)] + grest);
                    assert forall|q: int|
                        k <= q < ps@.len() implies #[trigger] gout[q - k].0 == gps[q].0 by {
                        if q == k {
                            assert(gout[0] == (gk, gw));
                        } else {
                            assert(gout[q - k] == grest[q - (k + 1)]);
                        }
                    }
                    assert forall|q: int|
                        k <= q < ps@.len() implies enc_shape(
                        #[trigger] gps[q].1,
                        gout[q - k].1,
                        bump(depth),
                        m,
                    ) by {
                        if q == k {
                            assert(gout[0] == (gk, gw));
                        } else {
                            assert(gout[q - k] == grest[q - (k + 1)]);
                            assert(enc_shape(gps[q].1, grest[q - (k + 1)].1, bump(depth), m));
                        }
                    }
                    if forall|q: int|
                        k <= q < ps@.len() ==> collision_free(#[trigger] gps[q].1, bump(depth), m) {
                        assert(collision_free(gps[k as int].1, bump(depth), m));
                        assert forall|full: Seq<(Seq<char>, SpecValue)>|
                            (full.len() == ps@.len() && (forall|q: int|
                                k <= q < ps@.len() ==> #[trigger] full[q] == gout[q
                                    - k])) implies #[trigger] spec_dec_membs(
                            key@,
                            tweak@,
                            full,
                            k as int,
                        ) == Ok::<Seq<(Seq<char>, SpecValue)>, Error>(gps.skip(k as int)) by {
                            assert(full[k as int] == gout[0]);
                            assert(gout[0] == (gk, gw));
                            assert(full[k as int].0 == gk);
                            assert(full[k as int].1 == gw);
                            assert(spec_dec_value(key@, tweak@ + encode_utf8(gk), full[k as int].1)
                                == Ok::<SpecValue, Error>(gps[k as int].1));
                            assert(forall|q: int|
                                k + 1 <= q < ps@.len() ==> #[trigger] full[q] == grest[q - (k
                                    + 1)]);
                            assert(spec_dec_membs(key@, tweak@, full, k + 1 as int) == Ok::<
                                Seq<(Seq<char>, SpecValue)>,
                                Error,
                            >(gps.skip(k + 1 as int)));
                            assert((gps[k as int].0, gps[k as int].1) == gps[k as int]);
                            assert(seq![gps[k as int]] + gps.skip(k + 1) =~= gps.skip(k as int));
                        }
                    }
                }
                Ok(out)
            },
        },
    }
}

} // verus!
