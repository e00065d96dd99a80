//! The numeric codec: format-preserving encryption of decimal numerals.
//!
//! A numeral is treated as text, never as a machine number, so the exact
//! written form survives a round trip.  The integral half is left-anchored:
//! an eight-digit random block is prepended, the digits are enciphered over
//! the ten-digit alphabet, a random non-zero digit is put in front so the
//! result never starts with a zero, and the random block's parity carries
//! the sign.  The fractional half mirrors this to the right.
use vstd::prelude::*;
use vstd::pervasive::unreached;

use crate::chars::all_digits;
use crate::chars::all_digits_vec;
use crate::chars::chars_of;
use crate::chars::head_vec;
use crate::chars::digit_char;
use crate::chars::digit_even;
use crate::chars::digit_val;
use crate::chars::is_digit;
use crate::chars::is_digit_char;
use crate::chars::is_even_digit;
use crate::chars::lemma_trim_of_lpad;
use crate::chars::lemma_trim_of_rpad;
use crate::chars::lemma_trim_leading_shape;
use crate::chars::lpad;
use crate::chars::lpad_vec;
use crate::chars::rpad;
use crate::chars::rpad_vec;
use crate::chars::string_of_chars;
use crate::chars::tail_vec;
use crate::chars::trim_leading_vec;
use crate::chars::trim_leading_zeros;
use crate::chars::trim_trailing_vec;
use crate::chars::trim_trailing_zeros;
use crate::error::Error;
use crate::fpe::fpe_digits_decrypt;
use crate::fpe::fpe_digits_encrypt;
use crate::fpe::fpe_num_dec;
use crate::fpe::draw_range_u64;

verus! {

/// Digits of padding on each side of a numeral half.
pub const WIDTH: usize = 8;

/// The digits of a numeral after an optional leading minus sign.
pub open spec fn numeral_body(s: Seq<char>) -> Seq<char> {
    if s.len() > 0 && s[0] == '-' {
        s.drop_first()
    } else {
        s
    }
}

/// The numeral starts with a minus sign.
pub open spec fn numeral_neg(s: Seq<char>) -> bool {
    s.len() > 0 && s[0] == '-'
}

/// A well-formed integral numeral: an optional minus sign, then digits with
/// no leading zero (the single digit `0`, possibly signed, is allowed).
pub open spec fn wf_integral(s: Seq<char>) -> bool {
    let b = numeral_body(s);
    b.len() >= 1 && all_digits(b) && (b[0] != '0' || b.len() == 1)
}

/// A well-formed fractional numeral: digits with no trailing zero.
pub open spec fn wf_fraction(s: Seq<char>) -> bool {
    s.len() >= 1 && all_digits(s) && s.last() != '0'
}

/// A valid integral ciphertext numeral: an optional minus sign, then digits
/// whose first is not zero.
pub open spec fn ct_integral(s: Seq<char>) -> bool {
    let b = numeral_body(s);
    b.len() >= 1 && all_digits(b) && b[0] != '0'
}

/// What decrypting an integral ciphertext yields: strip the sign, drop the
/// leading filler digit, decipher, read the sign from the parity digit at
/// the end of the random block, drop the block, and trim leading zeros (an
/// all-zero remainder reads as `0`).  Errors: the primitive's failure is
/// `Fpe`; a shape that cannot be a produced ciphertext is `Encoding`.
pub open spec fn spec_decrypt_integral(key: Seq<u8>, tweak: Seq<u8>, s: Seq<char>) -> Result<
    Seq<char>,
    Error,
> {
    let neg = numeral_neg(s);
    let t = numeral_body(s);
    if t.len() < 1 {
        Err(Error::Encoding)
    } else {
        let body = t.drop_first();
        if body.len() < 16 {
            Err(Error::Encoding)
        } else {
            match fpe_num_dec(key, tweak, body) {
                Option::None => Err(Error::Fpe),
                Option::Some(p) => {
                    if p.len() < 16 {
                        Err(Error::Encoding)
                    } else if !is_digit(p[7]) {
                        Err(Error::Encoding)
                    } else {
                        let neg_out = neg != digit_even(p[7]);
                        let trimmed = trim_leading_zeros(p.subrange(8, p.len() as int));
                        if !all_digits(trimmed) {
                            Err(Error::Encoding)
                        } else {
                            let digits = if trimmed.len() == 0 {
                                seq!['0']
                            } else {
                                trimmed
                            };
                            Ok(
                                if neg_out {
                                    seq!['-'] + digits
                                } else {
                                    digits
                                },
                            )
                        }
                    }
                },
            }
        }
    }
}

/// What decrypting a fractional ciphertext yields: drop the trailing filler
/// digit, decipher, drop the eight-digit random block at the end, and trim
/// trailing zeros (an all-zero remainder reads as `0`).
pub open spec fn spec_decrypt_fractional(key: Seq<u8>, tweak: Seq<u8>, s: Seq<char>) -> Result<
    Seq<char>,
    Error,
> {
    if s.len() < 1 {
        Err(Error::Encoding)
    } else {
        let body = s.drop_last();
        if body.len() < 16 {
            Err(Error::Encoding)
        } else {
            match fpe_num_dec(key, tweak, body) {
                Option::None => Err(Error::Fpe),
                Option::Some(p) => {
                    if p.len() < 16 {
                        Err(Error::Encoding)
                    } else {
                        let trimmed = trim_trailing_zeros(p.subrange(0, p.len() - 8));
                        if !all_digits(trimmed) {
                            Err(Error::Encoding)
                        } else {
                            Ok(
                                if trimmed.len() == 0 {
                                    seq!['0']
                                } else {
                                    trimmed
                                },
                            )
                        }
                    }
                },
            }
        }
    }
}

/// The eight low decimal digits of `r`, most significant first.
fn digits_fixed8(r: u64) -> (out: Vec<char>)
    ensures
        out@.len() == 8,
        all_digits(out@),
        digit_val(out@[7]) == r % 10,
{
    let mut acc: u64 = r;
    let mut rev: Vec<char> = Vec::new();
    while rev.len() < 8
        invariant
            rev@.len() <= 8,
            all_digits(rev@),
            rev@.len() == 0 ==> acc == r,
            rev@.len() > 0 ==> digit_val(rev@[0]) == r % 10,
        decreases 8 - rev@.len(),
    {
        rev.push(digit_char(acc % 10));
        acc = acc / 10;
    }
    let mut out: Vec<char> = Vec::new();
    let mut j: usize = 0;
    while j < 8
        invariant
            j <= 8,
            rev@.len() == 8,
            all_digits(rev@),
            digit_val(rev@[0]) == r % 10,
            out@.len() == j,
            forall|i: int| 0 <= i < j ==> out@[i] == rev@[7 - i],
        decreases 8 - j,
    {
        out.push(rev[7 - j]);
        j = j + 1;
    }
    assert(all_digits(out@));
    assert(out@[7] == rev@[0]);
    out
}

/// Encrypts a well-formed integral numeral; the result decrypts back to the
/// numeral under the same key and tweak, and is itself a valid integral
/// numeral (it never starts with a zero).
pub fn encrypt_integral(secret_key: &[u8], nonce: &[u8], s: &str) -> (r: String)
    requires
        secret_key@.len() == 32,
        wf_integral(s@),
        s@.len() + 16 <= u32::MAX,
    ensures
        spec_decrypt_integral(secret_key@, nonce@, r@) == Ok::<Seq<char>, Error>(s@),
        ct_integral(r@),
        r@.len() >= 17,
{
    let n = s.unicode_len();
    let neg = s.get_char(0) == '-';
    let body: Vec<char> = if neg {
        chars_of(s.substring_char(1, n))
    } else {
        chars_of(s)
    };
    proof {
        assert(body@ =~= numeral_body(s@));
    }
    let r64 = draw_range_u64(1, 100000000);
    let rd = digits_fixed8(r64);
    let parity: char = rd[7];
    let flip = is_even_digit(parity);
    let pb = lpad_vec(&body, WIDTH);
    let mut padded = rd;
    let mut pbm = pb;
    padded.append(&mut pbm);
    proof {
        assert(all_digits(padded@)) by {
            assert(forall|i: int|
                0 <= i < padded@.len() ==> is_digit(#[trigger] padded@[i]));
        }
        assert(padded@.len() >= 16);
        assert(padded@.len() <= 16 + s@.len());
    }
    let pstr = string_of_chars(&padded);
    let ct: String = match fpe_digits_encrypt(secret_key, nonce, pstr.as_str()) {
        Ok(c) => c,
        Err(_) => unreached(),
    };
    let d64 = draw_range_u64(1, 10);
    let dch = digit_char(d64);
    let sign_out = neg != flip;
    let mut out: Vec<char> = Vec::new();
    if sign_out {
        out.push('-');
    }
    out.push(dch);
    let mut ctv = chars_of(ct.as_str());
    out.append(&mut ctv);
    let res = string_of_chars(&out);
    proof {
        let key = secret_key@;
        let tw = nonce@;
        let rv = res@;
        let p = padded@;
        assert(p =~= rd@ + lpad(body@, 8));
        if sign_out {
            assert(rv =~= seq!['-'] + (seq![dch] + ct@));
        } else {
            assert(rv =~= seq![dch] + ct@);
        }
        assert(numeral_neg(rv) == sign_out);
        assert(numeral_body(rv) =~= seq![dch] + ct@);
        let t = numeral_body(rv);
        let bodyc = t.drop_first();
        assert(bodyc =~= ct@);
        assert(fpe_num_dec(key, tw, bodyc) == Some(p));
        assert(p.len() >= 16);
        assert(p[7] == rd@[7]);
        assert(is_digit(p[7]));
        assert((sign_out != digit_even(p[7])) == neg);
        let sub = p.subrange(8, p.len() as int);
        assert(sub =~= lpad(body@, 8));
        lemma_trim_of_lpad(body@, 8);
        let trimmed = trim_leading_zeros(sub);
        if body@[0] != '0' {
            assert(trimmed == body@);
            assert(all_digits(trimmed));
            assert(trimmed.len() > 0);
        } else {
            assert(body@.len() == 1);
            assert(body@ =~= seq!['0']);
            assert(trimmed =~= Seq::<char>::empty());
        }
        let digits = if trimmed.len() == 0 {
            seq!['0']
        } else {
            trimmed
        };
        assert(digits =~= body@);
        if neg {
            assert(s@ =~= seq!['-'] + body@);
        } else {
            assert(s@ =~= body@);
        }
        assert(spec_decrypt_integral(key, tw, rv) == Ok::<Seq<char>, Error>(s@));
        assert(numeral_body(rv)[0] == dch);
        assert(digit_val(dch) >= 1);
        assert(ct_integral(rv));
    }
    res
}

/// Decrypts an integral ciphertext numeral: the exact inverse of
/// `encrypt_integral` on everything it produces, and a pure function of the
/// key, the tweak and the ciphertext.
pub fn decrypt_integral(secret_key: &[u8], nonce: &[u8], s: &str) -> (r: Result<String, Error>)
    requires
        secret_key@.len() == 32,
    ensures
        match r {
            Ok(out) => spec_decrypt_integral(secret_key@, nonce@, s@) == Ok::<Seq<char>, Error>(
                out@,
            ),
            Err(e) => spec_decrypt_integral(secret_key@, nonce@, s@) == Err::<Seq<char>, Error>(e),
        },
{
    let v = chars_of(s);
    let neg = v.len() > 0 && v[0] == '-';
    let t: Vec<char> = if neg {
        tail_vec(&v, 1)
    } else {
        v
    };
    proof {
        assert(t@ =~= numeral_body(s@));
    }
    if t.len() < 1 {
        return Err(Error::Encoding);
    }
    let body = tail_vec(&t, 1);
    proof {
        assert(body@ =~= numeral_body(s@).drop_first());
    }
    if body.len() < 16 {
        return Err(Error::Encoding);
    }
    let body_str = string_of_chars(&body);
    let p: String = match fpe_digits_decrypt(secret_key, nonce, body_str.as_str()) {
        Ok(p) => p,
        Err(_) => {
            return Err(Error::Fpe);
        },
    };
    let pv = chars_of(p.as_str());
    proof {
        assert(fpe_num_dec(secret_key@, nonce@, body@) == Some(pv@));
        assert(pv@.len() == body@.len());
    }
    let c7: char = pv[7];
    if !is_digit_char(c7) {
        return Err(Error::Encoding);
    }
    let neg_out = neg != is_even_digit(c7);
    let rest = tail_vec(&pv, 8);
    let trimmed = trim_leading_vec(&rest);
    proof {
        assert(rest@ =~= pv@.subrange(8, pv@.len() as int));
    }
    if !all_digits_vec(&trimmed) {
        return Err(Error::Encoding);
    }
    let digits: Vec<char> = if trimmed.len() == 0 {
        vec!['0']
    } else {
        trimmed
    };
    let mut out: Vec<char> = Vec::new();
    if neg_out {
        out.push('-');
    }
    let mut dm = digits;
    out.append(&mut dm);
    let res = string_of_chars(&out);
    proof {
        let sd = spec_decrypt_integral(secret_key@, nonce@, s@);
        let spec_trimmed = trim_leading_zeros(pv@.subrange(8, pv@.len() as int));
        let spec_digits = if spec_trimmed.len() == 0 {
            seq!['0']
        } else {
            spec_trimmed
        };
        if trim_leading_zeros(rest@).len() == 0 {
            assert(spec_digits =~= seq!['0']);
        }
        if neg_out {
            assert(res@ =~= seq!['-'] + spec_digits);
        } else {
            assert(res@ =~= spec_digits);
        }
        assert(sd == Ok::<Seq<char>, Error>(res@));
    }
    Ok(res)
}

/// Encrypts a well-formed fractional numeral; the result decrypts back to
/// the numeral under the same key and tweak, and never ends in a zero.
pub fn encrypt_fractional(secret_key: &[u8], nonce: &[u8], s: &str) -> (r: String)
    requires
        secret_key@.len() == 32,
        wf_fraction(s@),
        s@.len() + 16 <= u32::MAX,
    ensures
        spec_decrypt_fractional(secret_key@, nonce@, r@) == Ok::<Seq<char>, Error>(s@),
        wf_fraction(r@),
        r@.len() >= 17,
{
    let body = chars_of(s);
    let r64 = draw_range_u64(1, 100000000);
    let rd = digits_fixed8(r64);
    let rmin = trim_leading_vec(&rd);
    let rblock = rpad_vec(&rmin, WIDTH);
    proof {
        lemma_trim_leading_shape(rd@);
        assert(rblock@.len() == 8);
        assert(all_digits(rblock@)) by {
            assert(forall|i: int|
                0 <= i < rblock@.len() ==> is_digit(#[trigger] rblock@[i]));
        }
    }
    let pb = rpad_vec(&body, WIDTH);
    let mut padded = pb;
    let mut rbm = rblock;
    padded.append(&mut rbm);
    proof {
        assert(all_digits(padded@)) by {
            assert(forall|i: int|
                0 <= i < padded@.len() ==> is_digit(#[trigger] padded@[i]));
        }
        assert(padded@.len() >= 16);
        assert(padded@.len() <= 16 + s@.len());
    }
    let pstr = string_of_chars(&padded);
    let ct: String = match fpe_digits_encrypt(secret_key, nonce, pstr.as_str()) {
        Ok(c) => c,
        Err(_) => unreached(),
    };
    let d64 = draw_range_u64(1, 10);
    let dch = digit_char(d64);
    let mut out = chars_of(ct.as_str());
    out.push(dch);
    let res = string_of_chars(&out);
    proof {
        let key = secret_key@;
        let tw = nonce@;
        let rv = res@;
        let p = padded@;
        assert(p =~= rpad(body@, 8) + rblock@);
        assert(rv =~= ct@ + seq![dch]);
        assert(rv.len() >= 17);
        let b = rv.drop_last();
        assert(b =~= ct@);
        assert(fpe_num_dec(key, tw, b) == Some(p));
        assert(p.len() >= 16);
        let kept = p.subrange(0, p.len() - 8);
        assert(kept =~= rpad(body@, 8));
        lemma_trim_of_rpad(body@, 8);
        let trimmed = trim_trailing_zeros(kept);
        assert(trimmed == body@);
        assert(all_digits(trimmed));
        assert(trimmed.len() > 0);
        assert(spec_decrypt_fractional(key, tw, rv) == Ok::<Seq<char>, Error>(s@));
        assert(rv.last() == dch);
        assert(digit_val(dch) >= 1);
        assert(wf_fraction(rv));
    }
    res
}

/// Decrypts a fractional ciphertext numeral: the exact inverse of
/// `encrypt_fractional` on everything it produces, and a pure function of
/// the key, the tweak and the ciphertext.
pub fn decrypt_fractional(secret_key: &[u8], nonce: &[u8], s: &str) -> (r: Result<String, Error>)
    requires
        secret_key@.len() == 32,
    ensures
        match r {
            Ok(out) => spec_decrypt_fractional(secret_key@, nonce@, s@) == Ok::<Seq<char>, Error>(
                out@,
            ),
            Err(e) => spec_decrypt_fractional(secret_key@, nonce@, s@) == Err::<
                Seq<char>,
                Error,
            >(e),
        },
{
    let v = chars_of(s);
    if v.len() < 1 {
        return Err(Error::Encoding);
    }
    let body = head_vec(&v, v.len() - 1);
    proof {
        assert(body@ =~= s@.drop_last());
    }
    if body.len() < 16 {
        return Err(Error::Encoding);
    }
    let body_str = string_of_chars(&body);
    let p: String = match fpe_digits_decrypt(secret_key, nonce, body_str.as_str()) {
        Ok(p) => p,
        Err(_) => {
            return Err(Error::Fpe);
        },
    };
    let pv = chars_of(p.as_str());
    proof {
        assert(fpe_num_dec(secret_key@, nonce@, body@) == Some(pv@));
        assert(pv@.len() == body@.len());
    }
    let kept = head_vec(&pv, pv.len() - 8);
    let trimmed = trim_trailing_vec(&kept);
    proof {
        assert(kept@ =~= pv@.subrange(0, pv@.len() - 8));
    }
    if !all_digits_vec(&trimmed) {
        return Err(Error::Encoding);
    }
    let out: Vec<char> = if trimmed.len() == 0 {
        vec!['0']
    } else {
        trimmed
    };
    let res = string_of_chars(&out);
    proof {
        let spec_trimmed = trim_trailing_zeros(pv@.subrange(0, pv@.len() - 8));
        if spec_trimmed.len() == 0 {
            assert(res@ =~= seq!['0']);
        }
        assert(spec_decrypt_fractional(secret_key@, nonce@, s@) == Ok::<Seq<char>, Error>(res@));
    }
    Ok(res)
}
} // verus!
