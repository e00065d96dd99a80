//! Trusted boundary to the format-preserving-encryption primitive.
//!
//! The engine never reimplements FPE: every call goes through the wrappers
//! below, whose contracts state what the primitive's source shows — length
//! preservation over the alphabet, determinism, the decrypt-of-encrypt round
//! trip, and the input bounds under which a call is owed to succeed.
use vstd::prelude::*;

use crate::chars::all_digits;

verus! {

#[verifier::external_type_specification]
#[verifier::external_body]
pub struct ExAnoError(cloudproof_fpe::core::AnoError);

/// `c` belongs to the primitive's full-Unicode alphabet: the code points up
/// to U+10000 (surrogates are no Rust characters and need no exclusion).
/// Characters outside the alphabet pass through a call unchanged, in place.
pub open spec fn in_utf_alphabet(c: char) -> bool {
    c as u32 <= 65536
}

/// Membership in the full-Unicode alphabet, as a predicate value.
pub open spec fn utf_pred() -> spec_fn(char) -> bool {
    |c: char| in_utf_alphabet(c)
}

/// How many characters of `s` lie in the full-Unicode alphabet.
pub open spec fn utf_count(s: Seq<char>) -> nat {
    s.filter(utf_pred()).len()
}

/// What FPE encryption over the ten-digit alphabet returns for a key, a
/// tweak and a plaintext — `None` when the call fails. The call draws no
/// randomness: the result is a function of the arguments alone.
pub uninterp spec fn fpe_num_enc(key: Seq<u8>, tweak: Seq<u8>, pt: Seq<char>) -> Option<
    Seq<char>,
>;

/// What FPE decryption over the ten-digit alphabet returns.
pub uninterp spec fn fpe_num_dec(key: Seq<u8>, tweak: Seq<u8>, ct: Seq<char>) -> Option<
    Seq<char>,
>;

/// What FPE encryption over the full-Unicode alphabet returns.
pub uninterp spec fn fpe_utf_enc(key: Seq<u8>, tweak: Seq<u8>, pt: Seq<char>) -> Option<
    Seq<char>,
>;

/// What FPE decryption over the full-Unicode alphabet returns.
pub uninterp spec fn fpe_utf_dec(key: Seq<u8>, tweak: Seq<u8>, ct: Seq<char>) -> Option<
    Seq<char>,
>;

/// Relies on `cloudproof_fpe::core::Alphabet::numeric()::encrypt`: FF1
/// encryption of a digit string under a 32-byte key and a tweak.  The result
/// is deterministic, keeps the length and the digit alphabet, decrypts back
/// to the plaintext, and the call succeeds whenever the plaintext is all
/// digits and its length lies within the primitive's bounds: the minimum
/// secure length it computes for the ten-digit alphabet is six (at most
/// seven under its float rounding), so eight always suffices, and the
/// maximum is `u32::MAX` numerals.
#[verifier::external_body]
pub(crate) fn fpe_digits_encrypt(key: &[u8], tweak: &[u8], pt: &str) -> (r: Result<
    String,
    cloudproof_fpe::core::AnoError,
>)
    requires
        key@.len() == 32,
    ensures
        r is Ok <==> fpe_num_enc(key@, tweak@, pt@) is Some,
        r is Ok ==> fpe_num_enc(key@, tweak@, pt@) == Some(r.unwrap()@),
        r is Ok ==> r.unwrap()@.len() == pt@.len(),
        r is Ok && all_digits(pt@) ==> all_digits(r.unwrap()@),
        r is Ok ==> fpe_num_dec(key@, tweak@, r.unwrap()@) == Some(pt@),
        all_digits(pt@) && 8 <= pt@.len() <= u32::MAX ==> r is Ok,
{
    cloudproof_fpe::core::Alphabet::numeric().encrypt(key, tweak, pt)
}

/// Relies on `cloudproof_fpe::core::Alphabet::numeric()::decrypt`: FF1
/// decryption of a digit string.  Deterministic, length- and
/// alphabet-preserving, and owed to succeed on an all-digit ciphertext of at
/// least eight digits (the primitive's own minimum for radix ten is six).
#[verifier::external_body]
pub(crate) fn fpe_digits_decrypt(key: &[u8], tweak: &[u8], ct: &str) -> (r: Result<
    String,
    cloudproof_fpe::core::AnoError,
>)
    requires
        key@.len() == 32,
    ensures
        r is Ok <==> fpe_num_dec(key@, tweak@, ct@) is Some,
        r is Ok ==> fpe_num_dec(key@, tweak@, ct@) == Some(r.unwrap()@),
        r is Ok ==> r.unwrap()@.len() == ct@.len(),
        r is Ok && all_digits(ct@) ==> all_digits(r.unwrap()@),
        all_digits(ct@) && 8 <= ct@.len() <= u32::MAX ==> r is Ok,
{
    cloudproof_fpe::core::Alphabet::numeric().decrypt(key, tweak, ct)
}

/// Relies on `cloudproof_fpe::core::Alphabet::utf()::encrypt`: FF1
/// encryption of a string over the full-Unicode alphabet.  Characters
/// outside the alphabet stay in place unencrypted, so the count of alphabet
/// characters is preserved; the call succeeds whenever at least two
/// characters (and at most `u32::MAX`) lie in the alphabet.
#[verifier::external_body]
pub(crate) fn fpe_text_encrypt(key: &[u8], tweak: &[u8], pt: &str) -> (r: Result<
    String,
    cloudproof_fpe::core::AnoError,
>)
    requires
        key@.len() == 32,
    ensures
        r is Ok <==> fpe_utf_enc(key@, tweak@, pt@) is Some,
        r is Ok ==> fpe_utf_enc(key@, tweak@, pt@) == Some(r.unwrap()@),
        r is Ok ==> r.unwrap()@.len() == pt@.len(),
        r is Ok ==> utf_count(r.unwrap()@) == utf_count(pt@),
        r is Ok ==> fpe_utf_dec(key@, tweak@, r.unwrap()@) == Some(pt@),
        2 <= utf_count(pt@) <= u32::MAX ==> r is Ok,
{
    cloudproof_fpe::core::Alphabet::utf().encrypt(key, tweak, pt)
}

/// Relies on `cloudproof_fpe::core::Alphabet::utf()::decrypt`: FF1
/// decryption over the full-Unicode alphabet.  Deterministic and
/// length-preserving; owed to succeed when at least two (and at most
/// `u32::MAX`) of the ciphertext's characters lie in the alphabet.
#[verifier::external_body]
pub(crate) fn fpe_text_decrypt(key: &[u8], tweak: &[u8], ct: &str) -> (r: Result<
    String,
    cloudproof_fpe::core::AnoError,
>)
    requires
        key@.len() == 32,
    ensures
        r is Ok <==> fpe_utf_dec(key@, tweak@, ct@) is Some,
        r is Ok ==> fpe_utf_dec(key@, tweak@, ct@) == Some(r.unwrap()@),
        r is Ok ==> r.unwrap()@.len() == ct@.len(),
        2 <= utf_count(ct@) <= u32::MAX ==> r is Ok,
{
    cloudproof_fpe::core::Alphabet::utf().decrypt(key, tweak, ct)
}

/// Relies on `rand::random_range`: a uniform draw from a non-empty range,
/// from the thread's cryptographically secure generator.  Nothing beyond the
/// bounds can be promised of the result, and two calls may differ.
#[verifier::external_body]
pub(crate) fn draw_range_u64(lo: u64, hi: u64) -> (r: u64)
    requires
        lo < hi,
    ensures
        lo <= r < hi,
{
    rand::random_range(lo..hi)
}

} // verus!
