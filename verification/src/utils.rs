//! Key derivation: a fixed-length secret key from a passphrase.
//!
//! The salt is intentionally a fixed block of zeros: the scheme is
//! content-addressed by passphrase, so the same passphrase must yield the
//! same key across runs, with no sidecar to store a salt in.
use vstd::prelude::*;

use crate::error::Error;
use vstd::string::StringSliceAdditionalSpecFns;

verus! {

/// The length of the key-derivation salt, in bytes.
pub const SALT_LEN: usize = 16;

/// The length of the secret key, in bytes.
pub const KEY_LEN: usize = 32;

/// What the password hash returns for a password and a salt: Argon2id at
/// the library's default parameters, 32 bytes of output.  The result is a
/// function of the two arguments alone, the same in every run.
pub uninterp spec fn kdf_of(password: Seq<u8>, salt: Seq<u8>) -> Seq<u8>;

/// The all-zero salt this scheme derives every key with.
pub open spec fn zero_salt() -> Seq<u8> {
    Seq::new(SALT_LEN as nat, |i: int| 0u8)
}

/// Relies on `argon2::Argon2::default().hash_password_into`: Argon2id at
/// default parameters writing 32 bytes.  Deterministic in the password and
/// the salt; it may fail (for instance when its working memory cannot be
/// allocated), so success is not promised; every backend failure maps to
/// the `Kdf` error kind.
#[verifier::external_body]
fn argon2_hash(password: &[u8], salt: &[u8]) -> (r: Result<[u8; 32], Error>)
    ensures
        r is Ok ==> r.unwrap()@ == kdf_of(password@, salt@),
        r is Err ==> r->Err_0 == Error::Kdf,
{
    let mut out = [0u8; 32];
    match argon2::Argon2::default().hash_password_into(password, salt, &mut out) {
        Ok(()) => Ok(out),
        Err(_) => Err(Error::Kdf),
    }
}

/// Derives the 32-byte secret key from a passphrase: Argon2id with the
/// fixed all-zero salt.  On the underlying failure the error is `Kdf`.
pub fn kdf(password: &str) -> (r: Result<[u8; KEY_LEN], Error>)
    ensures
        r is Ok ==> r.unwrap()@ == kdf_of(password.spec_bytes(), zero_salt()),
        r is Err ==> r->Err_0 == Error::Kdf,
{
    let salt = [0u8; 16];
    proof {
        assert(salt@ =~= zero_salt());
    }
    argon2_hash(password.as_bytes(), &salt)
}

} // verus!
