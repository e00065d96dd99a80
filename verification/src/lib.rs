//! Format-preserving encryption over document trees.
//!
//! The engine walks a parsed document in place and encrypts (or decrypts)
//! every number and string leaf while keeping the document's shape: numbers
//! stay syntactically valid numbers, strings keep their length in code
//! points, arrays keep their length, objects keep their keys.  Each node is
//! enciphered under a tweak derived from its structural path, so equal
//! plaintexts at distinct positions yield unrelated ciphertexts.  Objects
//! nested past a configurable depth are collapsed: serialised, enciphered
//! as one string, and re-expanded on decryption.
use vstd::prelude::*;
use vstd::string::StringSliceAdditionalSpecFns;

pub mod chars;
pub mod error;
pub mod fpe;
pub mod json;
pub mod numeric;
pub mod utils;
pub mod value;
pub mod walk;

use crate::error::Error;
use crate::json::wf_doc;
use crate::utils::KEY_LEN;
use crate::utils::kdf_of;
use crate::utils::zero_salt;
use crate::value::SpecValue;
use crate::value::Value;
use crate::walk::bounded_doc;
use crate::walk::collision_free;
use crate::walk::dec_node;
use crate::walk::enc_node;
use crate::walk::enc_shape;
use crate::walk::enc_viable;
use crate::walk::root_tweak;
use crate::walk::spec_dec_value;
use crate::walk::spec_enc_check;

verus! {

/// The direction of a walk over the document.
#[derive(Debug, Default)]
pub enum Method {
    #[default]
    Encrypt,
    Decrypt,
}

/// The document formats the surrounding tooling reads and writes.
#[derive(Debug, Default)]
pub enum FileFormat {
    #[default]
    Json,
}

/// The engine: a secret key and the walk configuration.  It performs no
/// input or output; the caller hands it a parsed document and it encrypts
/// or decrypts the tree in place.
#[derive(Debug)]
pub struct Spead {
    pub(crate) key: [u8; KEY_LEN],
    pub(crate) include_keys: bool,
    pub(crate) max_depth: u32,
}

impl Spead {
    /// The engine's key bytes.
    pub closed spec fn key_view(&self) -> Seq<u8> {
        self.key@
    }

    /// The engine's depth limit.
    pub closed spec fn depth_limit(&self) -> u32 {
        self.max_depth
    }

    /// The engine's include-keys flag.
    pub closed spec fn keys_flag(&self) -> bool {
        self.include_keys
    }
}

/// A fresh engine: an all-zero placeholder key, keys left in plaintext,
/// and no depth limit.
pub open spec fn fresh_engine(r: Spead) -> bool {
    &&& r.key_view().len() == 32
    &&& forall|i: int| 0 <= i < 32 ==> r.key_view()[i] == 0u8
    &&& !r.keys_flag()
    &&& r.depth_limit() == 0
}

impl Default for Spead {
    /// An engine with an all-zero placeholder key, keys left in plaintext,
    /// and no depth limit.
    fn default() -> (r: Self)
        ensures
            fresh_engine(r),
    {
        Spead { key: [0u8; 32], include_keys: false, max_depth: 0 }
    }
}

impl Spead {
    /// A fresh engine with the default configuration.
    pub fn new() -> (r: Self)
        ensures
            fresh_engine(r),
    {
        Self::default()
    }

    /// The engine with the given 32-byte secret key.
    pub fn secret_key(self, secret_key: [u8; KEY_LEN]) -> (r: Self)
        ensures
            r.key_view() == secret_key@,
            r.keys_flag() == self.keys_flag(),
            r.depth_limit() == self.depth_limit(),
    {
        Spead { key: secret_key, include_keys: self.include_keys, max_depth: self.max_depth }
    }

    /// The engine with its key derived from a passphrase (Argon2id with the
    /// fixed all-zero salt, so the same passphrase always yields the same
    /// key).  Fails with `Kdf` when the derivation does.
    pub fn password(self, password: &str) -> (r: Result<Self, Error>)
        ensures
            r is Ok ==> r->Ok_0.key_view() == kdf_of(password.spec_bytes(), zero_salt())
                && r->Ok_0.keys_flag() == self.keys_flag() && r->Ok_0.depth_limit()
                == self.depth_limit(),
            r is Err ==> r->Err_0 == Error::Kdf,
    {
        match crate::utils::kdf(password) {
            Ok(k) => Ok(
                Spead { key: k, include_keys: self.include_keys, max_depth: self.max_depth },
            ),
            Err(e) => Err(e),
        }
    }

    /// The engine with the include-keys flag set.  The flag is recorded for
    /// callers that agree on it; encrypting member keys is an optional part
    /// of the scheme, and this walker always leaves keys in plaintext.
    pub fn include_keys(self, include_keys: bool) -> (r: Self)
        ensures
            r.key_view() == self.key_view(),
            r.keys_flag() == include_keys,
            r.depth_limit() == self.depth_limit(),
    {
        Spead { key: self.key, include_keys, max_depth: self.max_depth }
    }

    /// The engine with the given depth limit: objects nested deeper than
    /// this many levels are collapsed into strings on encryption.  Zero
    /// means no limit.
    pub fn max_depth(self, max_depth: u32) -> (r: Self)
        ensures
            r.key_view() == self.key_view(),
            r.keys_flag() == self.keys_flag(),
            r.depth_limit() == max_depth,
    {
        Spead { key: self.key, include_keys: self.include_keys, max_depth }
    }

    /// Encrypts the document in place.
    ///
    /// Success, and the error otherwise, are exactly `spec_enc_check`: the
    /// walk fails only on a string the primitive rejects (`Fpe`) or an
    /// array of more than 256 elements (`Schema`), and on failure the
    /// document is left unchanged; success is owed outright on every
    /// `enc_viable` document.  On success the ciphertext has the
    /// encrypted shape of the plaintext — numbers stay valid numbers,
    /// strings and arrays keep their lengths, objects keep their keys, and
    /// objects past the depth limit become strings — and, unless a
    /// plaintext string leaf itself spells the collapse escape, decrypting
    /// the result under the same key restores the document exactly.
    pub fn encrypt(self, value: &mut Value) -> (r: Result<(), Error>)
        requires
            wf_doc(old(value)@),
            bounded_doc(old(value)@),
        ensures
            r == spec_enc_check(self.key_view(), root_tweak(), 1, self.depth_limit(), old(value)@),
            enc_viable(old(value)@, 1, self.depth_limit()) ==> r is Ok,
            r is Ok ==> enc_shape(old(value)@, final(value)@, 1, self.depth_limit()),
            r is Ok && collision_free(old(value)@, 1, self.depth_limit()) ==> spec_dec_value(
                self.key_view(),
                root_tweak(),
                final(value)@,
            ) == Ok::<SpecValue, Error>(old(value)@),
            r is Err ==> final(value)@ == old(value)@,
    {
        let mut t: Vec<u8> = Vec::new();
        t.push(35u8);
        proof {
            assert(t@ =~= root_tweak());
        }
        match enc_node(self.key.as_slice(), &t, 1, self.max_depth, value) {
            Ok(w) => {
                *value = w;
                Ok(())
            },
            Err(e) => Err(e),
        }
    }

    /// Decrypts the document in place.
    ///
    /// The outcome — the restored document, or the exact error — is a pure
    /// function of the key and the ciphertext, `spec_dec_value`; on failure
    /// the document is left unchanged.
    pub fn decrypt(self, value: &mut Value) -> (r: Result<(), Error>)
        ensures
            r is Ok ==> spec_dec_value(self.key_view(), root_tweak(), old(value)@) == Ok::<
                SpecValue,
                Error,
            >(final(value)@),
            r is Err ==> spec_dec_value(self.key_view(), root_tweak(), old(value)@) == Err::<
                SpecValue,
                Error,
            >(r->Err_0) && final(value)@ == old(value)@,
    {
        let mut t: Vec<u8> = Vec::new();
        t.push(35u8);
        proof {
            assert(t@ =~= root_tweak());
        }
        match dec_node(self.key.as_slice(), &t, value) {
            Ok(w) => {
                *value = w;
                Ok(())
            },
            Err(e) => Err(e),
        }
    }
}

} // verus!
