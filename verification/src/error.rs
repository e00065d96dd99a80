use vstd::prelude::*;

verus! {

/// The error kinds that the engine surfaces to its caller.
///
/// - `Kdf`: the key-derivation call rejected its input.
/// - `Fpe`: the format-preserving-encryption primitive failed, for instance
///   because a text was too short for the alphabet.
/// - `Encoding`: a decrypted numeral does not re-parse as a number, which
///   indicates a wrong key or a tampered ciphertext.
/// - `Schema`: the document cannot be walked, because an array holds more
///   than 256 elements (the per-index tweak byte is a single byte).
#[derive(Clone, Copy, Debug, PartialEq, Eq, Structural)]
pub enum Error {
    Kdf,
    Fpe,
    Encoding,
    Schema,
}

impl Error {
    /// A short human-readable description of the error.
    pub fn message(&self) -> (r: &'static str)
        ensures
            r@.len() > 0,
    {
        proof {
            reveal_strlit("key derivation failed");
            reveal_strlit("format-preserving encryption failed");
            reveal_strlit("decrypted numeral is not a number");
            reveal_strlit("array is longer than 256 elements");
        }
        match self {
            Error::Kdf => "key derivation failed",
            Error::Fpe => "format-preserving encryption failed",
            Error::Encoding => "decrypted numeral is not a number",
            Error::Schema => "array is longer than 256 elements",
        }
    }
}

} // verus!
