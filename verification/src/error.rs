use vstd::prelude::*;

verus! {

/// Everything that can go wrong while opening a vault or while querying
/// and mutating its tree.
///
/// The first three are format failures of the outer header, the next two
/// are credential failures, and the rest follow the stage that raised
/// them.  `Integrity` deliberately does not say whether the credential
/// was wrong or the file was tampered with.
#[derive(Clone, Copy, Debug, PartialEq, Eq, Structural)]
pub enum Error {
    /// The file does not begin with the vault magic bytes.
    BadSignature,
    /// The version field lies outside the supported range.
    UnsupportedVersion,
    /// The outer header is structurally malformed or incomplete.
    Format,
    /// Neither a password nor a key file was supplied.
    NoCredential,
    /// The key file matches none of the accepted key-file layouts.
    InvalidKeyFile,
    /// Authentication of the encrypted body failed: wrong credential,
    /// or a corrupted or tampered file.
    Integrity,
    /// Unsupported or malformed cipher or key-derivation parameters.
    Cipher,
    /// The decrypted inner document is malformed.
    Parse,
    /// A query or mutation referenced an identifier that is not in the tree.
    NotFound,
}

} // verus!
