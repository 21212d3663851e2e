use vstd::prelude::*;

verus! {

/// Why an operation of this library failed.
///
/// Failures of the file system are not in this list: the library works on
/// bytes that its caller has read, and hands back bytes for the caller to
/// write.
#[derive(Clone, Copy, Debug, PartialEq, Eq, Structural)]
pub enum BackupError {
    /// The key-store image is shorter than a key followed by a nonce.
    Format,
    /// The cipher refused its input; with keys and nonces of fixed size this
    /// only happens for a plaintext beyond the cipher's own limit.
    Crypto,
    /// The authentication tag of a ciphertext did not verify.
    Authentication,
    /// The operating system could not provide random bytes.
    RandomSource,
}

} // verus!
