use aead::{Aead, KeyInit};
use aes_gcm::Aes256Gcm;
use vstd::prelude::*;

use crate::error::BackupError;
use crate::material::{Key, Nonce};

verus! {

/// Number of bytes in the authentication tag that ends every ciphertext.
pub const TAG_LEN: usize = 16;

/// The longest plaintext, in bytes, that the cipher seals in one call.
pub const MAX_PLAINTEXT_LEN: u64 = 0x10_0000_0000;

/// The error of the `aead` crate. It carries no information, so that a
/// failure gives away nothing about the key.
#[verifier::external_type_specification]
#[verifier::external_body]
pub struct ExAeadError(aead::Error);

/// What AES-256-GCM encryption returns for a key, a nonce and a plaintext,
/// with no associated data: the ciphertext followed by its tag.
pub uninterp spec fn aes256_gcm_seal(key: Seq<u8>, nonce: Seq<u8>, plaintext: Seq<u8>) -> Seq<u8>;

/// What AES-256-GCM decryption returns for a key, a nonce and a ciphertext
/// that ends in its tag, with no associated data: the plaintext, or nothing
/// where the input is refused.
pub uninterp spec fn aes256_gcm_open(key: Seq<u8>, nonce: Seq<u8>, ciphertext: Seq<u8>) -> Option<
    Seq<u8>,
>;

/// `Aead::encrypt` of the `aead` crate, on the cipher that `Aes256Gcm::new`
/// of the `aes-gcm` crate makes from the key, with no associated data.
///
/// Nothing here is proved. The contract says what the two crates' sources
/// show: the call fails exactly for a plaintext longer than `aes_gcm::P_MAX`
/// bytes; its result depends on the key, the nonce and the plaintext alone;
/// that result is as many ciphertext bytes as the plaintext has, followed by
/// a tag of 16 bytes; and `Aead::decrypt` under the same key and nonce
/// accepts it and gives the plaintext back.
#[verifier::external_body]
fn aes256_gcm_encrypt(key: &[u8; 32], nonce: &[u8; 12], plaintext: &[u8]) -> (result: Result<
    Vec<u8>,
    aead::Error,
>)
    ensures
        result is Ok <==> plaintext@.len() <= MAX_PLAINTEXT_LEN,
        result matches Ok(sealed) ==> {
            &&& sealed@ == aes256_gcm_seal(key@, nonce@, plaintext@)
            &&& sealed@.len() == plaintext@.len() + TAG_LEN
            &&& aes256_gcm_open(key@, nonce@, sealed@) == Some(plaintext@)
        },
{
    Aes256Gcm::new(key.into()).encrypt(nonce.into(), plaintext)
}

/// `Aead::decrypt` of the `aead` crate, on the cipher that `Aes256Gcm::new`
/// of the `aes-gcm` crate makes from the key, with no associated data.
///
/// Nothing here is proved. The contract says what the two crates' sources
/// show: the outcome depends on the key, the nonce and the input alone; the
/// call fails for an input shorter than a tag, for one beyond the crate's
/// limit and for one whose tag does not verify; and a plaintext that comes
/// back is 16 bytes shorter than the input.
#[verifier::external_body]
fn aes256_gcm_decrypt(key: &[u8; 32], nonce: &[u8; 12], ciphertext: &[u8]) -> (result: Result<
    Vec<u8>,
    aead::Error,
>)
    ensures
        match result {
            Ok(plaintext) => aes256_gcm_open(key@, nonce@, ciphertext@) == Some(plaintext@),
            Err(_) => aes256_gcm_open(key@, nonce@, ciphertext@) is None,
        },
        result matches Ok(plaintext) ==> plaintext@.len() + TAG_LEN == ciphertext@.len(),
{
    Aes256Gcm::new(key.into()).decrypt(nonce.into(), ciphertext)
}

/// Encrypts one buffer under `key` and `nonce`, without associated data.
///
/// The result is the ciphertext followed by its tag, and `decrypt` under the
/// same key and nonce gives the plaintext back. Equal inputs give equal
/// outputs, so a nonce that is used for two plaintexts gives away whether
/// they are equal. A plaintext beyond `MAX_PLAINTEXT_LEN` bytes is refused
/// with `BackupError::Crypto`.
pub fn encrypt(plaintext: &[u8], key: &Key, nonce: &Nonce) -> (result: Result<Vec<u8>, BackupError>)
    ensures
        plaintext@.len() <= MAX_PLAINTEXT_LEN ==> (result matches Ok(sealed) && {
            &&& sealed@ == aes256_gcm_seal(key@, nonce@, plaintext@)
            &&& sealed@.len() == plaintext@.len() + TAG_LEN
            &&& aes256_gcm_open(key@, nonce@, sealed@) == Some(plaintext@)
        }),
        plaintext@.len() > MAX_PLAINTEXT_LEN ==> result == Err::<Vec<u8>, BackupError>(
            BackupError::Crypto,
        ),
{
    match aes256_gcm_encrypt(key.as_bytes(), nonce.as_bytes(), plaintext) {
        Ok(sealed) => Ok(sealed),
        Err(_) => Err(BackupError::Crypto),
    }
}

/// Decrypts one buffer that `encrypt` produced under `key` and `nonce`.
///
/// Fails with `BackupError::Authentication` where the cipher refuses the
/// input, as it does where the tag does not verify and for every input
/// shorter than a tag.
pub fn decrypt(ciphertext: &[u8], key: &Key, nonce: &Nonce) -> (result: Result<
    Vec<u8>,
    BackupError,
>)
    ensures
        match aes256_gcm_open(key@, nonce@, ciphertext@) {
            Some(plaintext) => result matches Ok(opened) && opened@ == plaintext,
            None => result == Err::<Vec<u8>, BackupError>(BackupError::Authentication),
        },
        result matches Ok(opened) ==> opened@.len() + TAG_LEN == ciphertext@.len(),
        ciphertext@.len() < TAG_LEN ==> result == Err::<Vec<u8>, BackupError>(
            BackupError::Authentication,
        ),
{
    match aes256_gcm_decrypt(key.as_bytes(), nonce.as_bytes(), ciphertext) {
        Ok(opened) => Ok(opened),
        Err(_) => Err(BackupError::Authentication),
    }
}

} // verus!
