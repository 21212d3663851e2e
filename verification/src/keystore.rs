use rand::rngs::OsRng;
use rand::RngCore;
use vstd::prelude::*;
use vstd::slice::slice_to_vec;

use crate::error::BackupError;
use crate::material::{Key, Nonce, KEY_LEN, NONCE_LEN};

verus! {

/// Number of bytes in the key-store image: the key, then the nonce.
pub const KEY_MATERIAL_LEN: usize = KEY_LEN + NONCE_LEN;

/// The error of the `rand` crate.
#[verifier::external_type_specification]
#[verifier::external_body]
pub struct ExRandError(rand::Error);

/// `RngCore::try_fill_bytes` of the `rand` crate, on `OsRng` and a fresh
/// buffer of `N` bytes.
///
/// Nothing is claimed of the bytes that come back, nor of when the operating
/// system fails to provide them: two calls need not agree.
#[verifier::external_body]
fn os_random_bytes<const N: usize>() -> (result: Result<[u8; N], rand::Error>) {
    let mut bytes = [0u8; N];
    match OsRng.try_fill_bytes(&mut bytes) {
        Ok(()) => Ok(bytes),
        Err(e) => Err(e),
    }
}

/// The key-store image of a key and a nonce: the key's bytes immediately
/// followed by the nonce's, with nothing before, between or after.
pub open spec fn encode_key_material(key: Seq<u8>, nonce: Seq<u8>) -> Seq<u8> {
    key + nonce
}

/// The key and the nonce that a key-store image holds, or nothing where the
/// image is too short to hold both. Bytes after the nonce are not looked at.
pub open spec fn decode_key_material(image: Seq<u8>) -> Option<(Seq<u8>, Seq<u8>)> {
    if image.len() < KEY_MATERIAL_LEN {
        None
    } else {
        Some(
            (
                image.subrange(0, KEY_LEN as int),
                image.subrange(KEY_LEN as int, KEY_MATERIAL_LEN as int),
            ),
        )
    }
}

/// Copies the `N` bytes of `bytes` that begin at `start`.
fn copy_bytes<const N: usize>(bytes: &[u8], start: usize) -> (out: [u8; N])
    requires
        start + N <= bytes@.len(),
    ensures
        out@ == bytes@.subrange(start as int, start + N),
{
    let len = bytes.len();
    let mut out = [0u8; N];
    let mut i: usize = 0;
    while i < N
        invariant
            i <= N,
            start + N <= len,
            len == bytes@.len(),
            out@.len() == N,
            forall|j: int| 0 <= j < i ==> out@[j] == bytes@[start + j],
        decreases N - i,
    {
        out[i] = bytes[start + i];
        i = i + 1;
    }
    assert(out@ =~= bytes@.subrange(start as int, start + N));
    out
}

/// The key-store image to write for a key and a nonce.
pub fn store_key_nonce(key: &Key, nonce: &Nonce) -> (image: Vec<u8>)
    ensures
        image@ == encode_key_material(key@, nonce@),
        image@.len() == KEY_MATERIAL_LEN,
        decode_key_material(image@) == Some((key@, nonce@)),
{
    let mut image = slice_to_vec(key.as_bytes().as_slice());
    let mut tail = slice_to_vec(nonce.as_bytes().as_slice());
    image.append(&mut tail);
    proof {
        lemma_load_after_store(*key, *nonce, Seq::empty());
        assert(image@ + Seq::<u8>::empty() =~= image@);
    }
    image
}

/// Reads a key and a nonce back from a key-store image.
///
/// An image shorter than `KEY_MATERIAL_LEN` bytes is refused with
/// `BackupError::Format`; bytes after the nonce are ignored.
pub fn load_key_nonce(image: &[u8]) -> (result: Result<(Key, Nonce), BackupError>)
    ensures
        match decode_key_material(image@) {
            Some((key, nonce)) => result matches Ok(pair) && pair.0@ == key && pair.1@ == nonce,
            None => result matches Err(e) && e == BackupError::Format,
        },
        result is Err <==> image@.len() < KEY_MATERIAL_LEN,
{
    if image.len() < KEY_MATERIAL_LEN {
        return Err(BackupError::Format);
    }
    let key = Key::from_bytes(copy_bytes::<32>(image, 0));
    let nonce = Nonce::from_bytes(copy_bytes::<12>(image, KEY_LEN));
    Ok((key, nonce))
}

/// Draws a fresh key and a fresh nonce from the operating system's random
/// source. Nothing is known of the bytes drawn; the only failure is
/// `BackupError::RandomSource`.
pub fn generate_key_nonce() -> (result: Result<(Key, Nonce), BackupError>)
    ensures
        result matches Err(e) ==> e == BackupError::RandomSource,
{
    let key = match os_random_bytes::<32>() {
        Ok(bytes) => Key::from_bytes(bytes),
        Err(_) => {
            return Err(BackupError::RandomSource);
        },
    };
    let nonce = match os_random_bytes::<12>() {
        Ok(bytes) => Nonce::from_bytes(bytes),
        Err(_) => {
            return Err(BackupError::RandomSource);
        },
    };
    Ok((key, nonce))
}

/// What `get_key_nonce` hands back: the pair to work with and, where the pair
/// is new, the key-store image that the caller has to write.
pub struct KeyProvision {
    pub key: Key,
    pub nonce: Nonce,
    /// `None` where the pair was read from an existing image, which then
    /// stays as it is.
    pub to_store: Option<Vec<u8>>,
}

impl KeyProvision {
    /// A pair that was read from the key store: nothing is to be written.
    pub fn loaded(key: Key, nonce: Nonce) -> (provision: KeyProvision)
        ensures
            provision.key@ == key@,
            provision.nonce@ == nonce@,
            provision.to_store is None,
    {
        KeyProvision { key, nonce, to_store: None }
    }

    /// A pair that was just generated: its image is to be written.
    pub fn created(key: Key, nonce: Nonce) -> (provision: KeyProvision)
        ensures
            provision.key@ == key@,
            provision.nonce@ == nonce@,
            provision.to_store matches Some(image) && image@ == encode_key_material(
                key@,
                nonce@,
            ) && decode_key_material(image@) == Some((key@, nonce@)),
    {
        let image = store_key_nonce(&key, &nonce);
        KeyProvision { key, nonce, to_store: Some(image) }
    }
}

/// The content of the key store as its caller read it: the bytes of the
/// file, or nothing where there is no file.
pub open spec fn store_content(existing: Option<&[u8]>) -> Option<Seq<u8>> {
    match existing {
        Some(image) => Some(image@),
        None => None,
    }
}

/// The content of the key store once the caller has written what a
/// provision asks for.
pub open spec fn store_after(existing: Option<Seq<u8>>, provision: KeyProvision) -> Option<
    Seq<u8>,
> {
    match provision.to_store {
        Some(image) => Some(image@),
        None => existing,
    }
}

/// What `get_key_nonce` may return for a given content of the key store.
///
/// With a key store, the pair is the one that its image holds and nothing is
/// to be written; an image that is too short is an error and is not
/// replaced. Without one, the pair is new, whatever the random source gave,
/// and its image is to be written.
pub open spec fn provides(existing: Option<Seq<u8>>, result: Result<KeyProvision, BackupError>)
    -> bool {
    match existing {
        Some(image) => match decode_key_material(image) {
            Some((key, nonce)) => {
                &&& result matches Ok(provision)
                &&& provision.key@ == key
                &&& provision.nonce@ == nonce
                &&& provision.to_store is None
            },
            None => result matches Err(e) && e == BackupError::Format,
        },
        None => match result {
            Ok(provision) => {
                &&& provision.to_store matches Some(image)
                &&& image@ == encode_key_material(provision.key@, provision.nonce@)
                &&& decode_key_material(image@) == Some((provision.key@, provision.nonce@))
            },
            Err(e) => e == BackupError::RandomSource,
        },
    }
}

/// The key and nonce to work with: those of the key store where there is
/// one, new ones otherwise. `existing` is the content of the key-store file,
/// or `None` where the file does not exist.
pub fn get_key_nonce(existing: Option<&[u8]>) -> (result: Result<KeyProvision, BackupError>)
    ensures
        provides(store_content(existing), result),
{
    match existing {
        Some(image) => match load_key_nonce(image) {
            Ok((key, nonce)) => Ok(KeyProvision::loaded(key, nonce)),
            Err(e) => Err(e),
        },
        None => match generate_key_nonce() {
            Ok((key, nonce)) => Ok(KeyProvision::created(key, nonce)),
            Err(e) => Err(e),
        },
    }
}

/// Writing a key and a nonce and reading the image back gives the same key
/// and nonce, also where other bytes follow the image.
pub proof fn lemma_load_after_store(key: Key, nonce: Nonce, trailing: Seq<u8>)
    ensures
        decode_key_material(encode_key_material(key@, nonce@) + trailing) == Some((key@, nonce@)),
{
    key.lemma_len();
    nonce.lemma_len();
    let image = encode_key_material(key@, nonce@) + trailing;
    assert(image.subrange(0, KEY_LEN as int) =~= key@);
    assert(image.subrange(KEY_LEN as int, KEY_MATERIAL_LEN as int) =~= nonce@);
}

/// Asking twice gives the same pair: whatever the key store held before the
/// first call, once the caller has written what that call asked for, a
/// second call returns the first call's key and nonce and asks for nothing
/// to be written.
pub proof fn lemma_get_key_nonce_idempotent(
    existing: Option<Seq<u8>>,
    first: KeyProvision,
    second: Result<KeyProvision, BackupError>,
)
    requires
        provides(existing, Ok(first)),
        provides(store_after(existing, first), second),
    ensures
        second matches Ok(again) && {
            &&& again.key@ == first.key@
            &&& again.nonce@ == first.nonce@
            &&& again.to_store is None
        },
{
}

} // verus!
