use vstd::prelude::*;

use crate::chunks::{
    chunk_count, full_chunks, lemma_full_chunks_and_rest, sealed_len, ChunkLen, PLAIN_CHUNK_LEN,
};
use crate::error::BackupError;
use crate::format::{chunks_match, lemma_open_prefix_stays_rejected, open_stream, seal_stream};
use crate::material::{Key, Nonce};
use crate::stream::{StreamDecryptor, StreamEncryptor};

verus! {

/// Encrypts the content of a file in chunks of a chosen length: the
/// plaintext is cut every `chunk_len` bytes, the last chunk possibly shorter,
/// and each chunk is sealed on its own under the same key and nonce. An empty
/// file has no chunk and an empty encrypted form.
///
/// Larger chunks take fewer calls of the cipher and more memory for each;
/// the decrypting side has to be given the same chunk length.
pub fn encrypt_file_chunked(
    plaintext: &[u8],
    key: &Key,
    nonce: &Nonce,
    chunk_len: ChunkLen,
) -> (result: Result<Vec<u8>, BackupError>)
    ensures
        result matches Ok(sealed) && {
            &&& sealed@ == seal_stream(key@, nonce@, plaintext@, chunk_len.plain())
            &&& sealed@.len() == sealed_len(plaintext@.len() as int, chunk_len.plain())
            &&& chunks_match(
                key@,
                nonce@,
                plaintext@,
                sealed@,
                chunk_len.plain(),
                chunk_count(plaintext@.len() as int, chunk_len.plain()),
            )
            &&& open_stream(key@, nonce@, sealed@, chunk_len.plain()) == Some(plaintext@)
        },
{
    let mut stream = StreamEncryptor::new(*key, *nonce, chunk_len);
    let mut sealed = match stream.update(plaintext) {
        Ok(sealed) => sealed,
        Err(e) => {
            return Err(e);
        },
    };
    proof {
        assert(stream.consumed() =~= plaintext@);
        assert(stream.produced() =~= sealed@);
    }
    let mut last = match stream.finish() {
        Ok(last) => last,
        Err(e) => {
            return Err(e);
        },
    };
    sealed.append(&mut last);
    Ok(sealed)
}

/// Decrypts the content of a file that was encrypted in chunks of a chosen
/// length: the ciphertext is cut every `chunk_len` bytes and a tag's, the
/// last chunk possibly shorter, and each chunk is opened on its own. The
/// first chunk that does not authenticate ends the work with
/// `BackupError::Authentication`, and no plaintext is handed out.
pub fn decrypt_file_chunked(
    ciphertext: &[u8],
    key: &Key,
    nonce: &Nonce,
    chunk_len: ChunkLen,
) -> (result: Result<Vec<u8>, BackupError>)
    ensures
        match open_stream(key@, nonce@, ciphertext@, chunk_len.plain()) {
            Some(plaintext) => result matches Ok(opened) && opened@ == plaintext,
            None => result == Err::<Vec<u8>, BackupError>(BackupError::Authentication),
        },
{
    let mut stream = StreamDecryptor::new(*key, *nonce, chunk_len);
    let size = chunk_len.cipher_len();
    proof {
        lemma_full_chunks_and_rest(ciphertext@.len() as int, size as int);
    }
    let mut opened = match stream.update(ciphertext) {
        Ok(opened) => opened,
        Err(e) => {
            proof {
                assert(stream.consumed() =~= ciphertext@);
                lemma_open_prefix_stays_rejected(
                    key@,
                    nonce@,
                    ciphertext@,
                    chunk_len.plain(),
                    full_chunks(ciphertext@.len() as int, size as int) as nat,
                    chunk_count(ciphertext@.len() as int, size as int) as nat,
                );
            }
            return Err(e);
        },
    };
    proof {
        assert(stream.consumed() =~= ciphertext@);
        assert(stream.produced() =~= opened@);
    }
    let mut last = match stream.finish() {
        Ok(last) => last,
        Err(e) => {
            return Err(e);
        },
    };
    opened.append(&mut last);
    Ok(opened)
}

/// Encrypts the content of a file in chunks of `PLAIN_CHUNK_LEN` bytes.
pub fn encrypt_file(plaintext: &[u8], key: &Key, nonce: &Nonce) -> (result: Result<
    Vec<u8>,
    BackupError,
>)
    ensures
        result matches Ok(sealed) && {
            &&& sealed@ == seal_stream(key@, nonce@, plaintext@, PLAIN_CHUNK_LEN as int)
            &&& sealed@.len() == sealed_len(plaintext@.len() as int, PLAIN_CHUNK_LEN as int)
            &&& chunks_match(
                key@,
                nonce@,
                plaintext@,
                sealed@,
                PLAIN_CHUNK_LEN as int,
                chunk_count(plaintext@.len() as int, PLAIN_CHUNK_LEN as int),
            )
            &&& open_stream(key@, nonce@, sealed@, PLAIN_CHUNK_LEN as int) == Some(plaintext@)
        },
{
    encrypt_file_chunked(plaintext, key, nonce, ChunkLen::standard())
}

/// Decrypts the content of a file that `encrypt_file` produced, reading it
/// in chunks of `CIPHER_CHUNK_LEN` bytes.
pub fn decrypt_file(ciphertext: &[u8], key: &Key, nonce: &Nonce) -> (result: Result<
    Vec<u8>,
    BackupError,
>)
    ensures
        match open_stream(key@, nonce@, ciphertext@, PLAIN_CHUNK_LEN as int) {
            Some(plaintext) => result matches Ok(opened) && opened@ == plaintext,
            None => result == Err::<Vec<u8>, BackupError>(BackupError::Authentication),
        },
{
    decrypt_file_chunked(ciphertext, key, nonce, ChunkLen::standard())
}

} // verus!
