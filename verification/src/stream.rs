use vstd::prelude::*;
use vstd::slice::{slice_subrange, slice_to_vec};

use crate::chunks::{
    chunk_at, chunk_count, full_chunks, is_chunk_len, lemma_chunk_at_of_extension,
    lemma_chunk_at_shifted, lemma_chunks_after_append, lemma_full_chunks,
    lemma_full_chunks_and_rest, lemma_full_chunks_grow, sealed_len, ChunkLen,
};
use crate::cipher::{aes256_gcm_open, aes256_gcm_seal, decrypt, encrypt, TAG_LEN};
use crate::error::BackupError;
use crate::format::{
    chunks_match, lemma_matching_chunks_round_trip, lemma_open_prefix_of_extension,
    lemma_open_prefix_shifted, lemma_open_prefix_stays_rejected, lemma_seal_prefix_of_extension,
    lemma_seal_prefix_shifted, open_prefix, open_stream, seal_prefix, seal_stream,
};
use crate::material::{Key, Nonce};

verus! {

/// Seals every full chunk of `buffer`, in order, and says how many bytes
/// that were; a shorter rest is left alone.
fn seal_full_chunks(buffer: &[u8], key: &Key, nonce: &Nonce, size: usize) -> (result: Result<
    (Vec<u8>, usize),
    BackupError,
>)
    requires
        is_chunk_len(size as int),
    ensures
        result matches Ok((sealed, done)) && {
            let full = full_chunks(buffer@.len() as int, size as int);
            &&& done == full * size
            &&& 0 <= full
            &&& done <= buffer@.len() < done + size
            &&& sealed@ == seal_prefix(key@, nonce@, buffer@, size as int, full as nat)
            &&& sealed@.len() == full * (size + TAG_LEN)
            &&& chunks_match(key@, nonce@, buffer@, sealed@, size as int, full)
        },
{
    let len = buffer.len();
    let mut sealed: Vec<u8> = Vec::new();
    let mut done: usize = 0;
    let ghost mut index: int = 0;
    proof {
        assert(0 * size == 0 && 0 * (size + TAG_LEN) == 0) by (nonlinear_arith);
    }
    while len - done >= size
        invariant
            len == buffer@.len(),
            is_chunk_len(size as int),
            0 <= index,
            done == index * size,
            done <= len,
            sealed@ == seal_prefix(key@, nonce@, buffer@, size as int, index as nat),
            sealed@.len() == index * (size + TAG_LEN),
            chunks_match(key@, nonce@, buffer@, sealed@, size as int, index),
        decreases len - done,
    {
        let chunk = slice_subrange(buffer, done, done + size);
        assert(chunk@ == chunk_at(buffer@, index, size as int));
        match encrypt(chunk, key, nonce) {
            Ok(mut sealed_chunk) => {
                let ghost before = sealed@;
                let ghost added = sealed_chunk@;
                sealed.append(&mut sealed_chunk);
                proof {
                    lemma_chunks_after_append(before, added, index, size + TAG_LEN);
                    assert((index + 1) * size == index * size + size && (index + 1) * (size
                        + TAG_LEN) == index * (size + TAG_LEN) + (size + TAG_LEN))
                        by (nonlinear_arith);
                }
            },
            Err(e) => {
                return Err(e);
            },
        }
        done = done + size;
        proof {
            index = index + 1;
        }
    }
    proof {
        lemma_full_chunks(len as int, size as int, index, len - done);
    }
    Ok((sealed, done))
}

/// Encryption of a file that arrives piece by piece, in pieces of any
/// length: the pieces are cut into chunks again, and every chunk is sealed
/// as soon as it is full.
pub struct StreamEncryptor {
    key: Key,
    nonce: Nonce,
    chunk_len: ChunkLen,
    /// What has arrived after the last full chunk.
    pending: Vec<u8>,
    consumed: Ghost<Seq<u8>>,
    produced: Ghost<Seq<u8>>,
}

impl StreamEncryptor {
    /// The key that every chunk is sealed under.
    pub closed spec fn key(&self) -> Seq<u8> {
        self.key@
    }

    /// The nonce that every chunk is sealed with.
    pub closed spec fn nonce(&self) -> Seq<u8> {
        self.nonce@
    }

    /// Number of plaintext bytes in a full chunk.
    pub closed spec fn chunk_len(&self) -> int {
        self.chunk_len.plain()
    }

    /// All the plaintext that has been handed in so far.
    pub closed spec fn consumed(&self) -> Seq<u8> {
        self.consumed@
    }

    /// All the ciphertext that has been handed out so far.
    pub closed spec fn produced(&self) -> Seq<u8> {
        self.produced@
    }

    /// The sealed form of the full chunks handed in so far.
    pub open spec fn sealed_so_far(&self) -> Seq<u8> {
        seal_prefix(
            self.key(),
            self.nonce(),
            self.consumed(),
            self.chunk_len(),
            full_chunks(self.consumed().len() as int, self.chunk_len()) as nat,
        )
    }

    /// What holds between any two calls: the ciphertext handed out is the
    /// sealed form of the full chunks handed in, and the rest is kept.
    #[verifier::type_invariant]
    spec fn well_formed(self) -> bool {
        let size = self.chunk_len.plain();
        let full = full_chunks(self.consumed@.len() as int, size);
        &&& is_chunk_len(size)
        &&& 0 <= full
        &&& self.consumed@.len() == full * size + self.pending@.len()
        &&& self.pending@.len() < size
        &&& self.pending@ == self.consumed@.subrange(full * size, self.consumed@.len() as int)
        &&& self.produced@ == seal_prefix(self.key@, self.nonce@, self.consumed@, size, full as nat)
        &&& self.produced@.len() == full * (size + TAG_LEN)
        &&& chunks_match(self.key@, self.nonce@, self.consumed@, self.produced@, size, full)
    }

    /// Begins the encryption of one file.
    pub fn new(key: Key, nonce: Nonce, chunk_len: ChunkLen) -> (stream: StreamEncryptor)
        ensures
            stream.key() == key@,
            stream.nonce() == nonce@,
            stream.chunk_len() == chunk_len.plain(),
            stream.consumed() == Seq::<u8>::empty(),
            stream.produced() == Seq::<u8>::empty(),
    {
        let size = chunk_len.plain_len();
        let pending: Vec<u8> = Vec::new();
        proof {
            lemma_full_chunks(0, size as int, 0, 0);
            assert(0 * size == 0 && 0 * (size + TAG_LEN) == 0) by (nonlinear_arith);
            assert(pending@ =~= Seq::<u8>::empty().subrange(0, 0));
        }
        StreamEncryptor {
            key,
            nonce,
            chunk_len,
            pending,
            consumed: Ghost(Seq::empty()),
            produced: Ghost(Seq::empty()),
        }
    }

    /// Takes the next piece of the file and hands out the ciphertext of
    /// every chunk that it completes, to be written after what was handed
    /// out before.
    pub fn update(&mut self, data: &[u8]) -> (result: Result<Vec<u8>, BackupError>)
        ensures
            final(self).key() == old(self).key(),
            final(self).nonce() == old(self).nonce(),
            final(self).chunk_len() == old(self).chunk_len(),
            final(self).consumed() == old(self).consumed() + data@,
            result matches Ok(sealed) && final(self).produced() == old(self).produced() + sealed@,
            final(self).produced() == final(self).sealed_so_far(),
    {
        proof {
            use_type_invariant(&*self);
        }
        let mut taken = StreamEncryptor::new(self.key, self.nonce, self.chunk_len);
        core::mem::swap(self, &mut taken);
        let StreamEncryptor { key, nonce, chunk_len, pending, consumed, produced } = taken;
        let size = chunk_len.plain_len();
        let ghost plain_before = consumed@;
        let ghost sealed_before = produced@;
        let ghost full_before = full_chunks(plain_before.len() as int, size as int);
        let ghost kept = pending@;
        let mut pending = pending;
        let mut buffer: Vec<u8> = Vec::new();
        buffer.append(&mut pending);
        let mut copy = slice_to_vec(data);
        buffer.append(&mut copy);
        assert(buffer@ == kept + data@);
        match seal_full_chunks(buffer.as_slice(), &key, &nonce, size) {
            Ok((sealed, done)) => {
                let rest = buffer.split_off(done);
                let ghost plain_after = plain_before + data@;
                let ghost sealed_after = sealed_before + sealed@;
                proof {
                    let joined = kept + data@;
                    let head = plain_before.subrange(0, full_before * size);
                    let full_added = full_chunks(joined.len() as int, size as int);
                    let full_after = full_before + full_added;
                    assert(plain_before =~= head + kept);
                    assert(plain_after =~= head + joined);
                    assert(full_after * size == full_before * size + full_added * size
                        && full_after * (size + TAG_LEN) == full_before * (size + TAG_LEN)
                        + full_added * (size + TAG_LEN)) by (nonlinear_arith)
                        requires
                            full_after == full_before + full_added,
                    ;
                    lemma_full_chunks(
                        plain_after.len() as int,
                        size as int,
                        full_after,
                        joined.len() - done,
                    );
                    assert(rest@ =~= plain_after.subrange(
                        full_after * size,
                        plain_after.len() as int,
                    ));
                    lemma_full_chunks_and_rest(joined.len() as int, size as int);
                    lemma_seal_prefix_of_extension(
                        key@,
                        nonce@,
                        head,
                        kept,
                        size as int,
                        full_before as nat,
                    );
                    lemma_seal_prefix_shifted(
                        key@,
                        nonce@,
                        head,
                        joined,
                        size as int,
                        full_before as nat,
                        full_added as nat,
                    );
                    assert forall|i: int| 0 <= i < full_after implies {
                        let sealed_chunk = #[trigger] chunk_at(sealed_after, i, size + TAG_LEN);
                        let plain_chunk = chunk_at(plain_after, i, size as int);
                        &&& sealed_chunk == aes256_gcm_seal(key@, nonce@, plain_chunk)
                        &&& aes256_gcm_open(key@, nonce@, sealed_chunk) == Some(plain_chunk)
                    } by {
                        if i < full_before {
                            assert((i + 1) * size <= full_before * size && (i + 1) * (size
                                + TAG_LEN) <= full_before * (size + TAG_LEN)) by (nonlinear_arith)
                                requires
                                    0 <= i < full_before,
                                    size > 0,
                            ;
                            lemma_chunk_at_of_extension(plain_before, data@, i, size as int);
                            lemma_chunk_at_of_extension(
                                sealed_before,
                                sealed@,
                                i,
                                size + TAG_LEN,
                            );
                            assert(chunk_at(sealed_before, i, size + TAG_LEN)
                                == aes256_gcm_seal(
                                key@,
                                nonce@,
                                chunk_at(plain_before, i, size as int),
                            ));
                        } else {
                            let j = i - full_before;
                            assert(j * size <= full_added * size && j * (size + TAG_LEN)
                                <= full_added * (size + TAG_LEN)) by (nonlinear_arith)
                                requires
                                    0 <= j < full_added,
                                    size > 0,
                            ;
                            lemma_chunk_at_shifted(head, joined, full_before, j, size as int);
                            lemma_chunk_at_shifted(
                                sealed_before,
                                sealed@,
                                full_before,
                                j,
                                size + TAG_LEN,
                            );
                            assert(chunk_at(sealed@, j, size + TAG_LEN) == aes256_gcm_seal(
                                key@,
                                nonce@,
                                chunk_at(joined, j, size as int),
                            ));
                        }
                    }
                }
                *self = StreamEncryptor {
                    key,
                    nonce,
                    chunk_len,
                    pending: rest,
                    consumed: Ghost(plain_after),
                    produced: Ghost(sealed_after),
                };
                Ok(sealed)
            },
            Err(e) => Err(e),
        }
    }

    /// Ends the file: hands out the ciphertext of the last, shorter chunk,
    /// or nothing where the file ended with a full chunk or was empty.
    pub fn finish(self) -> (result: Result<Vec<u8>, BackupError>)
        ensures
            result matches Ok(sealed) && {
                let whole = self.produced() + sealed@;
                &&& whole == seal_stream(
                    self.key(),
                    self.nonce(),
                    self.consumed(),
                    self.chunk_len(),
                )
                &&& whole.len() == sealed_len(self.consumed().len() as int, self.chunk_len())
                &&& chunks_match(
                    self.key(),
                    self.nonce(),
                    self.consumed(),
                    whole,
                    self.chunk_len(),
                    chunk_count(self.consumed().len() as int, self.chunk_len()),
                )
                &&& open_stream(self.key(), self.nonce(), whole, self.chunk_len()) == Some(
                    self.consumed(),
                )
            },
    {
        let ghost size = self.chunk_len.plain();
        let ghost full = full_chunks(self.consumed@.len() as int, size);
        proof {
            use_type_invariant(&self);
            lemma_full_chunks(self.consumed@.len() as int, size, full, self.pending@.len() as int);
        }
        if self.pending.len() == 0 {
            let sealed: Vec<u8> = Vec::new();
            proof {
                assert(self.produced@ + sealed@ =~= self.produced@);
                assert(TAG_LEN * full == full * (size + TAG_LEN) - full * size)
                    by (nonlinear_arith);
                lemma_matching_chunks_round_trip(
                    self.key@,
                    self.nonce@,
                    self.consumed@,
                    self.produced@,
                    size,
                );
            }
            Ok(sealed)
        } else {
            assert(self.pending@ == chunk_at(self.consumed@, full, size));
            match encrypt(self.pending.as_slice(), &self.key, &self.nonce) {
                Ok(sealed) => {
                    proof {
                        let whole = self.produced@ + sealed@;
                        lemma_chunks_after_append(self.produced@, sealed@, full, size + TAG_LEN);
                        assert(TAG_LEN * (full + 1) == full * (size + TAG_LEN) - full * size
                            + TAG_LEN) by (nonlinear_arith);
                        assert(chunks_match(
                            self.key@,
                            self.nonce@,
                            self.consumed@,
                            whole,
                            size,
                            full + 1,
                        ));
                        lemma_matching_chunks_round_trip(
                            self.key@,
                            self.nonce@,
                            self.consumed@,
                            whole,
                            size,
                        );
                    }
                    Ok(sealed)
                },
                Err(e) => Err(e),
            }
        }
    }
}

/// Opens every full chunk of `buffer`, in order, and says how many bytes
/// that were; a shorter rest is left alone. The first chunk that does not
/// authenticate ends the work.
fn open_full_chunks(buffer: &[u8], key: &Key, nonce: &Nonce, size: usize) -> (result: Result<
    (Vec<u8>, usize),
    BackupError,
>)
    requires
        is_chunk_len(size - TAG_LEN),
    ensures
        match open_prefix(
            key@,
            nonce@,
            buffer@,
            size - TAG_LEN,
            full_chunks(buffer@.len() as int, size as int) as nat,
        ) {
            Some(plaintext) => result matches Ok((opened, done)) && {
                &&& opened@ == plaintext
                &&& done == full_chunks(buffer@.len() as int, size as int) * size
                &&& done <= buffer@.len() < done + size
            },
            None => result == Err::<(Vec<u8>, usize), BackupError>(BackupError::Authentication),
        },
{
    let len = buffer.len();
    let mut opened: Vec<u8> = Vec::new();
    let mut done: usize = 0;
    let ghost mut index: int = 0;
    proof {
        assert(0 * size == 0) by (nonlinear_arith);
        lemma_full_chunks_and_rest(len as int, size as int);
    }
    while len - done >= size
        invariant
            len == buffer@.len(),
            is_chunk_len(size - TAG_LEN),
            0 <= index <= full_chunks(len as int, size as int),
            done == index * size,
            done <= len,
            open_prefix(key@, nonce@, buffer@, size - TAG_LEN, index as nat) == Some(opened@),
        decreases len - done,
    {
        let chunk = slice_subrange(buffer, done, done + size);
        proof {
            assert(chunk@ == chunk_at(buffer@, index, size as int));
            assert((index + 1) * size == index * size + size) by (nonlinear_arith);
            lemma_full_chunks_grow(done + size, len as int, size as int);
            lemma_full_chunks(done + size, size as int, index + 1, 0);
        }
        match decrypt(chunk, key, nonce) {
            Ok(mut opened_chunk) => {
                opened.append(&mut opened_chunk);
            },
            Err(e) => {
                proof {
                    lemma_open_prefix_stays_rejected(
                        key@,
                        nonce@,
                        buffer@,
                        size - TAG_LEN,
                        (index + 1) as nat,
                        full_chunks(len as int, size as int) as nat,
                    );
                }
                return Err(e);
            },
        }
        done = done + size;
        proof {
            index = index + 1;
        }
    }
    proof {
        lemma_full_chunks(len as int, size as int, index, len - done);
    }
    Ok((opened, done))
}

/// Decryption of a file that arrives piece by piece, in pieces of any
/// length: the pieces are cut into chunks of ciphertext length again, and
/// every chunk is opened as soon as it is full. Once a chunk has failed to
/// authenticate, nothing more is handed out.
pub struct StreamDecryptor {
    key: Key,
    nonce: Nonce,
    chunk_len: ChunkLen,
    /// What has arrived after the last full chunk.
    pending: Vec<u8>,
    rejected: bool,
    consumed: Ghost<Seq<u8>>,
    produced: Ghost<Seq<u8>>,
}

impl StreamDecryptor {
    /// The key that every chunk is opened under.
    pub closed spec fn key(&self) -> Seq<u8> {
        self.key@
    }

    /// The nonce that every chunk is opened with.
    pub closed spec fn nonce(&self) -> Seq<u8> {
        self.nonce@
    }

    /// Number of plaintext bytes in a full chunk; a full chunk of ciphertext
    /// has `TAG_LEN` bytes more.
    pub closed spec fn chunk_len(&self) -> int {
        self.chunk_len.plain()
    }

    /// All the ciphertext that has been handed in so far.
    pub closed spec fn consumed(&self) -> Seq<u8> {
        self.consumed@
    }

    /// All the plaintext that has been handed out so far.
    pub closed spec fn produced(&self) -> Seq<u8> {
        self.produced@
    }

    /// What the full chunks handed in so far open to.
    pub open spec fn opened_so_far(&self) -> Option<Seq<u8>> {
        open_prefix(
            self.key(),
            self.nonce(),
            self.consumed(),
            self.chunk_len(),
            full_chunks(self.consumed().len() as int, self.chunk_len() + TAG_LEN) as nat,
        )
    }

    /// What holds between any two calls: the plaintext handed out is that of
    /// the full chunks handed in, and the rest is kept; or a chunk has
    /// failed to authenticate.
    #[verifier::type_invariant]
    spec fn well_formed(self) -> bool {
        let size = self.chunk_len.plain() + TAG_LEN;
        let full = full_chunks(self.consumed@.len() as int, size);
        &&& is_chunk_len(self.chunk_len.plain())
        &&& 0 <= full
        &&& if self.rejected {
            self.opened_so_far() is None
        } else {
            &&& self.consumed@.len() == full * size + self.pending@.len()
            &&& self.pending@.len() < size
            &&& self.pending@ == self.consumed@.subrange(full * size, self.consumed@.len() as int)
            &&& self.opened_so_far() == Some(self.produced@)
        }
    }

    /// Begins the decryption of one file.
    pub fn new(key: Key, nonce: Nonce, chunk_len: ChunkLen) -> (stream: StreamDecryptor)
        ensures
            stream.key() == key@,
            stream.nonce() == nonce@,
            stream.chunk_len() == chunk_len.plain(),
            stream.consumed() == Seq::<u8>::empty(),
            stream.produced() == Seq::<u8>::empty(),
    {
        let size = chunk_len.cipher_len();
        let pending: Vec<u8> = Vec::new();
        proof {
            lemma_full_chunks(0, size as int, 0, 0);
            assert(0 * size == 0) by (nonlinear_arith);
            assert(pending@ =~= Seq::<u8>::empty().subrange(0, 0));
        }
        StreamDecryptor {
            key,
            nonce,
            chunk_len,
            pending,
            rejected: false,
            consumed: Ghost(Seq::empty()),
            produced: Ghost(Seq::empty()),
        }
    }

    /// Takes the next piece of the encrypted file and hands out the
    /// plaintext of every chunk that it completes, to be written after what
    /// was handed out before. Where a chunk does not authenticate, now or in
    /// an earlier call, nothing is handed out.
    pub fn update(&mut self, data: &[u8]) -> (result: Result<Vec<u8>, BackupError>)
        ensures
            final(self).key() == old(self).key(),
            final(self).nonce() == old(self).nonce(),
            final(self).chunk_len() == old(self).chunk_len(),
            final(self).consumed() == old(self).consumed() + data@,
            match final(self).opened_so_far() {
                Some(plaintext) => {
                    &&& result matches Ok(opened)
                    &&& final(self).produced() == old(self).produced() + opened@
                    &&& final(self).produced() == plaintext
                },
                None => {
                    &&& result == Err::<Vec<u8>, BackupError>(BackupError::Authentication)
                    &&& final(self).produced() == old(self).produced()
                },
            },
    {
        proof {
            use_type_invariant(&*self);
        }
        let mut taken = StreamDecryptor::new(self.key, self.nonce, self.chunk_len);
        core::mem::swap(self, &mut taken);
        let StreamDecryptor { key, nonce, chunk_len, pending, rejected, consumed, produced } =
            taken;
        let size = chunk_len.cipher_len();
        let ghost plain_len = chunk_len.plain();
        let ghost cipher_before = consumed@;
        let ghost cipher_after = cipher_before + data@;
        let ghost opened_before = produced@;
        let ghost full_before = full_chunks(cipher_before.len() as int, size as int);
        proof {
            lemma_full_chunks_and_rest(cipher_before.len() as int, size as int);
            lemma_full_chunks_grow(
                cipher_before.len() as int,
                cipher_after.len() as int,
                size as int,
            );
        }
        if rejected {
            proof {
                lemma_open_prefix_of_extension(
                    key@,
                    nonce@,
                    cipher_before,
                    data@,
                    plain_len,
                    full_before as nat,
                );
                lemma_open_prefix_stays_rejected(
                    key@,
                    nonce@,
                    cipher_after,
                    plain_len,
                    full_before as nat,
                    full_chunks(cipher_after.len() as int, size as int) as nat,
                );
            }
            *self = StreamDecryptor {
                key,
                nonce,
                chunk_len,
                pending,
                rejected: true,
                consumed: Ghost(cipher_after),
                produced,
            };
            return Err(BackupError::Authentication);
        }
        let ghost kept = pending@;
        let mut pending = pending;
        let mut buffer: Vec<u8> = Vec::new();
        buffer.append(&mut pending);
        let mut copy = slice_to_vec(data);
        buffer.append(&mut copy);
        assert(buffer@ == kept + data@);
        let outcome = open_full_chunks(buffer.as_slice(), &key, &nonce, size);
        proof {
            let joined = kept + data@;
            let head = cipher_before.subrange(0, full_before * size);
            let full_added = full_chunks(joined.len() as int, size as int);
            let full_after = full_before + full_added;
            assert(cipher_before =~= head + kept);
            assert(cipher_after =~= head + joined);
            lemma_full_chunks_and_rest(joined.len() as int, size as int);
            assert(full_after * size == full_before * size + full_added * size)
                by (nonlinear_arith)
                requires
                    full_after == full_before + full_added,
            ;
            lemma_full_chunks(
                cipher_after.len() as int,
                size as int,
                full_after,
                joined.len() - full_added * size,
            );
            lemma_open_prefix_of_extension(
                key@,
                nonce@,
                head,
                kept,
                plain_len,
                full_before as nat,
            );
            lemma_open_prefix_shifted(
                key@,
                nonce@,
                head,
                joined,
                plain_len,
                full_before as nat,
                full_added as nat,
            );
        }
        match outcome {
            Ok((opened, done)) => {
                let rest = buffer.split_off(done);
                proof {
                    assert(rest@ =~= cipher_after.subrange(
                        (full_before + full_chunks((kept + data@).len() as int, size as int))
                            * size,
                        cipher_after.len() as int,
                    ));
                }
                *self = StreamDecryptor {
                    key,
                    nonce,
                    chunk_len,
                    pending: rest,
                    rejected: false,
                    consumed: Ghost(cipher_after),
                    produced: Ghost(opened_before + opened@),
                };
                Ok(opened)
            },
            Err(e) => {
                *self = StreamDecryptor {
                    key,
                    nonce,
                    chunk_len,
                    pending: Vec::new(),
                    rejected: true,
                    consumed: Ghost(cipher_after),
                    produced,
                };
                Err(e)
            },
        }
    }

    /// Ends the file: hands out the plaintext of the last, shorter chunk, or
    /// nothing where the file ended with a full chunk or was empty. What the
    /// calls have handed out is then the whole plaintext, unless a chunk has
    /// failed to authenticate.
    pub fn finish(self) -> (result: Result<Vec<u8>, BackupError>)
        ensures
            match open_stream(self.key(), self.nonce(), self.consumed(), self.chunk_len()) {
                Some(plaintext) => result matches Ok(opened) && self.produced() + opened@
                    == plaintext,
                None => result == Err::<Vec<u8>, BackupError>(BackupError::Authentication),
            },
    {
        let ghost plain_len = self.chunk_len.plain();
        let ghost size = plain_len + TAG_LEN;
        let ghost full = full_chunks(self.consumed@.len() as int, size);
        proof {
            use_type_invariant(&self);
            lemma_full_chunks_and_rest(self.consumed@.len() as int, size);
        }
        if self.rejected {
            proof {
                lemma_open_prefix_stays_rejected(
                    self.key@,
                    self.nonce@,
                    self.consumed@,
                    plain_len,
                    full as nat,
                    chunk_count(self.consumed@.len() as int, size) as nat,
                );
            }
            return Err(BackupError::Authentication);
        }
        proof {
            lemma_full_chunks(self.consumed@.len() as int, size, full, self.pending@.len() as int);
        }
        if self.pending.len() == 0 {
            let opened: Vec<u8> = Vec::new();
            assert(self.produced@ + opened@ =~= self.produced@);
            Ok(opened)
        } else {
            assert(self.pending@ == chunk_at(self.consumed@, full, size));
            decrypt(self.pending.as_slice(), &self.key, &self.nonce)
        }
    }
}

} // verus!
