use vstd::arithmetic::div_mod::{
    lemma_div_is_ordered, lemma_fundamental_div_mod, lemma_fundamental_div_mod_converse,
    lemma_mod_pos_bound,
};
use vstd::prelude::*;

use crate::cipher::{MAX_PLAINTEXT_LEN, TAG_LEN};

verus! {

/// Number of plaintext bytes that are sealed together unless the caller
/// chooses otherwise; only the last chunk of a file may be shorter.
pub const PLAIN_CHUNK_LEN: usize = 4096;

/// Number of bytes that a full chunk of `PLAIN_CHUNK_LEN` bytes takes once
/// sealed: the chunk and its tag.
pub const CIPHER_CHUNK_LEN: usize = PLAIN_CHUNK_LEN + TAG_LEN;

/// The chunk lengths that can be worked with: at least one byte, no more
/// than the cipher seals in one call, and such that a sealed chunk's length
/// is still a `usize`.
pub open spec fn is_chunk_len(bytes: int) -> bool {
    0 < bytes <= MAX_PLAINTEXT_LEN && bytes + TAG_LEN <= usize::MAX
}

/// Number of full chunks in `len` bytes.
pub open spec fn full_chunks(len: int, chunk_len: int) -> int
    recommends
        len >= 0,
        chunk_len > 0,
{
    len / chunk_len
}

/// Number of chunks that `len` bytes fall into when cut every `chunk_len`
/// bytes: no chunk for no bytes, and a shorter last chunk for a remainder.
pub open spec fn chunk_count(len: int, chunk_len: int) -> int
    recommends
        len >= 0,
        chunk_len > 0,
{
    if len % chunk_len == 0 {
        len / chunk_len
    } else {
        len / chunk_len + 1
    }
}

/// The chunk of `data` with the given index, when cut every `chunk_len` bytes.
pub open spec fn chunk_at(data: Seq<u8>, index: int, chunk_len: int) -> Seq<u8>
    recommends
        chunk_len > 0,
        0 <= index < chunk_count(data.len() as int, chunk_len),
{
    let start = index * chunk_len;
    let end = if start + chunk_len <= data.len() {
        start + chunk_len
    } else {
        data.len() as int
    };
    data.subrange(start, end)
}

/// Length of the encrypted form of `plain_len` bytes that are sealed in
/// chunks of `chunk_len` bytes: every chunk grows by one tag.
pub open spec fn sealed_len(plain_len: int, chunk_len: int) -> int
    recommends
        plain_len >= 0,
        chunk_len > 0,
{
    plain_len + TAG_LEN * chunk_count(plain_len, chunk_len)
}

/// How many plaintext bytes are sealed together. The matching length on the
/// decrypting side is derived from it, never chosen on its own.
#[derive(Clone, Copy, Debug)]
pub struct ChunkLen {
    bytes: usize,
}

impl ChunkLen {
    #[verifier::type_invariant]
    spec fn well_formed(self) -> bool {
        is_chunk_len(self.bytes as int)
    }

    /// Number of plaintext bytes in a full chunk.
    pub closed spec fn plain(self) -> int {
        self.bytes as int
    }

    /// Number of ciphertext bytes in a full chunk: the plaintext's and a tag's.
    pub open spec fn cipher(self) -> int {
        self.plain() + TAG_LEN
    }

    /// The chunk length for `bytes`, where that is a length to work with.
    pub fn new(bytes: usize) -> (result: Option<ChunkLen>)
        ensures
            match result {
                Some(chunk_len) => chunk_len.plain() == bytes && is_chunk_len(bytes as int),
                None => !is_chunk_len(bytes as int),
            },
    {
        if bytes == 0 || bytes > usize::MAX - TAG_LEN || bytes as u64 > MAX_PLAINTEXT_LEN {
            None
        } else {
            Some(ChunkLen { bytes })
        }
    }

    /// The chunk length of `PLAIN_CHUNK_LEN` bytes.
    pub fn standard() -> (chunk_len: ChunkLen)
        ensures
            chunk_len.plain() == PLAIN_CHUNK_LEN,
            chunk_len.cipher() == CIPHER_CHUNK_LEN,
    {
        ChunkLen { bytes: PLAIN_CHUNK_LEN }
    }

    /// Number of plaintext bytes to read for one chunk.
    pub fn plain_len(&self) -> (bytes: usize)
        ensures
            bytes == self.plain(),
            is_chunk_len(bytes as int),
    {
        proof {
            use_type_invariant(self);
        }
        self.bytes
    }

    /// Number of ciphertext bytes to read for one chunk.
    pub fn cipher_len(&self) -> (bytes: usize)
        ensures
            bytes == self.cipher(),
            is_chunk_len(bytes - TAG_LEN),
    {
        proof {
            use_type_invariant(self);
        }
        self.bytes + TAG_LEN
    }
}

/// `len` bytes are `full` full chunks and a shorter rest.
pub proof fn lemma_full_chunks(len: int, chunk_len: int, full: int, rest: int)
    requires
        chunk_len > 0,
        0 <= rest < chunk_len,
        len == full * chunk_len + rest,
    ensures
        full_chunks(len, chunk_len) == full,
        chunk_count(len, chunk_len) == if rest == 0 {
            full
        } else {
            full + 1
        },
{
    lemma_fundamental_div_mod_converse(len, chunk_len, full, rest);
}

/// The full chunks of `len` bytes and the rest after them.
pub proof fn lemma_full_chunks_and_rest(len: int, chunk_len: int)
    requires
        len >= 0,
        chunk_len > 0,
    ensures
        0 <= full_chunks(len, chunk_len) <= chunk_count(len, chunk_len),
        0 <= len - full_chunks(len, chunk_len) * chunk_len < chunk_len,
{
    lemma_fundamental_div_mod(len, chunk_len);
    lemma_mod_pos_bound(len, chunk_len);
    let q = len / chunk_len;
    assert(q * chunk_len == chunk_len * q) by (nonlinear_arith);
    assert(q >= 0) by (nonlinear_arith)
        requires
            len == chunk_len * q + len % chunk_len,
            0 <= len % chunk_len < chunk_len,
            len >= 0,
    ;
}

/// More bytes hold no fewer full chunks.
pub proof fn lemma_full_chunks_grow(shorter: int, longer: int, chunk_len: int)
    requires
        0 <= shorter <= longer,
        chunk_len > 0,
    ensures
        full_chunks(shorter, chunk_len) <= full_chunks(longer, chunk_len),
{
    lemma_div_is_ordered(shorter, longer, chunk_len);
}

/// Every chunk but the last is full, and the last one is not empty: the
/// chunk with a given index begins inside the data.
pub proof fn lemma_chunk_begins_inside(len: int, index: int, chunk_len: int)
    requires
        len >= 0,
        chunk_len > 0,
        0 <= index < chunk_count(len, chunk_len),
    ensures
        index * chunk_len < len,
{
    lemma_fundamental_div_mod(len, chunk_len);
    lemma_mod_pos_bound(len, chunk_len);
    let q = len / chunk_len;
    if len % chunk_len == 0 {
        assert(index * chunk_len < chunk_len * q) by (nonlinear_arith)
            requires
                0 <= index < q,
                chunk_len > 0,
        ;
    } else {
        assert(index * chunk_len <= chunk_len * q) by (nonlinear_arith)
            requires
                0 <= index <= q,
                chunk_len > 0,
        ;
    }
}

/// Every byte of the data lies in one of its chunks: the one whose index is
/// the byte's position divided by the chunk length.
pub proof fn lemma_chunk_of_position(len: int, position: int, chunk_len: int)
    requires
        chunk_len > 0,
        0 <= position < len,
    ensures
        0 <= position / chunk_len < chunk_count(len, chunk_len),
        0 <= position % chunk_len < chunk_len,
        (position / chunk_len) * chunk_len + position % chunk_len == position,
{
    lemma_fundamental_div_mod(position, chunk_len);
    lemma_mod_pos_bound(position, chunk_len);
    lemma_fundamental_div_mod(len, chunk_len);
    lemma_mod_pos_bound(len, chunk_len);
    lemma_div_is_ordered(position, len, chunk_len);
    let index = position / chunk_len;
    assert(index * chunk_len == chunk_len * index) by (nonlinear_arith);
    assert(index >= 0) by (nonlinear_arith)
        requires
            position == chunk_len * index + position % chunk_len,
            0 <= position % chunk_len < chunk_len,
            position >= 0,
    ;
    if len % chunk_len == 0 {
        let count = len / chunk_len;
        assert(index < count) by (nonlinear_arith)
            requires
                position == chunk_len * index + position % chunk_len,
                0 <= position % chunk_len,
                len == chunk_len * count,
                position < len,
                chunk_len > 0,
        ;
    }
}

/// A full chunk stays what it is when more data follows.
pub proof fn lemma_chunk_at_of_extension(data: Seq<u8>, more: Seq<u8>, index: int, chunk_len: int)
    requires
        chunk_len > 0,
        0 <= index,
        (index + 1) * chunk_len <= data.len(),
    ensures
        chunk_at(data + more, index, chunk_len) == chunk_at(data, index, chunk_len),
{
    assert(0 <= index * chunk_len && index * chunk_len + chunk_len == (index + 1) * chunk_len)
        by (nonlinear_arith)
        requires
            0 <= index,
            chunk_len > 0,
    ;
    assert(chunk_at(data + more, index, chunk_len) =~= chunk_at(data, index, chunk_len));
}

/// After `full` full chunks, the chunks of what follows are the chunks of
/// the whole, `full` places on.
pub proof fn lemma_chunk_at_shifted(
    head: Seq<u8>,
    tail: Seq<u8>,
    full: int,
    index: int,
    chunk_len: int,
)
    requires
        chunk_len > 0,
        0 <= full,
        head.len() == full * chunk_len,
        0 <= index,
        index * chunk_len <= tail.len(),
    ensures
        chunk_at(head + tail, full + index, chunk_len) == chunk_at(tail, index, chunk_len),
{
    assert((full + index) * chunk_len == full * chunk_len + index * chunk_len && 0 <= index
        * chunk_len) by (nonlinear_arith)
        requires
            0 <= index,
            chunk_len > 0,
    ;
    assert(chunk_at(head + tail, full + index, chunk_len) =~= chunk_at(tail, index, chunk_len));
}

/// Appending one chunk after `index` full ones leaves those as they were
/// and makes the new one the chunk with that index.
pub proof fn lemma_chunks_after_append(before: Seq<u8>, added: Seq<u8>, index: int, chunk_len: int)
    requires
        0 <= index,
        before.len() == index * chunk_len,
        0 < added.len() <= chunk_len,
    ensures
        chunk_at(before + added, index, chunk_len) == added,
        forall|i: int|
            0 <= i < index ==> #[trigger] chunk_at(before + added, i, chunk_len) == chunk_at(
                before,
                i,
                chunk_len,
            ),
{
    assert(chunk_at(before + added, index, chunk_len) =~= added);
    assert forall|i: int| 0 <= i < index implies #[trigger] chunk_at(
        before + added,
        i,
        chunk_len,
    ) == chunk_at(before, i, chunk_len) by {
        assert((i + 1) * chunk_len <= index * chunk_len) by (nonlinear_arith)
            requires
                0 <= i < index,
                chunk_len > 0,
        ;
        lemma_chunk_at_of_extension(before, added, i, chunk_len);
    }
}

/// Cutting `plain_len` bytes every `chunk_len` bytes and cutting their
/// encrypted form every `chunk_len + TAG_LEN` bytes gives the same number of
/// chunks.
pub proof fn lemma_sealed_chunk_count(plain_len: int, chunk_len: int)
    requires
        plain_len >= 0,
        chunk_len > 0,
    ensures
        chunk_count(sealed_len(plain_len, chunk_len), chunk_len + TAG_LEN) == chunk_count(
            plain_len,
            chunk_len,
        ),
{
    lemma_fundamental_div_mod(plain_len, chunk_len);
    lemma_mod_pos_bound(plain_len, chunk_len);
    let q = plain_len / chunk_len;
    let r = plain_len % chunk_len;
    let total = sealed_len(plain_len, chunk_len);
    assert(q >= 0) by (nonlinear_arith)
        requires
            plain_len == chunk_len * q + r,
            0 <= r < chunk_len,
            plain_len >= 0,
    ;
    if r == 0 {
        assert(total == q * (chunk_len + TAG_LEN) + 0) by (nonlinear_arith)
            requires
                total == plain_len + TAG_LEN * q,
                plain_len == chunk_len * q,
        ;
        lemma_fundamental_div_mod_converse(total, chunk_len + TAG_LEN, q, 0);
    } else {
        assert(total == q * (chunk_len + TAG_LEN) + (r + TAG_LEN)) by (nonlinear_arith)
            requires
                total == plain_len + TAG_LEN * (q + 1),
                plain_len == chunk_len * q + r,
        ;
        lemma_fundamental_div_mod_converse(total, chunk_len + TAG_LEN, q, r + TAG_LEN);
    }
}

/// The ciphertext chunk with a given index is as long as the plaintext chunk
/// with that index and a tag.
pub proof fn lemma_sealed_chunk_len(
    plaintext: Seq<u8>,
    ciphertext: Seq<u8>,
    index: int,
    chunk_len: int,
)
    requires
        chunk_len > 0,
        ciphertext.len() == sealed_len(plaintext.len() as int, chunk_len),
        0 <= index < chunk_count(plaintext.len() as int, chunk_len),
    ensures
        chunk_at(ciphertext, index, chunk_len + TAG_LEN).len() == chunk_at(
            plaintext,
            index,
            chunk_len,
        ).len() + TAG_LEN,
{
    let len = plaintext.len() as int;
    let count = chunk_count(len, chunk_len);
    lemma_chunk_begins_inside(len, index, chunk_len);
    lemma_fundamental_div_mod(len, chunk_len);
    lemma_mod_pos_bound(len, chunk_len);
    let q = len / chunk_len;
    let r = len % chunk_len;
    assert(index * (chunk_len + TAG_LEN) == index * chunk_len + TAG_LEN * index)
        by (nonlinear_arith);
    if index + 1 < count || r == 0 {
        // a full chunk
        assert(index * chunk_len + chunk_len <= chunk_len * q) by (nonlinear_arith)
            requires
                0 <= index < q,
                chunk_len > 0,
        ;
    } else {
        // the shorter last chunk
        assert(index * chunk_len == chunk_len * q) by (nonlinear_arith)
            requires
                index == q,
        ;
    }
}

/// Larger chunks mean fewer calls of the cipher: cutting the same bytes into
/// longer chunks never gives more chunks.
pub proof fn lemma_longer_chunks_are_fewer(len: int, shorter: int, longer: int)
    requires
        len >= 0,
        0 < shorter <= longer,
    ensures
        chunk_count(len, longer) <= chunk_count(len, shorter),
{
    lemma_fundamental_div_mod(len, shorter);
    lemma_mod_pos_bound(len, shorter);
    lemma_fundamental_div_mod(len, longer);
    lemma_mod_pos_bound(len, longer);
    let a = chunk_count(len, shorter);
    let b = chunk_count(len, longer);
    // `a` chunks of the shorter length cover the data; `b - 1` chunks of the
    // longer length do not.
    assert(len <= a * shorter) by (nonlinear_arith)
        requires
            len == shorter * (len / shorter) + len % shorter,
            0 <= len % shorter < shorter,
            a == if len % shorter == 0 {
                len / shorter
            } else {
                len / shorter + 1
            },
    ;
    if b > 0 {
        assert((b - 1) * longer < len) by (nonlinear_arith)
            requires
                len == longer * (len / longer) + len % longer,
                0 <= len % longer < longer,
                b == if len % longer == 0 {
                    len / longer
                } else {
                    len / longer + 1
                },
        ;
        if a < b {
            assert(a * shorter <= (b - 1) * longer) by (nonlinear_arith)
                requires
                    0 <= a <= b - 1,
                    0 < shorter <= longer,
            ;
        }
    }
}

} // verus!
