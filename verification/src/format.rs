use vstd::arithmetic::div_mod::{lemma_fundamental_div_mod, lemma_mod_pos_bound};
use vstd::prelude::*;

use crate::chunks::{
    chunk_at, chunk_count, full_chunks, lemma_chunk_at_of_extension, lemma_chunk_at_shifted,
    lemma_chunk_begins_inside, lemma_chunk_of_position, lemma_full_chunks_and_rest,
    lemma_full_chunks_grow, lemma_sealed_chunk_count, sealed_len,
};
use crate::cipher::{aes256_gcm_open, aes256_gcm_seal, TAG_LEN};

verus! {

/// The first `chunks` chunks of `plaintext`, each sealed on its own under the
/// same key and nonce, one after the other.
pub open spec fn seal_prefix(
    key: Seq<u8>,
    nonce: Seq<u8>,
    plaintext: Seq<u8>,
    chunk_len: int,
    chunks: nat,
) -> Seq<u8>
    decreases chunks,
{
    if chunks == 0 {
        Seq::empty()
    } else {
        seal_prefix(key, nonce, plaintext, chunk_len, (chunks - 1) as nat) + aes256_gcm_seal(
            key,
            nonce,
            chunk_at(plaintext, chunks - 1, chunk_len),
        )
    }
}

/// The encrypted form of a whole file that is sealed in chunks of
/// `chunk_len` bytes. Where one chunk ends and the next begins is not
/// written down: it follows from the chunk length alone.
pub open spec fn seal_stream(key: Seq<u8>, nonce: Seq<u8>, plaintext: Seq<u8>, chunk_len: int)
    -> Seq<u8> {
    seal_prefix(
        key,
        nonce,
        plaintext,
        chunk_len,
        chunk_count(plaintext.len() as int, chunk_len) as nat,
    )
}

/// The plaintext of the first `chunks` chunks of `ciphertext`, each of them
/// a sealed chunk of up to `chunk_len` plaintext bytes, or nothing where one
/// of them does not authenticate.
pub open spec fn open_prefix(
    key: Seq<u8>,
    nonce: Seq<u8>,
    ciphertext: Seq<u8>,
    chunk_len: int,
    chunks: nat,
) -> Option<Seq<u8>>
    decreases chunks,
{
    if chunks == 0 {
        Some(Seq::empty())
    } else {
        match open_prefix(key, nonce, ciphertext, chunk_len, (chunks - 1) as nat) {
            None => None,
            Some(head) => match aes256_gcm_open(
                key,
                nonce,
                chunk_at(ciphertext, chunks - 1, chunk_len + TAG_LEN),
            ) {
                None => None,
                Some(tail) => Some(head + tail),
            },
        }
    }
}

/// The plaintext of a whole encrypted file that was sealed in chunks of
/// `chunk_len` bytes, or nothing where one of its chunks does not
/// authenticate. The ciphertext is cut every `chunk_len + TAG_LEN` bytes.
pub open spec fn open_stream(key: Seq<u8>, nonce: Seq<u8>, ciphertext: Seq<u8>, chunk_len: int)
    -> Option<Seq<u8>> {
    open_prefix(
        key,
        nonce,
        ciphertext,
        chunk_len,
        chunk_count(ciphertext.len() as int, chunk_len + TAG_LEN) as nat,
    )
}

/// Every chunk of `ciphertext` is the sealed form of the plaintext chunk with
/// the same index, and opens to it.
pub open spec fn chunks_match(
    key: Seq<u8>,
    nonce: Seq<u8>,
    plaintext: Seq<u8>,
    ciphertext: Seq<u8>,
    chunk_len: int,
    chunks: int,
) -> bool {
    forall|i: int|
        0 <= i < chunks ==> {
            let sealed = #[trigger] chunk_at(ciphertext, i, chunk_len + TAG_LEN);
            let plain = chunk_at(plaintext, i, chunk_len);
            &&& sealed == aes256_gcm_seal(key, nonce, plain)
            &&& aes256_gcm_open(key, nonce, sealed) == Some(plain)
        }
}

/// The sealed form of full chunks stays what it is when more data follows.
pub proof fn lemma_seal_prefix_of_extension(
    key: Seq<u8>,
    nonce: Seq<u8>,
    data: Seq<u8>,
    more: Seq<u8>,
    chunk_len: int,
    chunks: nat,
)
    requires
        chunk_len > 0,
        chunks * chunk_len <= data.len(),
    ensures
        seal_prefix(key, nonce, data + more, chunk_len, chunks) == seal_prefix(
            key,
            nonce,
            data,
            chunk_len,
            chunks,
        ),
    decreases chunks,
{
    if chunks > 0 {
        let last = (chunks - 1) as nat;
        assert(last * chunk_len <= chunks * chunk_len) by (nonlinear_arith)
            requires
                last <= chunks,
                chunk_len > 0,
        ;
        lemma_seal_prefix_of_extension(key, nonce, data, more, chunk_len, last);
        lemma_chunk_at_of_extension(data, more, last as int, chunk_len);
    }
}

/// The plaintext of full chunks stays what it is when more data follows.
pub proof fn lemma_open_prefix_of_extension(
    key: Seq<u8>,
    nonce: Seq<u8>,
    data: Seq<u8>,
    more: Seq<u8>,
    chunk_len: int,
    chunks: nat,
)
    requires
        chunk_len > 0,
        chunks * (chunk_len + TAG_LEN) <= data.len(),
    ensures
        open_prefix(key, nonce, data + more, chunk_len, chunks) == open_prefix(
            key,
            nonce,
            data,
            chunk_len,
            chunks,
        ),
    decreases chunks,
{
    if chunks > 0 {
        let last = (chunks - 1) as nat;
        assert(last * (chunk_len + TAG_LEN) <= chunks * (chunk_len + TAG_LEN))
            by (nonlinear_arith)
            requires
                last <= chunks,
                chunk_len > 0,
        ;
        lemma_open_prefix_of_extension(key, nonce, data, more, chunk_len, last);
        lemma_chunk_at_of_extension(data, more, last as int, chunk_len + TAG_LEN);
    }
}

/// Sealing goes on where it stood: after `full` full chunks, the sealed form
/// of `chunks` more chunks is that of the chunks of what follows.
pub proof fn lemma_seal_prefix_shifted(
    key: Seq<u8>,
    nonce: Seq<u8>,
    head: Seq<u8>,
    tail: Seq<u8>,
    chunk_len: int,
    full: nat,
    chunks: nat,
)
    requires
        chunk_len > 0,
        head.len() == full * chunk_len,
        chunks <= chunk_count(tail.len() as int, chunk_len),
    ensures
        seal_prefix(key, nonce, head + tail, chunk_len, full + chunks) == seal_prefix(
            key,
            nonce,
            head,
            chunk_len,
            full,
        ) + seal_prefix(key, nonce, tail, chunk_len, chunks),
    decreases chunks,
{
    if chunks == 0 {
        lemma_seal_prefix_of_extension(key, nonce, head, tail, chunk_len, full);
        assert(seal_prefix(key, nonce, head, chunk_len, full) + Seq::<u8>::empty()
            =~= seal_prefix(key, nonce, head, chunk_len, full));
    } else {
        let last = (chunks - 1) as nat;
        lemma_seal_prefix_shifted(key, nonce, head, tail, chunk_len, full, last);
        lemma_chunk_begins_inside(tail.len() as int, last as int, chunk_len);
        lemma_chunk_at_shifted(head, tail, full as int, last as int, chunk_len);
        let a = seal_prefix(key, nonce, head, chunk_len, full);
        let b = seal_prefix(key, nonce, tail, chunk_len, last);
        let c = aes256_gcm_seal(key, nonce, chunk_at(tail, last as int, chunk_len));
        assert((a + b) + c =~= a + (b + c));
    }
}

/// Opening goes on where it stood: after `full` full chunks that opened, the
/// plaintext of `chunks` more chunks is that of the chunks of what follows,
/// and one of those that does not authenticate spoils the whole.
pub proof fn lemma_open_prefix_shifted(
    key: Seq<u8>,
    nonce: Seq<u8>,
    head: Seq<u8>,
    tail: Seq<u8>,
    chunk_len: int,
    full: nat,
    chunks: nat,
)
    requires
        chunk_len > 0,
        head.len() == full * (chunk_len + TAG_LEN),
        chunks <= chunk_count(tail.len() as int, chunk_len + TAG_LEN),
    ensures
        open_prefix(key, nonce, head + tail, chunk_len, full + chunks) == match (
            open_prefix(key, nonce, head, chunk_len, full),
            open_prefix(key, nonce, tail, chunk_len, chunks),
        ) {
            (Some(before), Some(after)) => Some(before + after),
            _ => None,
        },
    decreases chunks,
{
    if chunks == 0 {
        lemma_open_prefix_of_extension(key, nonce, head, tail, chunk_len, full);
        match open_prefix(key, nonce, head, chunk_len, full) {
            Some(before) => {
                assert(before + Seq::<u8>::empty() =~= before);
            },
            None => {},
        }
    } else {
        let last = (chunks - 1) as nat;
        lemma_open_prefix_shifted(key, nonce, head, tail, chunk_len, full, last);
        lemma_chunk_begins_inside(tail.len() as int, last as int, chunk_len + TAG_LEN);
        lemma_chunk_at_shifted(head, tail, full as int, last as int, chunk_len + TAG_LEN);
        match (
            open_prefix(key, nonce, head, chunk_len, full),
            open_prefix(key, nonce, tail, chunk_len, last),
            aes256_gcm_open(key, nonce, chunk_at(tail, last as int, chunk_len + TAG_LEN)),
        ) {
            (Some(a), Some(b), Some(c)) => {
                assert((a + b) + c =~= a + (b + c));
            },
            _ => {},
        }
    }
}

/// Once a chunk fails to authenticate, so does every longer prefix.
pub proof fn lemma_open_prefix_stays_rejected(
    key: Seq<u8>,
    nonce: Seq<u8>,
    ciphertext: Seq<u8>,
    chunk_len: int,
    failed: nat,
    chunks: nat,
)
    requires
        failed <= chunks,
        open_prefix(key, nonce, ciphertext, chunk_len, failed) is None,
    ensures
        open_prefix(key, nonce, ciphertext, chunk_len, chunks) is None,
    decreases chunks,
{
    if failed < chunks {
        lemma_open_prefix_stays_rejected(
            key,
            nonce,
            ciphertext,
            chunk_len,
            failed,
            (chunks - 1) as nat,
        );
    }
}

/// Tampering is never passed over: where any one chunk of an encrypted file
/// fails to authenticate, the whole file is rejected and no plaintext comes
/// out, whatever the other chunks hold.
pub proof fn lemma_rejected_chunk_rejects_stream(
    key: Seq<u8>,
    nonce: Seq<u8>,
    ciphertext: Seq<u8>,
    chunk_len: int,
    index: int,
)
    requires
        0 <= index < chunk_count(ciphertext.len() as int, chunk_len + TAG_LEN),
        aes256_gcm_open(key, nonce, chunk_at(ciphertext, index, chunk_len + TAG_LEN)) is None,
    ensures
        open_stream(key, nonce, ciphertext, chunk_len) is None,
{
    assert(open_prefix(key, nonce, ciphertext, chunk_len, (index + 1) as nat) is None);
    lemma_open_prefix_stays_rejected(
        key,
        nonce,
        ciphertext,
        chunk_len,
        (index + 1) as nat,
        chunk_count(ciphertext.len() as int, chunk_len + TAG_LEN) as nat,
    );
}

/// Changing one byte of an encrypted file changes one chunk of it, so the
/// file is refused where the cipher refuses that chunk. Whether it does is
/// the cipher's matter: nothing here says that it refuses every changed
/// chunk.
pub proof fn lemma_changed_byte_rejects_stream(
    key: Seq<u8>,
    nonce: Seq<u8>,
    ciphertext: Seq<u8>,
    chunk_len: int,
    position: int,
    byte: u8,
)
    requires
        chunk_len > 0,
        0 <= position < ciphertext.len(),
        ({
            let size = chunk_len + TAG_LEN;
            aes256_gcm_open(
                key,
                nonce,
                chunk_at(ciphertext, position / size, size).update(position % size, byte),
            ) is None
        }),
    ensures
        open_stream(key, nonce, ciphertext.update(position, byte), chunk_len) is None,
{
    let size = chunk_len + TAG_LEN;
    let index = position / size;
    let changed = ciphertext.update(position, byte);
    lemma_chunk_of_position(ciphertext.len() as int, position, size);
    assert(chunk_at(changed, index, size) =~= chunk_at(ciphertext, index, size).update(
        position % size,
        byte,
    ));
    lemma_rejected_chunk_rejects_stream(key, nonce, changed, chunk_len, index);
}

/// A file opens only if every beginning of it does: where the whole
/// authenticates, so do the full chunks of whatever part of it has arrived.
pub proof fn lemma_opened_stream_has_opened_prefixes(
    key: Seq<u8>,
    nonce: Seq<u8>,
    arrived: Seq<u8>,
    rest: Seq<u8>,
    chunk_len: int,
)
    requires
        chunk_len > 0,
        open_stream(key, nonce, arrived + rest, chunk_len) is Some,
    ensures
        open_prefix(
            key,
            nonce,
            arrived,
            chunk_len,
            full_chunks(arrived.len() as int, chunk_len + TAG_LEN) as nat,
        ) is Some,
{
    let size = chunk_len + TAG_LEN;
    let full = full_chunks(arrived.len() as int, size);
    let whole = arrived + rest;
    lemma_full_chunks_and_rest(arrived.len() as int, size);
    lemma_full_chunks_and_rest(whole.len() as int, size);
    lemma_full_chunks_grow(arrived.len() as int, whole.len() as int, size);
    lemma_open_prefix_of_extension(key, nonce, arrived, rest, chunk_len, full as nat);
    if open_prefix(key, nonce, arrived, chunk_len, full as nat) is None {
        lemma_open_prefix_stays_rejected(
            key,
            nonce,
            whole,
            chunk_len,
            full as nat,
            chunk_count(whole.len() as int, size) as nat,
        );
    }
}

/// Where the first `chunks` ciphertext chunks each open to the plaintext
/// chunk with the same index, together they open to the plaintext up to the
/// end of the last of them.
proof fn lemma_open_prefix_of_matching_chunks(
    key: Seq<u8>,
    nonce: Seq<u8>,
    plaintext: Seq<u8>,
    ciphertext: Seq<u8>,
    chunk_len: int,
    chunks: nat,
)
    requires
        chunk_len > 0,
        chunks <= chunk_count(plaintext.len() as int, chunk_len),
        chunks_match(key, nonce, plaintext, ciphertext, chunk_len, chunks as int),
    ensures
        open_prefix(key, nonce, ciphertext, chunk_len, chunks) == Some(
            plaintext.take(
                if chunks * chunk_len <= plaintext.len() {
                    chunks * chunk_len
                } else {
                    plaintext.len() as int
                },
            ),
        ),
    decreases chunks,
{
    if chunks == 0 {
        assert(0 * chunk_len == 0) by (nonlinear_arith);
        assert(plaintext.take(0) =~= Seq::<u8>::empty());
    } else {
        let last = chunks - 1;
        lemma_open_prefix_of_matching_chunks(
            key,
            nonce,
            plaintext,
            ciphertext,
            chunk_len,
            last as nat,
        );
        lemma_chunk_begins_inside(plaintext.len() as int, last, chunk_len);
        assert(chunks * chunk_len == last * chunk_len + chunk_len) by (nonlinear_arith)
            requires
                chunks == last + 1,
        ;
        let head = plaintext.take(last * chunk_len);
        let tail = chunk_at(plaintext, last, chunk_len);
        assert(aes256_gcm_open(key, nonce, chunk_at(ciphertext, last, chunk_len + TAG_LEN))
            == Some(tail));
        let end = if chunks * chunk_len <= plaintext.len() {
            chunks * chunk_len
        } else {
            plaintext.len() as int
        };
        assert(head + tail =~= plaintext.take(end));
    }
}

/// Round trip, chunk by chunk: a ciphertext of the length that encryption
/// gives, whose chunks of `chunk_len + TAG_LEN` bytes each open to the
/// plaintext chunk of `chunk_len` bytes with the same index, opens as a whole
/// to the plaintext. Cutting the ciphertext every `chunk_len` bytes, as the
/// plaintext was cut, would not do.
pub proof fn lemma_matching_chunks_round_trip(
    key: Seq<u8>,
    nonce: Seq<u8>,
    plaintext: Seq<u8>,
    ciphertext: Seq<u8>,
    chunk_len: int,
)
    requires
        chunk_len > 0,
        ciphertext.len() == sealed_len(plaintext.len() as int, chunk_len),
        chunks_match(
            key,
            nonce,
            plaintext,
            ciphertext,
            chunk_len,
            chunk_count(plaintext.len() as int, chunk_len),
        ),
    ensures
        open_stream(key, nonce, ciphertext, chunk_len) == Some(plaintext),
{
    let len = plaintext.len() as int;
    let chunks = chunk_count(len, chunk_len);
    lemma_sealed_chunk_count(len, chunk_len);
    lemma_fundamental_div_mod(len, chunk_len);
    lemma_mod_pos_bound(len, chunk_len);
    assert(chunks >= 0 && chunks * chunk_len >= len) by (nonlinear_arith)
        requires
            len >= 0,
            chunk_len > 0,
            len == chunk_len * (len / chunk_len) + len % chunk_len,
            0 <= len % chunk_len < chunk_len,
            chunks == if len % chunk_len == 0 {
                len / chunk_len
            } else {
                len / chunk_len + 1
            },
    ;
    lemma_open_prefix_of_matching_chunks(key, nonce, plaintext, ciphertext, chunk_len, chunks as nat);
    assert(plaintext.take(len) =~= plaintext);
}

/// Encryption is a function of the key, the nonce, the chunk length and the
/// plaintext: the same inputs give the same ciphertext, byte for byte. A
/// nonce that is used again therefore gives away which plaintexts are equal.
pub proof fn lemma_same_inputs_same_ciphertext(
    key: Seq<u8>,
    nonce: Seq<u8>,
    plaintext: Seq<u8>,
    chunk_len: int,
    first: Seq<u8>,
    second: Seq<u8>,
)
    requires
        first == seal_stream(key, nonce, plaintext, chunk_len),
        second == seal_stream(key, nonce, plaintext, chunk_len),
    ensures
        first == second,
{
}

/// The nonce is the same for every chunk: two chunks of a file that hold the
/// same plaintext have the same bytes in the encrypted file.
pub proof fn lemma_equal_chunks_encrypt_alike(
    key: Seq<u8>,
    nonce: Seq<u8>,
    plaintext: Seq<u8>,
    ciphertext: Seq<u8>,
    chunk_len: int,
    first: int,
    second: int,
)
    requires
        chunks_match(
            key,
            nonce,
            plaintext,
            ciphertext,
            chunk_len,
            chunk_count(plaintext.len() as int, chunk_len),
        ),
        0 <= first < chunk_count(plaintext.len() as int, chunk_len),
        0 <= second < chunk_count(plaintext.len() as int, chunk_len),
        chunk_at(plaintext, first, chunk_len) == chunk_at(plaintext, second, chunk_len),
    ensures
        chunk_at(ciphertext, first, chunk_len + TAG_LEN) == chunk_at(
            ciphertext,
            second,
            chunk_len + TAG_LEN,
        ),
{
}

} // verus!
