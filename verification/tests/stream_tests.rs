use pipecryptbackup::{
    decrypt_file, decrypt_file_chunked, encrypt, encrypt_file, encrypt_file_chunked, BackupError,
    ChunkLen, Key, Nonce, StreamDecryptor, StreamEncryptor,
};

fn key() -> Key {
    Key::from_bytes([0x3cu8; 32])
}

fn nonce() -> Nonce {
    Nonce::from_bytes([0x5au8; 12])
}

fn content(len: usize) -> Vec<u8> {
    (0..len).map(|i| ((i * 7 + i / 100) % 256) as u8).collect()
}

fn encrypt_in_pieces(plaintext: &[u8], piece: usize, chunk_len: ChunkLen) -> Vec<u8> {
    let mut stream = StreamEncryptor::new(key(), nonce(), chunk_len);
    let mut sealed = Vec::new();
    for part in plaintext.chunks(piece) {
        sealed.extend(stream.update(part).unwrap());
    }
    sealed.extend(stream.finish().unwrap());
    sealed
}

fn decrypt_in_pieces(
    ciphertext: &[u8],
    piece: usize,
    chunk_len: ChunkLen,
) -> Result<Vec<u8>, BackupError> {
    let mut stream = StreamDecryptor::new(key(), nonce(), chunk_len);
    let mut opened = Vec::new();
    for part in ciphertext.chunks(piece) {
        opened.extend(stream.update(part)?);
    }
    opened.extend(stream.finish()?);
    Ok(opened)
}

#[test]
fn chunk_len_takes_what_can_be_worked_with() {
    assert!(ChunkLen::new(0).is_none());
    assert!(ChunkLen::new(usize::MAX).is_none());
    assert!(ChunkLen::new(usize::MAX - 15).is_none());
    assert_eq!(ChunkLen::new(1).unwrap().plain_len(), 1);
    assert_eq!(ChunkLen::new(1).unwrap().cipher_len(), 17);
    assert_eq!(ChunkLen::new(65536).unwrap().plain_len(), 65536);
    assert_eq!(ChunkLen::new(65536).unwrap().cipher_len(), 65552);
}

#[test]
fn chunk_len_is_bounded_by_the_cipher() {
    let limit: u64 = 1 << 36;
    if let Ok(at_limit) = usize::try_from(limit) {
        assert!(ChunkLen::new(at_limit).is_some());
        assert!(ChunkLen::new(at_limit + 1).is_none());
    }
}

#[test]
fn standard_chunk_len_is_4096_and_4112() {
    assert_eq!(ChunkLen::standard().plain_len(), 4096);
    assert_eq!(ChunkLen::standard().cipher_len(), 4112);
}

#[test]
fn standard_chunk_len_is_what_encrypt_file_uses() {
    let plaintext = content(9000);
    assert_eq!(
        encrypt_file_chunked(&plaintext, &key(), &nonce(), ChunkLen::standard()),
        encrypt_file(&plaintext, &key(), &nonce())
    );
    let sealed = encrypt_file(&plaintext, &key(), &nonce()).unwrap();
    assert_eq!(
        decrypt_file_chunked(&sealed, &key(), &nonce(), ChunkLen::standard()),
        decrypt_file(&sealed, &key(), &nonce())
    );
}

#[test]
fn chosen_chunk_len_cuts_the_file_there() {
    let plaintext = content(25);
    let chunk_len = ChunkLen::new(10).unwrap();
    let sealed = encrypt_file_chunked(&plaintext, &key(), &nonce(), chunk_len).unwrap();
    assert_eq!(sealed.len(), 25 + 3 * 16);
    assert_eq!(&sealed[..26], &encrypt(&plaintext[..10], &key(), &nonce()).unwrap()[..]);
    assert_eq!(&sealed[26..52], &encrypt(&plaintext[10..20], &key(), &nonce()).unwrap()[..]);
    assert_eq!(&sealed[52..], &encrypt(&plaintext[20..], &key(), &nonce()).unwrap()[..]);
    assert_eq!(
        decrypt_file_chunked(&sealed, &key(), &nonce(), chunk_len),
        Ok(plaintext)
    );
}

#[test]
fn round_trip_with_chosen_chunk_lengths() {
    for chunk in [1usize, 2, 15, 16, 17, 100, 4096, 5000, 100000] {
        let chunk_len = ChunkLen::new(chunk).unwrap();
        for len in [0usize, 1, 16, 99, 100, 101, 200, 4096, 5001] {
            let plaintext = content(len);
            let sealed = encrypt_file_chunked(&plaintext, &key(), &nonce(), chunk_len).unwrap();
            let chunks = (len + chunk - 1) / chunk;
            assert_eq!(sealed.len(), len + 16 * chunks);
            assert_eq!(
                decrypt_file_chunked(&sealed, &key(), &nonce(), chunk_len),
                Ok(plaintext)
            );
        }
    }
}

#[test]
fn larger_chunks_give_a_shorter_file() {
    let plaintext = content(10000);
    let small = encrypt_file_chunked(&plaintext, &key(), &nonce(), ChunkLen::new(100).unwrap());
    let large = encrypt_file_chunked(&plaintext, &key(), &nonce(), ChunkLen::new(5000).unwrap());
    assert_eq!(small.unwrap().len(), 10000 + 100 * 16);
    assert_eq!(large.unwrap().len(), 10000 + 2 * 16);
}

#[test]
fn decrypting_with_another_chunk_len_fails() {
    let plaintext = content(300);
    let sealed =
        encrypt_file_chunked(&plaintext, &key(), &nonce(), ChunkLen::new(100).unwrap()).unwrap();
    assert_eq!(
        decrypt_file_chunked(&sealed, &key(), &nonce(), ChunkLen::new(116).unwrap()),
        Err(BackupError::Authentication)
    );
    assert_eq!(
        decrypt_file(&sealed, &key(), &nonce()),
        Err(BackupError::Authentication)
    );
}

#[test]
fn pieces_of_any_length_give_the_file_encrypted_at_once() {
    for len in [0usize, 1, 4095, 4096, 4097, 10000, 12288] {
        let plaintext = content(len);
        let whole = encrypt_file(&plaintext, &key(), &nonce()).unwrap();
        for piece in [1usize, 7, 4095, 4096, 4097, 5000, 20000] {
            assert_eq!(
                encrypt_in_pieces(&plaintext, piece, ChunkLen::standard()),
                whole
            );
        }
    }
}

#[test]
fn pieces_of_any_length_give_the_file_decrypted_at_once() {
    for len in [0usize, 1, 4095, 4096, 4097, 10000, 12288] {
        let plaintext = content(len);
        let sealed = encrypt_file(&plaintext, &key(), &nonce()).unwrap();
        for piece in [1usize, 16, 4096, 4111, 4112, 4113, 9000, 20000] {
            assert_eq!(
                decrypt_in_pieces(&sealed, piece, ChunkLen::standard()),
                Ok(plaintext.clone())
            );
        }
    }
}

#[test]
fn encryptor_hands_out_each_chunk_when_it_is_full() {
    let plaintext = content(25);
    let mut stream = StreamEncryptor::new(key(), nonce(), ChunkLen::new(10).unwrap());
    assert_eq!(stream.update(&plaintext[..9]), Ok(Vec::new()));
    assert_eq!(
        stream.update(&plaintext[9..10]),
        Ok(encrypt(&plaintext[..10], &key(), &nonce()).unwrap())
    );
    assert_eq!(stream.update(&[]), Ok(Vec::new()));
    assert_eq!(
        stream.update(&plaintext[10..25]),
        Ok(encrypt(&plaintext[10..20], &key(), &nonce()).unwrap())
    );
    assert_eq!(
        stream.finish(),
        Ok(encrypt(&plaintext[20..], &key(), &nonce()).unwrap())
    );
}

#[test]
fn encryptor_hands_out_nothing_at_the_end_of_a_full_chunk() {
    let plaintext = content(20);
    let mut stream = StreamEncryptor::new(key(), nonce(), ChunkLen::new(10).unwrap());
    let sealed = stream.update(&plaintext).unwrap();
    assert_eq!(sealed.len(), 52);
    assert_eq!(stream.finish(), Ok(Vec::new()));
}

#[test]
fn encryptor_without_input_gives_an_empty_file() {
    let stream = StreamEncryptor::new(key(), nonce(), ChunkLen::standard());
    assert_eq!(stream.finish(), Ok(Vec::new()));
    let stream = StreamDecryptor::new(key(), nonce(), ChunkLen::standard());
    assert_eq!(stream.finish(), Ok(Vec::new()));
}

#[test]
fn decryptor_hands_out_each_chunk_when_it_is_full() {
    let plaintext = content(25);
    let chunk_len = ChunkLen::new(10).unwrap();
    let sealed = encrypt_file_chunked(&plaintext, &key(), &nonce(), chunk_len).unwrap();
    let mut stream = StreamDecryptor::new(key(), nonce(), chunk_len);
    assert_eq!(stream.update(&sealed[..25]), Ok(Vec::new()));
    assert_eq!(stream.update(&sealed[25..26]), Ok(plaintext[..10].to_vec()));
    assert_eq!(stream.update(&sealed[26..60]), Ok(plaintext[10..20].to_vec()));
    assert_eq!(stream.update(&sealed[60..]), Ok(Vec::new()));
    assert_eq!(stream.finish(), Ok(plaintext[20..].to_vec()));
}

#[test]
fn decryptor_stays_rejected_after_a_bad_chunk() {
    let plaintext = content(35);
    let chunk_len = ChunkLen::new(10).unwrap();
    let mut sealed = encrypt_file_chunked(&plaintext, &key(), &nonce(), chunk_len).unwrap();
    sealed[30] ^= 0x01;
    let mut stream = StreamDecryptor::new(key(), nonce(), chunk_len);
    assert_eq!(stream.update(&sealed[..26]), Ok(plaintext[..10].to_vec()));
    assert_eq!(
        stream.update(&sealed[26..52]),
        Err(BackupError::Authentication)
    );
    assert_eq!(
        stream.update(&sealed[52..78]),
        Err(BackupError::Authentication)
    );
    assert_eq!(stream.update(&[]), Err(BackupError::Authentication));
    assert_eq!(stream.finish(), Err(BackupError::Authentication));
}

#[test]
fn decryptor_refuses_a_bad_last_chunk_at_the_end() {
    let plaintext = content(25);
    let chunk_len = ChunkLen::new(10).unwrap();
    let mut sealed = encrypt_file_chunked(&plaintext, &key(), &nonce(), chunk_len).unwrap();
    let last = sealed.len() - 1;
    sealed[last] ^= 0x80;
    let mut stream = StreamDecryptor::new(key(), nonce(), chunk_len);
    assert_eq!(stream.update(&sealed), Ok(plaintext[..20].to_vec()));
    assert_eq!(stream.finish(), Err(BackupError::Authentication));
}

#[test]
fn tampering_is_detected_in_pieces_too() {
    let plaintext = content(9000);
    let sealed = encrypt_file(&plaintext, &key(), &nonce()).unwrap();
    for byte in [0usize, 4111, 4112, 8224, 9047] {
        let mut tampered = sealed.clone();
        tampered[byte] ^= 0x10;
        for piece in [1000usize, 4112, 10000] {
            assert_eq!(
                decrypt_in_pieces(&tampered, piece, ChunkLen::standard()),
                Err(BackupError::Authentication)
            );
        }
    }
}

#[test]
fn every_flipped_bit_of_a_file_of_three_chunks_is_detected() {
    let plaintext = content(25);
    let chunk_len = ChunkLen::new(10).unwrap();
    let sealed = encrypt_file_chunked(&plaintext, &key(), &nonce(), chunk_len).unwrap();
    assert_eq!(sealed.len(), 73);
    for byte in 0..sealed.len() {
        for bit in 0..8 {
            let mut tampered = sealed.clone();
            tampered[byte] ^= 1 << bit;
            assert_eq!(
                decrypt_file_chunked(&tampered, &key(), &nonce(), chunk_len),
                Err(BackupError::Authentication)
            );
            assert_eq!(
                decrypt_in_pieces(&tampered, 9, chunk_len),
                Err(BackupError::Authentication)
            );
        }
    }
}

#[test]
fn chunks_put_in_another_order_still_open() {
    // Every chunk is sealed on its own with the same nonce: the file does
    // not say which chunk comes first.
    let plaintext = content(30);
    let chunk_len = ChunkLen::new(10).unwrap();
    let sealed = encrypt_file_chunked(&plaintext, &key(), &nonce(), chunk_len).unwrap();
    let mut swapped = Vec::new();
    swapped.extend_from_slice(&sealed[26..52]);
    swapped.extend_from_slice(&sealed[..26]);
    swapped.extend_from_slice(&sealed[52..]);
    let mut expected = Vec::new();
    expected.extend_from_slice(&plaintext[10..20]);
    expected.extend_from_slice(&plaintext[..10]);
    expected.extend_from_slice(&plaintext[20..]);
    assert_eq!(
        decrypt_file_chunked(&swapped, &key(), &nonce(), chunk_len),
        Ok(expected)
    );
}
