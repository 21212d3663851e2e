use pipecryptbackup::{
    decrypt, decrypt_file, encrypt, encrypt_file, generate_key_nonce, BackupError, Key, Nonce,
    CIPHER_CHUNK_LEN, PLAIN_CHUNK_LEN, TAG_LEN,
};

fn key() -> Key {
    let mut bytes = [0u8; 32];
    for (i, b) in bytes.iter_mut().enumerate() {
        *b = 0xf0 ^ (i as u8);
    }
    Key::from_bytes(bytes)
}

fn nonce() -> Nonce {
    Nonce::from_bytes([9, 8, 7, 6, 5, 4, 3, 2, 1, 0, 1, 2])
}

fn content(len: usize) -> Vec<u8> {
    (0..len).map(|i| ((i * 31 + i / 256) % 256) as u8).collect()
}

#[test]
fn chunk_lengths_are_4096_and_4112() {
    assert_eq!(PLAIN_CHUNK_LEN, 4096);
    assert_eq!(CIPHER_CHUNK_LEN, 4112);
    assert_eq!(CIPHER_CHUNK_LEN, PLAIN_CHUNK_LEN + TAG_LEN);
}

#[test]
fn empty_file_encrypts_to_empty_file() {
    assert_eq!(encrypt_file(&[], &key(), &nonce()), Ok(Vec::new()));
    assert_eq!(decrypt_file(&[], &key(), &nonce()), Ok(Vec::new()));
}

#[test]
fn exactly_one_chunk_gives_one_ciphertext_chunk() {
    let plaintext = content(4096);
    let sealed = encrypt_file(&plaintext, &key(), &nonce()).unwrap();
    assert_eq!(sealed.len(), 4096 + 16);
    assert_eq!(sealed, encrypt(&plaintext, &key(), &nonce()).unwrap());
}

#[test]
fn one_byte_more_than_a_chunk_gives_two_ciphertext_chunks() {
    let plaintext = content(4097);
    let sealed = encrypt_file(&plaintext, &key(), &nonce()).unwrap();
    assert_eq!(sealed.len(), 4097 + 2 * 16);
    let first = encrypt(&plaintext[..4096], &key(), &nonce()).unwrap();
    let second = encrypt(&plaintext[4096..], &key(), &nonce()).unwrap();
    assert_eq!(&sealed[..4112], &first[..]);
    assert_eq!(&sealed[4112..], &second[..]);
    assert_eq!(second.len(), 17);
}

#[test]
fn short_file_is_one_short_chunk() {
    let plaintext = content(5);
    let sealed = encrypt_file(&plaintext, &key(), &nonce()).unwrap();
    assert_eq!(sealed, encrypt(&plaintext, &key(), &nonce()).unwrap());
    assert_eq!(sealed.len(), 21);
}

#[test]
fn encrypted_length_grows_by_one_tag_per_chunk() {
    let cases: [(usize, usize); 8] = [
        (0, 0),
        (1, 17),
        (4095, 4111),
        (4096, 4112),
        (4097, 4129),
        (8192, 8224),
        (8193, 8241),
        (10000, 10048),
    ];
    for (plain_len, sealed_len) in cases {
        let sealed = encrypt_file(&content(plain_len), &key(), &nonce()).unwrap();
        assert_eq!(sealed.len(), sealed_len);
    }
}

#[test]
fn round_trip_over_chunk_boundaries() {
    for len in [0usize, 1, 15, 16, 17, 4095, 4096, 4097, 4111, 4112, 4113, 8191, 8192, 8193, 12288, 20000] {
        let plaintext = content(len);
        let sealed = encrypt_file(&plaintext, &key(), &nonce()).unwrap();
        assert_eq!(decrypt_file(&sealed, &key(), &nonce()), Ok(plaintext));
    }
}

#[test]
fn end_to_end_with_a_generated_key() {
    let (key, nonce) = generate_key_nonce().unwrap();
    let known = content(10000);
    let out_bin = encrypt_file(&known, &key, &nonce).unwrap();
    assert_eq!(out_bin.len(), 10000 + 3 * 16);
    let roundtrip_bin = decrypt_file(&out_bin, &key, &nonce).unwrap();
    assert_eq!(roundtrip_bin.len(), 10000);
    assert_eq!(roundtrip_bin, known);
}

#[test]
fn decryption_reads_chunks_of_ciphertext_length() {
    let plaintext = content(9000);
    let sealed = encrypt_file(&plaintext, &key(), &nonce()).unwrap();
    assert_eq!(
        decrypt(&sealed[..4112], &key(), &nonce()),
        Ok(plaintext[..4096].to_vec())
    );
    assert_eq!(
        decrypt(&sealed[4112..8224], &key(), &nonce()),
        Ok(plaintext[4096..8192].to_vec())
    );
    assert_eq!(
        decrypt(&sealed[8224..], &key(), &nonce()),
        Ok(plaintext[8192..].to_vec())
    );
    assert_eq!(
        decrypt(&sealed[..4096], &key(), &nonce()),
        Err(BackupError::Authentication)
    );
}

#[test]
fn every_flipped_bit_of_a_small_file_is_detected() {
    let plaintext = content(40);
    let sealed = encrypt_file(&plaintext, &key(), &nonce()).unwrap();
    for byte in 0..sealed.len() {
        for bit in 0..8 {
            let mut tampered = sealed.clone();
            tampered[byte] ^= 1 << bit;
            assert_eq!(
                decrypt_file(&tampered, &key(), &nonce()),
                Err(BackupError::Authentication)
            );
        }
    }
}

#[test]
fn a_flipped_bit_in_any_chunk_is_detected() {
    let plaintext = content(10000);
    let sealed = encrypt_file(&plaintext, &key(), &nonce()).unwrap();
    let places: [usize; 9] = [0, 4095, 4096, 4111, 4112, 8223, 8224, 9000, 10047];
    for byte in places {
        for bit in [0u8, 3, 7] {
            let mut tampered = sealed.clone();
            tampered[byte] ^= 1 << bit;
            assert_eq!(
                decrypt_file(&tampered, &key(), &nonce()),
                Err(BackupError::Authentication)
            );
        }
    }
}

#[test]
fn truncated_ciphertext_is_refused() {
    let sealed = encrypt_file(&content(5000), &key(), &nonce()).unwrap();
    for cut in [1usize, 16, 17, 900, 4112 + 15] {
        let truncated = &sealed[..sealed.len() - cut];
        assert_eq!(
            decrypt_file(truncated, &key(), &nonce()),
            Err(BackupError::Authentication)
        );
    }
}

#[test]
fn whole_chunks_of_a_file_still_open() {
    let plaintext = content(5000);
    let sealed = encrypt_file(&plaintext, &key(), &nonce()).unwrap();
    assert_eq!(
        decrypt_file(&sealed[..4112], &key(), &nonce()),
        Ok(plaintext[..4096].to_vec())
    );
}

#[test]
fn decrypt_file_refuses_another_key_or_nonce() {
    let sealed = encrypt_file(&content(100), &key(), &nonce()).unwrap();
    let other_key = Key::from_bytes([1u8; 32]);
    let other_nonce = Nonce::from_bytes([1u8; 12]);
    assert_eq!(
        decrypt_file(&sealed, &other_key, &nonce()),
        Err(BackupError::Authentication)
    );
    assert_eq!(
        decrypt_file(&sealed, &key(), &other_nonce),
        Err(BackupError::Authentication)
    );
}

#[test]
fn decrypt_file_refuses_plain_bytes() {
    assert_eq!(
        decrypt_file(&content(100), &key(), &nonce()),
        Err(BackupError::Authentication)
    );
    assert_eq!(
        decrypt_file(&[0u8; 3], &key(), &nonce()),
        Err(BackupError::Authentication)
    );
}

#[test]
fn encrypting_the_same_file_twice_gives_the_same_bytes() {
    let plaintext = content(6000);
    let first = encrypt_file(&plaintext, &key(), &nonce()).unwrap();
    let second = encrypt_file(&plaintext, &key(), &nonce()).unwrap();
    assert_eq!(first, second);
}

#[test]
fn equal_chunks_of_one_file_encrypt_alike() {
    let plaintext = vec![0x42u8; 8192];
    let sealed = encrypt_file(&plaintext, &key(), &nonce()).unwrap();
    assert_eq!(&sealed[..4112], &sealed[4112..]);
}
