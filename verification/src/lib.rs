//! Authenticated encryption of backup files under a key and a nonce that are
//! made once and kept.
//!
//! The library works on bytes: its caller reads files and writes them.
//!
//! - `material`, `keystore`: the key and the nonce, their image in the
//!   key-store file, and the rule that provides them once and for all.
//! - `cipher`: AES-256-GCM on one buffer, through the `aes-gcm` crate.
//! - `chunks`, `format`: how a file is cut into chunks, and what its
//!   encrypted form is.
//! - `stream`, `codec`: encryption and decryption of a file, piece by piece
//!   or at once.
//! - `layout`, `discovery`: where the files of a user are kept.
//!
//! Every chunk of every file is sealed with the same nonce. Equal chunks
//! therefore have equal ciphertexts, which an observer can see.

pub mod chunks;
pub mod cipher;
pub mod codec;
pub mod discovery;
pub mod error;
pub mod format;
pub mod keystore;
pub mod layout;
pub mod material;
pub mod stream;

pub use cipher::{decrypt, encrypt, TAG_LEN};
pub use chunks::{ChunkLen, CIPHER_CHUNK_LEN, PLAIN_CHUNK_LEN};
pub use codec::{decrypt_file, decrypt_file_chunked, encrypt_file, encrypt_file_chunked};
pub use discovery::path_names_user;
pub use error::BackupError;
pub use keystore::{
    generate_key_nonce, get_key_nonce, load_key_nonce, store_key_nonce, KeyProvision,
    KEY_MATERIAL_LEN,
};
pub use layout::{config_dir, config_file_path, crypto_dir, key_store_path};
pub use material::{Key, Nonce, KEY_LEN, NONCE_LEN};
pub use stream::{StreamDecryptor, StreamEncryptor};
