use vstd::prelude::*;

verus! {

/// Number of bytes in a key.
pub const KEY_LEN: usize = 32;

/// Number of bytes in a nonce.
pub const NONCE_LEN: usize = 12;

/// A 256-bit encryption key.
#[derive(Clone, Copy)]
pub struct Key {
    bytes: [u8; 32],
}

/// A 96-bit nonce.
#[derive(Clone, Copy)]
pub struct Nonce {
    bytes: [u8; 12],
}

impl View for Key {
    type V = Seq<u8>;

    closed spec fn view(&self) -> Seq<u8> {
        self.bytes@
    }
}

impl View for Nonce {
    type V = Seq<u8>;

    closed spec fn view(&self) -> Seq<u8> {
        self.bytes@
    }
}

impl Key {
    /// Wraps 32 bytes as a key.
    pub fn from_bytes(bytes: [u8; 32]) -> (key: Key)
        ensures
            key@ == bytes@,
    {
        Key { bytes }
    }

    /// The 32 bytes of the key.
    pub fn as_bytes(&self) -> (bytes: &[u8; 32])
        ensures
            bytes@ == self@,
    {
        &self.bytes
    }

    /// A key always has `KEY_LEN` bytes.
    pub proof fn lemma_len(self)
        ensures
            self@.len() == KEY_LEN,
    {
    }
}

impl Nonce {
    /// Wraps 12 bytes as a nonce.
    pub fn from_bytes(bytes: [u8; 12]) -> (nonce: Nonce)
        ensures
            nonce@ == bytes@,
    {
        Nonce { bytes }
    }

    /// The 12 bytes of the nonce.
    pub fn as_bytes(&self) -> (bytes: &[u8; 12])
        ensures
            bytes@ == self@,
    {
        &self.bytes
    }

    /// A nonce always has `NONCE_LEN` bytes.
    pub proof fn lemma_len(self)
        ensures
            self@.len() == NONCE_LEN,
    {
    }
}

} // verus!
