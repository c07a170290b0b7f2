//! ChaCha20-Poly1305 symmetric encryption for tunnel packets.
//!
//! Pre-shared key; the nonce is derived from the packet's sequence number.
use super::wire::le_bytes_u64;
use chacha20poly1305::aead::{Aead, KeyInit};
use chacha20poly1305::ChaCha20Poly1305;
use vstd::prelude::*;

verus! {

pub const KEY_SIZE: usize = 32;

/// Declares the error type of the `aead` traits.
#[verifier::external_type_specification]
#[verifier::external_body]
pub struct ExAeadError(chacha20poly1305::Error);

/// Declares the error type of `getrandom`.
#[verifier::external_type_specification]
#[verifier::external_body]
pub struct ExGetrandomError(getrandom::Error);

/// The ChaCha20-Poly1305 ciphertext (with its 16-byte tag appended) of
/// `plaintext` under `key` and `nonce`, with no associated data.
pub uninterp spec fn chacha_seal(key: Seq<u8>, nonce: Seq<u8>, plaintext: Seq<u8>) -> Seq<u8>;

/// The plaintext that ChaCha20-Poly1305 authenticates and decrypts from
/// `ciphertext` under `key` and `nonce`, or `None` when the tag does not verify.
pub uninterp spec fn chacha_open(key: Seq<u8>, nonce: Seq<u8>, ciphertext: Seq<u8>) -> Option<Seq<u8>>;

/// Plaintexts up to this many bytes are accepted by the cipher (it refuses
/// buffers of `u32::MAX` 64-byte blocks or more).
pub open spec fn max_plaintext() -> nat {
    64 * 0xffff_ffff
}

/// Calls `ChaCha20Poly1305::new(key).encrypt(nonce, plaintext)`. It only
/// fails for buffers of `u32::MAX` 64-byte blocks or more; the result is the
/// ciphertext followed by the 16-byte tag, and as an AEAD decryption with the
/// same key and nonce gives the plaintext back.
#[verifier::external_body]
fn chacha_encrypt(key: &[u8; 32], nonce: &[u8; 12], plaintext: &[u8]) -> (r: Result<
    Vec<u8>,
    chacha20poly1305::Error,
>)
    requires
        plaintext@.len() < max_plaintext(),
    ensures
        r is Ok,
        r is Ok ==> r->Ok_0@ == chacha_seal(key@, nonce@, plaintext@),
        r is Ok ==> r->Ok_0@.len() == plaintext@.len() + 16,
        r is Ok ==> chacha_open(key@, nonce@, r->Ok_0@) == Some(plaintext@),
{
    ChaCha20Poly1305::new(key.into()).encrypt(nonce.into(), plaintext)
}

/// Calls `ChaCha20Poly1305::new(key).decrypt(nonce, ciphertext)`: `Ok` with
/// the plaintext exactly when the tag verifies; inputs shorter than the
/// 16-byte tag are refused.
#[verifier::external_body]
fn chacha_decrypt(key: &[u8; 32], nonce: &[u8; 12], ciphertext: &[u8]) -> (r: Result<
    Vec<u8>,
    chacha20poly1305::Error,
>)
    ensures
        match r {
            Ok(p) => chacha_open(key@, nonce@, ciphertext@) == Some(p@),
            Err(_) => chacha_open(key@, nonce@, ciphertext@) is None,
        },
        ciphertext@.len() < 16 ==> r is Err,
{
    ChaCha20Poly1305::new(key.into()).decrypt(nonce.into(), ciphertext)
}

/// Calls `getrandom::getrandom` to fill `dest` from the system's random
/// source; nothing is promised of the bytes, nor that the call succeeds.
#[verifier::external_body]
fn fill_random(dest: &mut [u8; 32]) -> Result<(), getrandom::Error> {
    getrandom::getrandom(dest)
}

/// The 12-byte nonce for a sequence number: its 8 little-endian bytes, then
/// four zero bytes.
pub open spec fn nonce_for(seq: u64) -> Seq<u8> {
    le_bytes_u64(seq) + seq![0u8, 0u8, 0u8, 0u8]
}

/// Different sequence numbers give different nonces.
pub proof fn lemma_nonce_injective(s1: u64, s2: u64)
    requires
        nonce_for(s1) == nonce_for(s2),
    ensures
        s1 == s2,
{
    assert(nonce_for(s1).subrange(0, 8) =~= le_bytes_u64(s1));
    assert(nonce_for(s2).subrange(0, 8) =~= le_bytes_u64(s2));
    let (a, b) = (le_bytes_u64(s1), le_bytes_u64(s2));
    assert(a[0] == b[0] && a[1] == b[1] && a[2] == b[2] && a[3] == b[3]);
    assert(a[4] == b[4] && a[5] == b[5] && a[6] == b[6] && a[7] == b[7]);
    assert((s1 & 0xff) as u8 == (s2 & 0xff) as u8 && ((s1 >> 8) & 0xff) as u8 == ((s2 >> 8) & 0xff) as u8
        && ((s1 >> 16) & 0xff) as u8 == ((s2 >> 16) & 0xff) as u8 && ((s1 >> 24) & 0xff) as u8 == ((
    s2 >> 24) & 0xff) as u8 && ((s1 >> 32) & 0xff) as u8 == ((s2 >> 32) & 0xff) as u8 && ((s1
        >> 40) & 0xff) as u8 == ((s2 >> 40) & 0xff) as u8 && ((s1 >> 48) & 0xff) as u8 == ((s2
        >> 48) & 0xff) as u8 && ((s1 >> 56) & 0xff) as u8 == ((s2 >> 56) & 0xff) as u8 ==> s1
        == s2) by (bit_vector);
}

/// Tunnel cipher for one pre-shared key.
pub struct TunnelCrypto {
    key: [u8; KEY_SIZE],
}

impl TunnelCrypto {
    /// The pre-shared key.
    pub closed spec fn key(&self) -> Seq<u8> {
        self.key@
    }

    /// A cipher for `key`.
    pub fn new(key: &[u8; KEY_SIZE]) -> (c: Self)
        ensures
            c.key() == key@,
    {
        TunnelCrypto { key: *key }
    }

    /// Encrypt `payload` for sequence number `seq`: the ciphertext followed
    /// by the 16-byte Poly1305 tag. Decrypting it with the same sequence
    /// number gives `payload` back.
    pub fn encrypt(&self, seq: u64, payload: &[u8]) -> (r: Vec<u8>)
        requires
            payload@.len() < max_plaintext(),
        ensures
            r@ == chacha_seal(self.key(), nonce_for(seq), payload@),
            r@.len() == payload@.len() + 16,
            chacha_open(self.key(), nonce_for(seq), r@) == Some(payload@),
    {
        let nonce = self.make_nonce(seq);
        match chacha_encrypt(&self.key, &nonce, payload) {
            Ok(c) => c,
            Err(_) => Vec::new(),
        }
    }

    /// Decrypt `ciphertext` (auth tag included) sent with sequence number
    /// `seq`: the plaintext, or `DecryptionFailed` for a wrong key, a wrong
    /// sequence number or tampered data.
    pub fn decrypt(&self, seq: u64, ciphertext: &[u8]) -> (r: Result<Vec<u8>, CryptoError>)
        ensures
            match r {
                Ok(p) => chacha_open(self.key(), nonce_for(seq), ciphertext@) == Some(p@),
                Err(e) => chacha_open(self.key(), nonce_for(seq), ciphertext@) is None && e
                    == CryptoError::DecryptionFailed,
            },
    {
        let nonce = self.make_nonce(seq);
        match chacha_decrypt(&self.key, &nonce, ciphertext) {
            Ok(p) => Ok(p),
            Err(_) => Err(CryptoError::DecryptionFailed),
        }
    }

    /// Build the 12-byte nonce for `seq`: 8 little-endian bytes, then zeros.
    fn make_nonce(&self, seq: u64) -> (n: [u8; 12])
        ensures
            n@ == nonce_for(seq),
    {
        let n: [u8; 12] = [
            (seq & 0xff) as u8,
            ((seq >> 8) & 0xff) as u8,
            ((seq >> 16) & 0xff) as u8,
            ((seq >> 24) & 0xff) as u8,
            ((seq >> 32) & 0xff) as u8,
            ((seq >> 40) & 0xff) as u8,
            ((seq >> 48) & 0xff) as u8,
            ((seq >> 56) & 0xff) as u8,
            0,
            0,
            0,
            0,
        ];
        assert(n@ =~= nonce_for(seq));
        n
    }
}

/// Generate a random 32-byte key from the system's random source; `None`
/// when that source fails.
pub fn generate_key() -> Option<[u8; KEY_SIZE]> {
    let mut key = [0u8; KEY_SIZE];
    match fill_random(&mut key) {
        Ok(()) => Some(key),
        Err(_) => None,
    }
}

/// Errors of tunnel decryption.
#[derive(Debug, PartialEq, Eq, Structural)]
pub enum CryptoError {
    DecryptionFailed,
}

impl CryptoError {
    /// The error's message.
    pub fn message(&self) -> (s: String)
        ensures
            s@ == "decryption failed (bad key or tampered)"@,
    {
        "decryption failed (bad key or tampered)".to_owned()
    }
}

} // verus!
