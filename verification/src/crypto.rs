//! AES-256-GCM sealing of secrets.
//!
//! A sealed blob is laid out as `nonce (12 bytes) || ciphertext-with-tag`.
//! The cipher itself is the `aes-gcm` crate; what this module proves is the
//! framing around it: how blobs are built, how they are split again, and
//! which error each malformed or unauthentic blob yields.
use aes_gcm::aead::{Aead, AeadCore, KeyInit, OsRng};
use aes_gcm::Aes256Gcm;
use rand::RngCore;
use vstd::prelude::*;

verus! {

/// Size of the AES-256 key in bytes.
pub const KEY_SIZE: usize = 32;

/// Size of the GCM nonce in bytes.
pub const NONCE_SIZE: usize = 12;

/// Size of the GCM authentication tag in bytes.
pub const TAG_SIZE: usize = 16;

/// Longest plaintext that AES-GCM accepts (2^36 bytes).
pub const MAX_PLAINTEXT_LEN: u64 = 68719476736;

/// A plaintext of `n` bytes can be sealed: AES-GCM accepts its length, and
/// the buffer for the ciphertext with its tag can be allocated.
pub open spec fn sealable_len(n: int) -> bool {
    n <= MAX_PLAINTEXT_LEN && n + TAG_SIZE <= isize::MAX as int
}

/// Errors that can occur during encryption or decryption.
#[derive(Debug, Clone, Copy, PartialEq, Eq, Structural)]
pub enum CryptoError {
    /// The ciphertext was shorter than the nonce.
    MalformedCiphertext,
    /// AES-GCM decryption failed (wrong key or corrupted data).
    DecryptionFailed,
}

/// The text by which an error is shown to a user.
pub open spec fn crypto_error_text(e: CryptoError) -> Seq<char> {
    match e {
        CryptoError::MalformedCiphertext => "malformed ciphertext"@,
        CryptoError::DecryptionFailed => "decryption failed"@,
    }
}

impl CryptoError {
    /// The human-readable description of the error.
    pub fn message(&self) -> (s: &'static str)
        ensures
            s@ == crypto_error_text(*self),
    {
        match self {
            CryptoError::MalformedCiphertext => "malformed ciphertext",
            CryptoError::DecryptionFailed => "decryption failed",
        }
    }
}

#[verifier::external_type_specification]
#[verifier::external_body]
pub struct ExAeadError(aes_gcm::Error);

/// AES-256-GCM encryption of `plaintext` under `key` and `nonce`, with no
/// associated data: the ciphertext followed by the 16-byte tag.
pub uninterp spec fn aes256gcm_seal(key: Seq<u8>, nonce: Seq<u8>, plaintext: Seq<u8>) -> Seq<u8>;

/// AES-256-GCM decryption of `ciphertext` under `key` and `nonce`, with no
/// associated data: the plaintext, or `None` when the tag does not verify.
pub uninterp spec fn aes256gcm_open(key: Seq<u8>, nonce: Seq<u8>, ciphertext: Seq<u8>) -> Option<Seq<u8>>;

/// Calls `rand::thread_rng().fill_bytes` on the buffer. The bytes are random:
/// nothing is stated of them.
#[verifier::external_body]
fn fill_random(buf: &mut [u8; 32]) {
    rand::thread_rng().fill_bytes(buf);
}

/// Calls `Aes256Gcm::generate_nonce` with the operating system's generator.
/// The nonce is random: nothing is stated of it.
#[verifier::external_body]
fn fresh_nonce() -> (nonce: [u8; 12]) {
    Aes256Gcm::generate_nonce(&mut OsRng).into()
}

/// Calls `Aead::encrypt` of `Aes256Gcm` (a cipher made by `KeyInit::new` from
/// `key`). Per the crate's source it fails exactly when the plaintext is longer
/// than 2^36 bytes; otherwise it returns the named sealing, which is the
/// plaintext's length plus the 16-byte tag. It first reserves room for the
/// ciphertext and tag, which must fit in `isize::MAX` bytes.
#[verifier::external_body]
fn aes256gcm_encrypt(key: &[u8; 32], nonce: &[u8; 12], plaintext: &[u8]) -> (res: Result<Vec<u8>, aes_gcm::Error>)
    requires
        plaintext@.len() + TAG_SIZE <= isize::MAX as int,
    ensures
        res is Ok <==> plaintext@.len() <= MAX_PLAINTEXT_LEN,
        res matches Ok(c) ==> c@ == aes256gcm_seal(key@, nonce@, plaintext@),
        res matches Ok(c) ==> c@.len() == plaintext@.len() + TAG_SIZE,
{
    let cipher = Aes256Gcm::new(&(*key).into());
    cipher.encrypt(&(*nonce).into(), plaintext)
}

/// Calls `Aead::decrypt` of `Aes256Gcm` (a cipher made by `KeyInit::new` from
/// `key`). Its result is the named opening. Per the crate's source, a
/// ciphertext shorter than the tag is refused, and a ciphertext that is the
/// sealing of a plaintext under the same key and nonce opens to that plaintext.
/// Whether any other ciphertext opens (a wrong key, tampered bytes) is left
/// unsaid: that is the cipher's security, which no contract here claims.
#[verifier::external_body]
fn aes256gcm_decrypt(key: &[u8; 32], nonce: &[u8], ciphertext: &[u8]) -> (res: Result<Vec<u8>, aes_gcm::Error>)
    requires
        nonce@.len() == NONCE_SIZE,
    ensures
        res matches Ok(p) ==> aes256gcm_open(key@, nonce@, ciphertext@) == Some(p@),
        res is Err ==> aes256gcm_open(key@, nonce@, ciphertext@) is None,
        ciphertext@.len() < TAG_SIZE ==> res is Err,
        opens_every_sealing(key@, nonce@, ciphertext@, ok_bytes(res)),
{
    let cipher = Aes256Gcm::new(&(*key).into());
    cipher.decrypt(aes_gcm::Nonce::from_slice(nonce), ciphertext)
}

/// The bytes that an `Ok` carries, as a sequence.
pub open spec fn ok_bytes<E>(res: Result<Vec<u8>, E>) -> Option<Seq<u8>> {
    match res {
        Ok(v) => Some(v@),
        Err(_) => None,
    }
}

/// Opening `ciphertext` gave `opened`, and whenever `ciphertext` is the sealing
/// of some plaintext under `key` and `nonce`, `opened` is that plaintext.
pub open spec fn opens_every_sealing(
    key: Seq<u8>,
    nonce: Seq<u8>,
    ciphertext: Seq<u8>,
    opened: Option<Seq<u8>>,
) -> bool {
    forall|p: Seq<u8>|
        p.len() <= MAX_PLAINTEXT_LEN && #[trigger] aes256gcm_seal(key, nonce, p) == ciphertext
            ==> opened == Some(p)
}

/// `blob` is `nonce || aes256gcm_seal(key, nonce, plaintext)` for its own
/// first twelve bytes as the nonce.
pub open spec fn sealed_blob(key: Seq<u8>, plaintext: Seq<u8>, blob: Seq<u8>) -> bool {
    &&& blob.len() >= NONCE_SIZE
    &&& blob.subrange(NONCE_SIZE as int, blob.len() as int) == aes256gcm_seal(
        key,
        blob.subrange(0, NONCE_SIZE as int),
        plaintext,
    )
}

/// What decrypting `blob` under `key` gives.
pub open spec fn decrypt_spec(key: Seq<u8>, blob: Seq<u8>) -> Result<Seq<u8>, CryptoError> {
    if blob.len() < NONCE_SIZE {
        Err(CryptoError::MalformedCiphertext)
    } else {
        match aes256gcm_open(
            key,
            blob.subrange(0, NONCE_SIZE as int),
            blob.subrange(NONCE_SIZE as int, blob.len() as int),
        ) {
            Some(p) => Ok(p),
            None => Err(CryptoError::DecryptionFailed),
        }
    }
}

/// Generate a random 256-bit encryption key.
pub fn generate_key() -> (key: [u8; 32])
    ensures
        key@.len() == KEY_SIZE,
{
    let mut key = [0u8; 32];
    fill_random(&mut key);
    key
}

/// Encrypt a plaintext secret using AES-256-GCM under a fresh random nonce.
///
/// Returns `nonce || ciphertext` (the nonce is prepended).
pub fn encrypt(key: &[u8; 32], plaintext: &[u8]) -> (blob: Vec<u8>)
    requires
        sealable_len(plaintext@.len() as int),
    ensures
        sealed_blob(key@, plaintext@, blob@),
        blob@.len() == NONCE_SIZE + plaintext@.len() + TAG_SIZE,
{
    let nonce = fresh_nonce();
    let sealed = aes256gcm_encrypt(key, &nonce, plaintext);
    let ciphertext = match sealed {
        Ok(c) => c,
        Err(_) => {
            proof {
                assert(false);
            }
            Vec::new()
        },
    };
    let mut blob: Vec<u8> = Vec::new();
    let mut i: usize = 0;
    while i < NONCE_SIZE
        invariant
            0 <= i <= NONCE_SIZE,
            nonce@.len() == NONCE_SIZE,
            blob@ == nonce@.subrange(0, i as int),
        decreases NONCE_SIZE - i,
    {
        blob.push(nonce[i]);
        i = i + 1;
    }
    let mut j: usize = 0;
    while j < ciphertext.len()
        invariant
            0 <= j <= ciphertext@.len(),
            nonce@.len() == NONCE_SIZE,
            blob@ == nonce@ + ciphertext@.subrange(0, j as int),
        decreases ciphertext@.len() - j,
    {
        blob.push(ciphertext[j]);
        j = j + 1;
    }
    proof {
        assert(ciphertext@.subrange(0, ciphertext@.len() as int) == ciphertext@);
        assert(blob@.subrange(0, NONCE_SIZE as int) == nonce@);
        assert(blob@.subrange(NONCE_SIZE as int, blob@.len() as int) == ciphertext@);
    }
    blob
}

/// Decrypt a blob produced by [`encrypt`].
///
/// A blob shorter than the nonce is `MalformedCiphertext`; one whose tag does
/// not verify is `DecryptionFailed`. A blob that `encrypt` made under the same
/// key always gives back its plaintext.
pub fn decrypt(key: &[u8; 32], blob: &[u8]) -> (res: Result<Vec<u8>, CryptoError>)
    ensures
        match res {
            Ok(p) => decrypt_spec(key@, blob@) == Ok::<Seq<u8>, CryptoError>(p@),
            Err(e) => decrypt_spec(key@, blob@) == Err::<Seq<u8>, CryptoError>(e),
        },
        blob@.len() < NONCE_SIZE <==> res == Err::<Vec<u8>, CryptoError>(
            CryptoError::MalformedCiphertext,
        ),
        NONCE_SIZE <= blob@.len() < NONCE_SIZE + TAG_SIZE ==> res == Err::<Vec<u8>, CryptoError>(
            CryptoError::DecryptionFailed,
        ),
        forall|p: Seq<u8>|
            p.len() <= MAX_PLAINTEXT_LEN && #[trigger] sealed_blob(key@, p, blob@) ==> (res matches Ok(
                q,
            ) && q@ == p),
{
    if blob.len() < NONCE_SIZE {
        return Err(CryptoError::MalformedCiphertext);
    }
    let (nonce_bytes, ciphertext) = blob.split_at(NONCE_SIZE);
    match aes256gcm_decrypt(key, nonce_bytes, ciphertext) {
        Ok(p) => Ok(p),
        Err(_) => Err(CryptoError::DecryptionFailed),
    }
}

} // verus!
