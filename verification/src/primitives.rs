//! The trusted boundary to the cryptographic primitives: the secure random
//! source, the slow salted key derivation, and the authenticated cipher.
//! Each wrapper's contract states what the primitive's documentation and
//! source promise; everything built on top of them is verified.
//!
//! On nonce sizing: every block carries a full 32-byte random nonce, larger
//! than GCM's customary 12 bytes. openssl accepts it as given — its cipher
//! context sets the IV length to the supplied slice's length — so the random
//! value is used whole, and both directions of the cipher see the same bytes.

use vstd::prelude::*;

use crate::all_zero;
use crate::erase::wipe;
use crate::Error;
use crate::KEY_SIZE;
use crate::PBKDF_ITERS;
use crate::TAG_SIZE;

verus! {

/// openssl's error report, opaque here; every failure that carries one is
/// mapped to a variant of [`Error`] by the verified callers.
#[verifier::external_type_specification]
#[verifier::external_body]
pub struct ExErrorStack(openssl::error::ErrorStack);

/// The key that the iterated salted hash (PBKDF2 with HMAC-SHA256) produces
/// from a secret and a salt at a given iteration count and output length: a
/// deterministic function of those four inputs alone.
pub uninterp spec fn derived_key_of(secret: Seq<u8>, salt: Seq<u8>, iters: int, key_len: int) -> Seq<u8>;

/// The ciphertext, with its authentication tag appended, that the
/// authenticated cipher (AES-256-GCM, no associated data) produces for a key,
/// a nonce and a plaintext: a deterministic function of those three inputs
/// alone.
pub uninterp spec fn aead_ct_of(key: Seq<u8>, nonce: Seq<u8>, plaintext: Seq<u8>) -> Seq<u8>;

/// Relies on openssl::rand::rand_bytes: fills the buffer in place with bytes
/// from the secure random source. Nothing is promised of the bytes
/// themselves. The length bound keeps clear of the primitive's 32-bit length
/// argument, beyond which it panics.
#[verifier::external_body]
pub(crate) fn fill_random(buf: &mut Vec<u8>) -> (r: Result<(), openssl::error::ErrorStack>)
    requires
        old(buf)@.len() <= 0x7fffffff,
    ensures
        final(buf)@.len() == old(buf)@.len(),
{
    openssl::rand::rand_bytes(buf.as_mut_slice())
}

/// Relies on openssl::pkcs5::pbkdf2_hmac with SHA-256: fills `key` in place
/// with the derived bytes, a deterministic function of secret, salt,
/// iteration count and requested length. The length bounds keep clear of the
/// primitive's 32-bit length arguments, beyond which it panics.
#[verifier::external_body]
pub(crate) fn pbkdf2_sha256(
    secret: &Vec<u8>,
    salt: &Vec<u8>,
    iters: usize,
    key: &mut Vec<u8>,
) -> (r: Result<(), openssl::error::ErrorStack>)
    requires
        secret@.len() <= 0x7fffffff,
        salt@.len() <= 0x7fffffff,
        iters <= 0x7fffffff,
        old(key)@.len() <= 0x7fffffff,
    ensures
        final(key)@.len() == old(key)@.len(),
        r is Ok ==> final(key)@ == derived_key_of(secret@, salt@, iters as int, old(key)@.len() as int),
{
    openssl::pkcs5::pbkdf2_hmac(
        secret.as_slice(),
        salt.as_slice(),
        iters,
        openssl::hash::MessageDigest::sha256(),
        key.as_mut_slice(),
    )
}

/// Relies on openssl::symm::encrypt_aead with AES-256-GCM and no associated
/// data: on success the returned ciphertext is as long as the plaintext, the
/// tag buffer is filled, and ciphertext and tag together are the cipher's
/// output for this key, nonce and plaintext. The length bounds keep clear of
/// the primitive's 32-bit length arguments.
#[verifier::external_body]
pub(crate) fn aead_encrypt(
    key: &Vec<u8>,
    nonce: &Vec<u8>,
    plaintext: &Vec<u8>,
    tag: &mut Vec<u8>,
) -> (r: Result<Vec<u8>, openssl::error::ErrorStack>)
    requires
        key@.len() == KEY_SIZE,
        1 <= nonce@.len() <= 0x7fffffff,
        plaintext@.len() <= 0x7fffff00,
        old(tag)@.len() == TAG_SIZE,
    ensures
        final(tag)@.len() == old(tag)@.len(),
        r matches Ok(ct) ==> {
            &&& ct@.len() == plaintext@.len()
            &&& ct@ + final(tag)@ == aead_ct_of(key@, nonce@, plaintext@)
        },
{
    openssl::symm::encrypt_aead(
        openssl::symm::Cipher::aes_256_gcm(),
        key.as_slice(),
        Some(nonce.as_slice()),
        &[],
        plaintext.as_slice(),
        tag.as_mut_slice(),
    )
}

/// Relies on openssl::symm::decrypt_aead with AES-256-GCM and no associated
/// data: it returns a plaintext exactly when ciphertext body and tag are what
/// encryption under this key and nonce produces for that plaintext, and
/// fails otherwise (wrong key, wrong nonce, or altered bytes). Decryption
/// under a fixed key and nonce inverts encryption and is deterministic, so
/// the plaintext of a genuine ciphertext is unique.
#[verifier::external_body]
pub(crate) fn aead_decrypt(
    key: &Vec<u8>,
    nonce: &Vec<u8>,
    body: &Vec<u8>,
    tag: &Vec<u8>,
) -> (r: Result<Vec<u8>, openssl::error::ErrorStack>)
    requires
        key@.len() == KEY_SIZE,
        1 <= nonce@.len() <= 0x7fffffff,
        body@.len() <= 0x7fffff00,
        tag@.len() == TAG_SIZE,
    ensures
        r matches Ok(pt) ==> {
            &&& pt@.len() == body@.len()
            &&& body@ + tag@ == aead_ct_of(key@, nonce@, pt@)
            &&& forall|p: Seq<u8>| body@ + tag@ == aead_ct_of(key@, nonce@, p) ==> p == pt@
        },
        r matches Err(_) ==> forall|p: Seq<u8>| body@ + tag@ != aead_ct_of(key@, nonce@, p),
{
    openssl::symm::decrypt_aead(
        openssl::symm::Cipher::aes_256_gcm(),
        key.as_slice(),
        Some(nonce.as_slice()),
        &[],
        body.as_slice(),
        tag.as_slice(),
    )
}

/// Derives the symmetric key for a secret and a salt through the slow salted
/// hash, and erases the secret before returning, on success and failure
/// alike. The same secret and salt always yield the same key.
pub fn derive_key(secret: &mut Vec<u8>, salt: &Vec<u8>) -> (r: Result<Vec<u8>, Error>)
    requires
        old(secret)@.len() <= 0x7fffffff,
        salt@.len() <= 0x7fffffff,
    ensures
        final(secret)@.len() == old(secret)@.len(),
        all_zero(final(secret)@),
        r matches Ok(k) ==> {
            &&& k@.len() == KEY_SIZE
            &&& k@ == derived_key_of(old(secret)@, salt@, PBKDF_ITERS as int, KEY_SIZE as int)
        },
        r matches Err(e) ==> e == Error::Derivation,
{
    let mut key: Vec<u8> = vec![0u8; KEY_SIZE];
    let res = pbkdf2_sha256(secret, salt, PBKDF_ITERS, &mut key);
    wipe(secret);
    match res {
        Ok(_) => Ok(key),
        Err(_) => {
            wipe(&mut key);
            Err(Error::Derivation)
        },
    }
}

/// Salt determinism: deriving twice from the same secret, the same salt and
/// the same parameters yields the same key.
pub proof fn lemma_derivation_deterministic(secret: Seq<u8>, salt: Seq<u8>, k1: Seq<u8>, k2: Seq<u8>)
    requires
        k1 == derived_key_of(secret, salt, PBKDF_ITERS as int, KEY_SIZE as int),
        k2 == derived_key_of(secret, salt, PBKDF_ITERS as int, KEY_SIZE as int),
    ensures
        k1 == k2,
{
}

} // verus!
