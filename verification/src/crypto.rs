use vstd::prelude::*;

use aes_gcm::aead::rand_core::RngCore;
use aes_gcm::aead::Aead;
use aes_gcm::KeyInit;

verus! {

/// Length of an AES-256 key in bytes.
pub const KEY_SIZE: usize = 32;

/// Length of an AES-GCM nonce in bytes.
pub const NONCE_SIZE: usize = 12;

/// Length of the authentication tag that AES-GCM appends to a ciphertext.
pub const TAG_SIZE: usize = 16;

/// The longest plaintext that aes-gcm encrypts, 2^36 bytes.
pub const MAX_PLAINTEXT_LEN: u64 = 68_719_476_736;

/// The longest output that HKDF-SHA256 expands to, 255 blocks of 32 bytes.
pub const MAX_HKDF_LEN: usize = 8160;

/// The output of HKDF-SHA256 with no salt over the bytes of `ikm`, expanded with the
/// bytes of `info` to `len` bytes.
pub uninterp spec fn hkdf_sha256_no_salt(ikm: Seq<char>, info: Seq<char>, len: nat) -> Seq<u8>;

/// The AES-256-GCM ciphertext, tag included, of `plaintext` under `key` and `nonce` with
/// no associated data.
pub uninterp spec fn aes256_gcm_sealed(key: Seq<u8>, nonce: Seq<u8>, plaintext: Seq<u8>) -> Seq<u8>;

/// The plaintext that AES-256-GCM recovers from `ciphertext` under `key` and `nonce`
/// with no associated data, `None` when the tag does not authenticate it.
pub uninterp spec fn aes256_gcm_opened(key: Seq<u8>, nonce: Seq<u8>, ciphertext: Seq<u8>) -> Option<
    Seq<u8>,
>;

/// The views of an optional byte vector.
pub open spec fn opt_bytes(o: Option<Vec<u8>>) -> Option<Seq<u8>> {
    match o {
        Some(v) => Some(v@),
        None => None,
    }
}

/// Calls `hkdf::Hkdf::<sha2::Sha256>::new` with no salt on the bytes of `ikm`, then
/// `expand` with the bytes of `info` into `len` bytes. The output is named
/// `hkdf_sha256_no_salt` and has `len` bytes; `expand` fails only beyond 255 hash blocks,
/// which `requires` leaves out.
#[verifier::external_body]
pub(crate) fn hkdf_sha256(ikm: &str, info: &str, len: usize) -> (okm: Vec<u8>)
    requires
        len <= MAX_HKDF_LEN,
    ensures
        okm@ == hkdf_sha256_no_salt(ikm@, info@, len as nat),
        okm@.len() == len,
{
    let hk = hkdf::Hkdf::<sha2::Sha256>::new(None, ikm.as_bytes());
    let mut okm = vec![0u8; len];
    hk.expand(info.as_bytes(), &mut okm).unwrap();
    okm
}

/// Calls `encrypt` of `aes_gcm::Aes256Gcm` built from `key`, with `nonce` and no associated
/// data. The ciphertext is named `aes256_gcm_sealed` and is the plaintext's length plus the
/// tag; encryption fails only for a plaintext longer than 2^36 bytes, which `requires` leaves
/// out, as it does keys and nonces of another length, on which the conversions panic.
#[verifier::external_body]
pub(crate) fn aes256_gcm_seal(key: &[u8], nonce: &[u8], plaintext: &[u8]) -> (ciphertext: Vec<u8>)
    requires
        key@.len() == KEY_SIZE,
        nonce@.len() == NONCE_SIZE,
        plaintext@.len() <= MAX_PLAINTEXT_LEN,
    ensures
        ciphertext@ == aes256_gcm_sealed(key@, nonce@, plaintext@),
        ciphertext@.len() == plaintext@.len() + TAG_SIZE,
{
    let cipher = aes_gcm::Aes256Gcm::new(aes_gcm::aead::generic_array::GenericArray::from_slice(key));
    cipher.encrypt(aes_gcm::Nonce::from_slice(nonce), plaintext).unwrap()
}

/// Calls `decrypt` of `aes_gcm::Aes256Gcm` built from `key`, with `nonce` and no associated
/// data; `None` where it reports an error. The result is named `aes256_gcm_opened`; as for
/// any AEAD, a ciphertext that `encrypt` produced under the same key and nonce decrypts to
/// its plaintext. Keys and nonces of another length, on which the conversions panic, are
/// left out.
#[verifier::external_body]
pub(crate) fn aes256_gcm_open(key: &[u8], nonce: &[u8], ciphertext: &[u8]) -> (plaintext: Option<Vec<u8>>)
    requires
        key@.len() == KEY_SIZE,
        nonce@.len() == NONCE_SIZE,
    ensures
        opt_bytes(plaintext) == aes256_gcm_opened(key@, nonce@, ciphertext@),
        forall|p: Seq<u8>|
            p.len() <= MAX_PLAINTEXT_LEN && ciphertext@ == #[trigger] aes256_gcm_sealed(
                key@,
                nonce@,
                p,
            ) ==> opt_bytes(plaintext) == Some(p),
{
    let cipher = aes_gcm::Aes256Gcm::new(aes_gcm::aead::generic_array::GenericArray::from_slice(key));
    cipher.decrypt(aes_gcm::Nonce::from_slice(nonce), ciphertext).ok()
}

/// Calls `fill_bytes` of `aes_gcm::aead::OsRng` on `len` bytes. The bytes are random;
/// only their number is known. The call panics only when the operating system's random
/// source fails, which no input decides.
#[verifier::external_body]
pub(crate) fn random_bytes(len: usize) -> (bytes: Vec<u8>)
    ensures
        bytes@.len() == len,
{
    let mut bytes = vec![0u8; len];
    aes_gcm::aead::OsRng.fill_bytes(&mut bytes);
    bytes
}

} // verus!
