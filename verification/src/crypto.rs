//! Trusted boundary to the cryptographic primitives: the ChaCha20-Poly1305
//! AEAD, X25519 key agreement, SHA-256, scrypt and the system's randomness.
//! Every function here is believed, not proved; each doc comment names the
//! outside function relied on.

use vstd::prelude::*;

verus! {

/// The ChaCha20 keystream transform: XOR of the data with the keystream of
/// `(key, nonce)`. Applying it to a plaintext yields the ciphertext and
/// applying it to that ciphertext yields the plaintext again.
pub uninterp spec fn chacha_xor(key: Seq<u8>, nonce: Seq<u8>, data: Seq<u8>) -> Seq<u8>;

/// The Poly1305 authentication tag that ChaCha20-Poly1305 (with empty
/// associated data) computes over a ciphertext under `(key, nonce)`.
pub uninterp spec fn chacha_tag(key: Seq<u8>, nonce: Seq<u8>, ciphertext: Seq<u8>) -> Seq<u8>;

/// AEAD-encrypt `plain` under `(key, nonce)` with empty associated data.
/// Returns the ciphertext and the 16-byte tag.
///
/// Relies on chacha20_poly1305_aead::encrypt: the ciphertext is the input
/// XORed with the ChaCha20 keystream (so the transform is its own inverse
/// and keeps the length), and the tag is Poly1305 over the ciphertext.
/// Writing to a Vec cannot fail; key and nonce lengths are asserted by the
/// crate, and the counter limit is far above any input this store handles.
#[verifier::external_body]
pub fn aead_encrypt(key: &[u8], nonce: &[u8], plain: &[u8]) -> (r: (Vec<u8>, Vec<u8>))
    requires
        key@.len() == 32,
        nonce@.len() == 12,
        plain@.len() < 0x3f_ffff_ffc0,
    ensures
        r.0@ == chacha_xor(key@, nonce@, plain@),
        r.0@.len() == plain@.len(),
        chacha_xor(key@, nonce@, r.0@) == plain@,
        r.1@ == chacha_tag(key@, nonce@, r.0@),
        r.1@.len() == 16,
{
    let mut ciphertext: Vec<u8> = Vec::with_capacity(plain.len());
    let tag = chacha20_poly1305_aead::encrypt(key, nonce, &[], plain, &mut ciphertext).unwrap();
    (ciphertext, tag.to_vec())
}

/// Verify the tag and decrypt `ciphertext` under `(key, nonce)` with empty
/// associated data. `None` exactly when the tag does not match.
///
/// Relies on chacha20_poly1305_aead::decrypt: it recomputes the Poly1305
/// tag over the given ciphertext and compares it with `tag`; on a match it
/// writes the ciphertext XORed with the ChaCha20 keystream.
#[verifier::external_body]
pub fn aead_decrypt(key: &[u8], nonce: &[u8], ciphertext: &[u8], tag: &[u8]) -> (r: Option<
    Vec<u8>,
>)
    requires
        key@.len() == 32,
        nonce@.len() == 12,
        tag@.len() == 16,
        ciphertext@.len() < 0x3f_ffff_ffc0,
    ensures
        r is Some <==> tag@ == chacha_tag(key@, nonce@, ciphertext@),
        r is Some ==> r.unwrap()@ == chacha_xor(key@, nonce@, ciphertext@),
        r is Some ==> r.unwrap()@.len() == ciphertext@.len(),
{
    let mut plain: Vec<u8> = Vec::with_capacity(ciphertext.len());
    match chacha20_poly1305_aead::decrypt(key, nonce, &[], ciphertext, tag, &mut plain) {
        Ok(()) => Some(plain),
        Err(_) => None,
    }
}

/// The X25519 shared secret computed from a (clamped) scalar and a curve
/// point, both as 32-byte strings.
pub uninterp spec fn x25519_shared(scalar: Seq<u8>, point: Seq<u8>) -> Seq<u8>;

/// The X25519 public key (curve point) belonging to a (clamped) scalar.
pub uninterp spec fn x25519_public(scalar: Seq<u8>) -> Seq<u8>;

/// Generate a fresh X25519 key pair `(public, private)` from the system's
/// randomness. Nothing can be said of the values beyond their relation.
///
/// Relies on x25519_dalek::StaticSecret::new and PublicKey::from: the
/// returned private bytes are a clamped scalar and the public bytes are its
/// curve point; clamping is idempotent, so rebuilding a StaticSecret from
/// these bytes yields the same key.
#[verifier::external_body]
pub fn x25519_generate() -> (r: (Vec<u8>, Vec<u8>))
    ensures
        r.0@ == x25519_public(r.1@),
        r.0@.len() == 32,
        r.1@.len() == 32,
{
    let secret = x25519_dalek::StaticSecret::new(&mut rand::thread_rng());
    let public = x25519_dalek::PublicKey::from(&secret);
    (public.as_bytes().to_vec(), secret.to_bytes().to_vec())
}

/// Diffie-Hellman: combine our scalar with their curve point.
///
/// Relies on x25519_dalek::StaticSecret::diffie_hellman, which multiplies
/// the clamped scalar with the point. The crate documents the agreement
/// property: when `point` is the public key of some scalar `other`, both
/// sides compute the same shared secret.
#[verifier::external_body]
pub fn x25519_dh(scalar: &[u8], point: &[u8]) -> (r: Vec<u8>)
    requires
        scalar@.len() == 32,
        point@.len() == 32,
    ensures
        r@ == x25519_shared(scalar@, point@),
        r@.len() == 32,
        forall|other: Seq<u8>| point@ == x25519_public(other) ==> r@ == x25519_shared(
            other,
            x25519_public(scalar@),
        ),
{
    let mut scalar_raw = [0u8; 32];
    scalar_raw.copy_from_slice(scalar);
    let mut point_raw = [0u8; 32];
    point_raw.copy_from_slice(point);
    let secret = x25519_dalek::StaticSecret::from(scalar_raw);
    let public = x25519_dalek::PublicKey::from(point_raw);
    secret.diffie_hellman(&public).as_bytes().to_vec()
}

/// The SHA-256 digest of a byte string.
pub uninterp spec fn sha256_of(data: Seq<u8>) -> Seq<u8>;

/// Compute the SHA-256 digest of `data`.
///
/// Relies on openssl::sha::sha256: a 32-byte digest that depends on the
/// input bytes alone.
#[verifier::external_body]
pub fn sha256(data: &[u8]) -> (r: Vec<u8>)
    ensures
        r@ == sha256_of(data@),
        r@.len() == 32,
{
    openssl::sha::sha256(data).to_vec()
}

/// The 32-byte key that the memory-hard scrypt KDF (block size 8,
/// parallelism 1) derives from a passphrase, a salt and the cost parameter
/// `cost` (scrypt's N).
pub uninterp spec fn kdf_of(passphrase: Seq<u8>, salt: Seq<u8>, cost: u64) -> Seq<u8>;

/// Derive a 32-byte seal key from a passphrase and salt with the
/// memory-hard scrypt KDF at cost parameter `cost`. `None` when the
/// library underneath rejects the parameters (a cost that is not a power
/// of two above one, or a memory demand beyond the fixed cap) or reports
/// an internal error.
///
/// Relies on openssl::pkcs5::scrypt with block size 8, parallelism 1 and a
/// 64 MiB memory cap: the derived key depends on the passphrase, salt and
/// cost alone; invalid parameters surface as `Err`, never a panic (the one
/// conversion in the crate is of the memory cap, which fits).
#[verifier::external_body]
pub fn derive_seal_key(passphrase: &[u8], salt: &[u8], cost: u64) -> (r: Option<Vec<u8>>)
    ensures
        r is Some ==> r.unwrap()@ == kdf_of(passphrase@, salt@, cost),
        r is Some ==> r.unwrap()@.len() == 32,
{
    let mut key = [0u8; 32];
    match openssl::pkcs5::scrypt(passphrase, salt, cost, 8, 1, 64 * 1024 * 1024, &mut key) {
        Ok(()) => Some(key.to_vec()),
        Err(_) => None,
    }
}

/// Fill a fresh vector with `n` random bytes. Nothing can be promised of
/// the values.
///
/// Relies on rand::thread_rng and RngCore::fill_bytes.
#[verifier::external_body]
pub fn random_bytes(n: usize) -> (r: Vec<u8>)
    ensures
        r@.len() == n,
{
    let mut buf = vec![0u8; n];
    rand::RngCore::fill_bytes(&mut rand::thread_rng(), &mut buf);
    buf
}

/// The current wall-clock time in milliseconds since the Unix epoch,
/// signed. Nothing can be promised of a clock reading.
///
/// Relies on chrono::Utc::now.
#[verifier::external_body]
fn now_timestamp_millis() -> (r: i64) {
    chrono::Utc::now().timestamp_millis()
}

/// The current wall-clock time in milliseconds since the Unix epoch,
/// clamped to zero for times before it.
pub fn now_millis() -> (r: u64) {
    let millis = now_timestamp_millis();
    if millis < 0 {
        0
    } else {
        millis as u64
    }
}

} // verus!
