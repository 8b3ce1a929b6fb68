//! The envelope encryption primitive: a fresh seal key encrypts the payload
//! under ChaCha20-Poly1305, and that seal key is wrapped for each recipient
//! with an ephemeral X25519 key agreement.

use vstd::prelude::*;

use crate::block::{Block, BlockHeader, BlockHeaderView, Recipient, RecipientView,
    CIPHER_X25519_CHACHA20_POLY1305};
use crate::crypto::{aead_decrypt, aead_encrypt, chacha_tag, chacha_xor, random_bytes, x25519_dh,
    x25519_generate, x25519_public, x25519_shared};
use crate::error::SecretStoreError;
use vstd::utf8::encode_utf8;
use crate::memguard::{wipe_bytes, SecretBytes};
use crate::util::{bytes_eq, xor_seq, xorbytes, lemma_xor_seq_comm, lemma_xor_seq_involution};
use vstd::slice::{slice_subrange, slice_to_vec};

verus! {

/// A recipient's public key, 32 bytes.
pub type PublicKey = Vec<u8>;

/// A private key held in secret memory.
pub type PrivateKey = SecretBytes;

/// The one-time symmetric seal key, held in secret memory when long-lived.
pub type SealKey = SecretBytes;

/// Data that may leave the process (ciphertext, public keys).
pub type PublicData = Vec<u8>;

/// Decrypted data, held in secret memory.
pub type PrivateData = SecretBytes;

/// The AEAD appends a 16-byte tag to every ciphertext.
pub const TAG_LENGTH: usize = 16;

/// `sealed` is the AEAD encryption of `private_key` under `(seal_key,
/// nonce)`: the keystream transform of the key followed by the tag over it.
pub open spec fn is_sealed_private_key(
    seal_key: Seq<u8>,
    nonce: Seq<u8>,
    private_key: Seq<u8>,
    sealed: Seq<u8>,
) -> bool {
    &&& sealed.len() == private_key.len() + 16
    &&& sealed.take(private_key.len() as int) == chacha_xor(seal_key, nonce, private_key)
    &&& chacha_xor(seal_key, nonce, sealed.take(private_key.len() as int)) == private_key
    &&& sealed.skip(private_key.len() as int) == chacha_tag(
        seal_key,
        nonce,
        sealed.take(private_key.len() as int),
    )
}

/// `wrapped` carries the seal key for the holder of the private key behind
/// `public_key`: an ephemeral public key followed by the seal key XORed
/// with the ephemeral shared secret.
pub open spec fn is_wrapped_seal_key(seal: Seq<u8>, public_key: Seq<u8>, wrapped: Seq<u8>) -> bool {
    &&& wrapped.len() == 64
    &&& exists|eph: Seq<u8>|
        {
            &&& wrapped.take(32) == #[trigger] x25519_public(eph)
            &&& x25519_shared(eph, public_key).len() == 32
            &&& wrapped.skip(32) == xor_seq(seal, x25519_shared(eph, public_key))
        }
}

/// `(header, ciphertext)` is an envelope encryption of `plain` for the
/// given `(id, public_key)` recipients under the seal key `seal`.
pub open spec fn is_envelope_encryption_with(
    seal: Seq<u8>,
    header: BlockHeaderView,
    ciphertext: Seq<u8>,
    recipients: Seq<(Seq<u8>, Seq<u8>)>,
    plain: Seq<u8>,
) -> bool {
    &&& seal.len() == 32
    &&& header.block_type == CIPHER_X25519_CHACHA20_POLY1305
    &&& header.common_key.len() == 12
    &&& ciphertext.len() == plain.len() + 16
    &&& ciphertext.take(plain.len() as int) == chacha_xor(seal, header.common_key, plain)
    &&& chacha_xor(seal, header.common_key, ciphertext.take(plain.len() as int)) == plain
    &&& ciphertext.skip(plain.len() as int) == chacha_tag(
        seal,
        header.common_key,
        ciphertext.take(plain.len() as int),
    )
    &&& header.recipients.len() == recipients.len()
    &&& forall|j: int|
        0 <= j < recipients.len() ==> (#[trigger] header.recipients[j]).id == recipients[j].0
            && is_wrapped_seal_key(seal, recipients[j].1, header.recipients[j].crypted_key)
}

/// `(header, ciphertext)` is an envelope encryption of `plain` for the
/// given recipients, under some seal key.
pub open spec fn is_envelope_encryption(
    header: BlockHeaderView,
    ciphertext: Seq<u8>,
    recipients: Seq<(Seq<u8>, Seq<u8>)>,
    plain: Seq<u8>,
) -> bool {
    exists|seal: Seq<u8>|
        #[trigger] is_envelope_encryption_with(seal, header, ciphertext, recipients, plain)
}

/// The `(id bytes, public key bytes)` pairs of a recipient list.
pub open spec fn recipient_pairs(rs: Seq<(String, Vec<u8>)>) -> Seq<(Seq<u8>, Seq<u8>)> {
    Seq::new(rs.len(), |i: int| (encode_utf8(rs[i].0@), rs[i].1@))
}

/// The seal key a recipient entry yields for the holder of `private_key`.
pub open spec fn recipient_seal(private_key: Seq<u8>, rec: RecipientView) -> Seq<u8> {
    xor_seq(x25519_shared(private_key, rec.crypted_key.take(32)), rec.crypted_key.skip(32))
}

/// The envelope cipher: X25519 key wrapping around ChaCha20-Poly1305.
pub struct RustX25519ChaCha20Poly1305Cipher;

impl RustX25519ChaCha20Poly1305Cipher {
    /// Generate a fresh key pair; the private key lives in secret memory.
    pub fn generate_key_pair() -> (r: Result<(PublicKey, PrivateKey), SecretStoreError>)
        ensures
            r is Ok,
            r matches Ok(kp) ==> kp.0@ == x25519_public(kp.1@) && kp.0@.len() == 32 && kp.1@.len()
                == 32,
    {
        let (public, mut private) = x25519_generate();
        let private_key = SecretBytes::from_mut(&mut private);
        Ok((public, private_key))
    }

    /// The seal key length in bytes.
    pub fn seal_key_length() -> (r: usize)
        ensures
            r == 32,
    {
        32
    }

    /// The smallest accepted nonce length in bytes.
    pub fn seal_min_nonce_length() -> (r: usize)
        ensures
            r == 12,
    {
        12
    }

    /// AEAD-encrypt a private key under a seal key, appending the tag.
    pub fn seal_private_key(seal_key: &SealKey, nonce: &[u8], private_key: &PrivateKey) -> (r:
        Result<PublicData, SecretStoreError>)
        requires
            seal_key@.len() == 32,
            nonce@.len() == 12,
            private_key@.len() < 0x3f_ffff_ffc0,
        ensures
            r is Ok,
            r matches Ok(sealed) ==> is_sealed_private_key(
                seal_key@,
                nonce@,
                private_key@,
                sealed@,
            ),
    {
        let (mut sealed, mut tag) = aead_encrypt(seal_key.borrow(), nonce, private_key.borrow());
        sealed.append(&mut tag);
        proof {
            assert(sealed@.take(private_key@.len() as int) =~= chacha_xor(
                seal_key@,
                nonce@,
                private_key@,
            ));
            assert(sealed@.skip(private_key@.len() as int) =~= chacha_tag(
                seal_key@,
                nonce@,
                sealed@.take(private_key@.len() as int),
            ));
        }
        Ok(sealed)
    }

    /// Verify and decrypt a sealed private key. Succeeds exactly when the
    /// trailing tag matches; in particular it recovers every key sealed by
    /// `seal_private_key` under the same seal key and nonce.
    pub fn open_private_key(seal_key: &SealKey, nonce: &[u8], crypted_key: &[u8]) -> (r: Result<
        PrivateKey,
        SecretStoreError,
    >)
        requires
            seal_key@.len() == 32,
            nonce@.len() == 12,
            crypted_key@.len() < 0x3f_ffff_ffc0,
        ensures
            crypted_key@.len() < 16 ==> (r matches Err(SecretStoreError::Cipher(m)) && m@
                == "Data too short"@),
            r is Err ==> r->Err_0 is Cipher,
            crypted_key@.len() >= 16 ==> (r is Ok <==> crypted_key@.skip(
                crypted_key@.len() - 16,
            ) == chacha_tag(seal_key@, nonce@, crypted_key@.take(crypted_key@.len() - 16))),
            crypted_key@.len() >= 16 && r is Ok ==> r->Ok_0@.len() == crypted_key@.len() - 16
                && r->Ok_0@ == chacha_xor(
                seal_key@,
                nonce@,
                crypted_key@.take(crypted_key@.len() - 16),
            ),
            forall|k: Seq<u8>|
                is_sealed_private_key(seal_key@, nonce@, k, crypted_key@) ==> r is Ok && r->Ok_0@
                    == k,
    {
        if crypted_key.len() < TAG_LENGTH {
            assert forall|k: Seq<u8>|
                is_sealed_private_key(seal_key@, nonce@, k, crypted_key@) implies false by {
                assert(crypted_key@.len() >= 16);
            }
            return Err(SecretStoreError::Cipher(String::from_str("Data too short")));
        }
        let tag_offset = crypted_key.len() - TAG_LENGTH;
        let body = slice_subrange(crypted_key, 0, tag_offset);
        let tag = slice_subrange(crypted_key, tag_offset, crypted_key.len());
        match aead_decrypt(seal_key.borrow(), nonce, body, tag) {
            Some(mut plain) => {
                let result = SecretBytes::from_mut(&mut plain);
                proof {
                    assert forall|k: Seq<u8>|
                        is_sealed_private_key(seal_key@, nonce@, k, crypted_key@) implies result@
                        == k by {
                        assert(crypted_key@.take(tag_offset as int) == chacha_xor(
                            seal_key@,
                            nonce@,
                            k,
                        ));
                        assert(chacha_xor(seal_key@, nonce@, crypted_key@.take(tag_offset as int))
                            == k);
                    }
                }
                Ok(result)
            },
            None => {
                proof {
                    assert forall|k: Seq<u8>|
                        is_sealed_private_key(seal_key@, nonce@, k, crypted_key@) implies false by {
                        assert(crypted_key@.take(tag_offset as int) == chacha_xor(
                            seal_key@,
                            nonce@,
                            k,
                        ));
                        assert(crypted_key@.skip(tag_offset as int) == chacha_tag(
                            seal_key@,
                            nonce@,
                            crypted_key@.take(tag_offset as int),
                        ));
                    }
                }
                Err(SecretStoreError::Cipher(String::from_str("Decrypt error")))
            },
        }
    }

    /// Envelope-encrypt `data` for every recipient: draw a fresh seal key
    /// and nonce, encrypt the payload, and wrap the seal key for each
    /// recipient under an ephemeral key agreement.
    pub fn encrypt(recipients: &Vec<(String, PublicKey)>, data: &PrivateData) -> (r: Result<
        Block,
        SecretStoreError,
    >)
        requires
            forall|j: int| 0 <= j < recipients@.len() ==> (#[trigger] recipients@[j]).1@.len()
                == 32,
            data@.len() < 0x3f_ffff_ffc0,
        ensures
            r is Ok,
            r matches Ok(b) ==> is_envelope_encryption(
                b.header@,
                b.ciphertext@,
                recipient_pairs(recipients@),
                data@,
            ),
            r matches Ok(b) ==> b.header@.block_type == CIPHER_X25519_CHACHA20_POLY1305
                && b.header@.common_key.len() == 12 && b.ciphertext@.len() == data@.len() + 16
                && b.header@.recipients.len() == recipients@.len(),
            r matches Ok(b) ==> forall|j: int|
                0 <= j < recipients@.len() ==> (#[trigger] b.header@.recipients[j]).id
                    == encode_utf8(recipients@[j].0@),
    {
        let mut seal = random_bytes(32);
        let ghost seal0 = seal@;
        let nonce = random_bytes(12);
        let (mut ciphertext, mut tag) = aead_encrypt(seal.as_slice(), nonce.as_slice(),
            data.borrow());
        ciphertext.append(&mut tag);
        proof {
            assert(ciphertext@.take(data@.len() as int) =~= chacha_xor(seal0, nonce@, data@));
            assert(ciphertext@.skip(data@.len() as int) =~= chacha_tag(
                seal0,
                nonce@,
                ciphertext@.take(data@.len() as int),
            ));
        }
        let mut recs: Vec<Recipient> = Vec::new();
        let mut i: usize = 0;
        while i < recipients.len()
            invariant
                i <= recipients@.len(),
                seal@ == seal0,
                seal0.len() == 32,
                forall|j: int| 0 <= j < recipients@.len() ==> (#[trigger] recipients@[j]).1@.len()
                    == 32,
                recs@.len() == i,
                forall|j: int|
                    0 <= j < i ==> (#[trigger] recs@[j])@.id == encode_utf8(recipients@[j].0@)
                        && is_wrapped_seal_key(seal0, recipients@[j].1@, recs@[j]@.crypted_key),
            decreases recipients@.len() - i,
        {
            let (epub, mut epriv) = x25519_generate();
            let ghost eph = epriv@;
            let shared = x25519_dh(epriv.as_slice(), recipients[i].1.as_slice());
            wipe_bytes(&mut epriv);
            let mut wrapped = epub;
            let mut wrapped_tail = xorbytes(seal.as_slice(), shared.as_slice());
            wrapped.append(&mut wrapped_tail);
            let id_bytes = slice_to_vec(recipients[i].0.as_str().as_bytes());
            let rec = Recipient { id: id_bytes, crypted_key: wrapped };
            proof {
                assert(rec@.crypted_key.take(32) =~= x25519_public(eph));
                assert(rec@.crypted_key.skip(32) =~= xor_seq(
                    seal0,
                    x25519_shared(eph, recipients@[i as int].1@),
                ));
                assert(is_wrapped_seal_key(seal0, recipients@[i as int].1@, rec@.crypted_key));
            }
            recs.push(rec);
            i = i + 1;
        }
        wipe_bytes(&mut seal);
        let header = BlockHeader {
            block_type: CIPHER_X25519_CHACHA20_POLY1305,
            common_key: nonce,
            recipients: recs,
        };
        let result = Block { header, ciphertext };
        proof {
            assert(is_envelope_encryption_with(
                seal0,
                result.header@,
                result.ciphertext@,
                recipient_pairs(recipients@),
                data@,
            ));
        }
        Ok(result)
    }

    /// Decrypt an envelope-encrypted payload as the recipient `user_id`.
    /// Fails with `NoRecipient` when `user_id` is not named in the header;
    /// otherwise succeeds exactly when the tag verifies under the seal key
    /// unwrapped from the first entry for `user_id`. In particular it
    /// recovers the plaintext of every envelope encryption that names
    /// `user_id` (first, among its entries) with the public key belonging
    /// to `private_key`.
    pub fn decrypt(user_id: &str, private_key: &PrivateKey, header: &BlockHeader, crypted: &[u8])
        -> (r: Result<PrivateData, SecretStoreError>)
        requires
            private_key@.len() == 32,
            crypted@.len() < 0x3f_ffff_ffc0,
        ensures
            crypted@.len() < 16 ==> (r matches Err(SecretStoreError::Cipher(m)) && m@
                == "Data too short"@),
            crypted@.len() >= 16 && header@.common_key.len() != 12 ==> (r matches Err(
                SecretStoreError::Cipher(m),
            ) && m@ == "Invalid nonce"@),
            r is Err ==> (r->Err_0 is Cipher || r->Err_0 is NoRecipient),
            crypted@.len() >= 16 && header@.common_key.len() == 12 && (forall|i: int|
                0 <= i < header@.recipients.len() ==> (#[trigger] header@.recipients[i]).id
                    != encode_utf8(user_id@)) ==> r matches Err(SecretStoreError::NoRecipient),
            forall|i0: int|
                {
                    &&& crypted@.len() >= 16
                    &&& header@.common_key.len() == 12
                    &&& 0 <= i0 < header@.recipients.len()
                    &&& (#[trigger] header@.recipients[i0]).id == encode_utf8(user_id@)
                    &&& (forall|i2: int|
                        0 <= i2 < i0 ==> (#[trigger] header@.recipients[i2]).id
                            != encode_utf8(user_id@))
                } ==> {
                    &&& (header@.recipients[i0].crypted_key.len() != 64 ==> (r matches Err(
                        SecretStoreError::Cipher(m),
                    ) && m@ == "Invalid crypted key"@))
                    &&& header@.recipients[i0].crypted_key.len() == 64 ==> {
                        &&& (r is Ok <==> crypted@.skip(crypted@.len() - 16) == chacha_tag(
                            recipient_seal(private_key@, header@.recipients[i0]),
                            header@.common_key,
                            crypted@.take(crypted@.len() - 16),
                        ))
                        &&& (r is Ok ==> r->Ok_0@ == chacha_xor(
                            recipient_seal(private_key@, header@.recipients[i0]),
                            header@.common_key,
                            crypted@.take(crypted@.len() - 16),
                        ))
                        &&& (r is Err ==> r->Err_0 is Cipher)
                    }
                },
            forall|recips: Seq<(Seq<u8>, Seq<u8>)>, plain: Seq<u8>, j: int|
                #![trigger is_envelope_encryption(header@, crypted@, recips, plain), recips[j]]
                {
                    &&& is_envelope_encryption(header@, crypted@, recips, plain)
                    &&& 0 <= j < recips.len()
                    &&& recips[j].0 == encode_utf8(user_id@)
                    &&& (forall|j2: int| 0 <= j2 < j ==> (#[trigger] recips[j2]).0 != recips[j].0)
                    &&& recips[j].1 == x25519_public(private_key@)
                } ==> r is Ok && r->Ok_0@ == plain,
    {
        if crypted.len() < TAG_LENGTH {
            proof {
                lemma_decrypt_envelope_shape(header@, crypted@);
            }
            return Err(SecretStoreError::Cipher(String::from_str("Data too short")));
        }
        if header.common_key.len() != 12 {
            proof {
                lemma_decrypt_envelope_shape(header@, crypted@);
            }
            return Err(SecretStoreError::Cipher(String::from_str("Invalid nonce")));
        }
        let user_bytes = user_id.as_bytes();
        let n = header.recipients.len();
        let mut i: usize = 0;
        while i < n
            invariant
                n == header@.recipients.len(),
                i <= n,
                user_bytes@ == encode_utf8(user_id@),
                private_key@.len() == 32,
                crypted@.len() >= 16,
                crypted@.len() < 0x3f_ffff_ffc0,
                header@.common_key.len() == 12,
                forall|i2: int| 0 <= i2 < i ==> (#[trigger] header@.recipients[i2]).id
                    != encode_utf8(user_id@),
            decreases n - i,
        {
            if bytes_eq(header.recipients[i].id.as_slice(), user_bytes) {
                proof {
                    assert(header@.recipients[i as int].id == encode_utf8(user_id@));
                }
                if header.recipients[i].crypted_key.len() != 64 {
                    proof {
                        lemma_decrypt_envelope_key_shape(header@, crypted@, i as int);
                    }
                    return Err(SecretStoreError::Cipher(String::from_str("Invalid crypted key")));
                }
                let ck = header.recipients[i].crypted_key.as_slice();
                let epub = slice_subrange(ck, 0, 32);
                let wrapped = slice_subrange(ck, 32, 64);
                let shared = x25519_dh(private_key.borrow(), epub);
                let mut seal = xorbytes(shared.as_slice(), wrapped);
                let ghost rec = header@.recipients[i as int];
                proof {
                    lemma_xor_seq_comm(x25519_shared(private_key@, rec.crypted_key.take(32)),
                        rec.crypted_key.skip(32));
                    assert(epub@ =~= rec.crypted_key.take(32));
                    assert(wrapped@ =~= rec.crypted_key.skip(32));
                    assert(seal@ == recipient_seal(private_key@, rec)) by {
                        assert(seal@ =~= xor_seq(
                            x25519_shared(private_key@, rec.crypted_key.take(32)),
                            rec.crypted_key.skip(32),
                        ));
                    }
                }
                let tag_offset = crypted.len() - TAG_LENGTH;
                let body = slice_subrange(crypted, 0, tag_offset);
                let tag = slice_subrange(crypted, tag_offset, crypted.len());
                proof {
                    assert(body@ =~= crypted@.take(crypted@.len() - 16));
                    assert(tag@ =~= crypted@.skip(crypted@.len() - 16));
                }
                let outcome = aead_decrypt(seal.as_slice(), header.common_key.as_slice(), body,
                    tag);
                wipe_bytes(&mut seal);
                proof {
                    lemma_decrypt_envelope_success(header@, crypted@, private_key@, user_id@,
                        i as int);
                }
                match outcome {
                    Some(mut plain) => {
                        return Ok(SecretBytes::from_mut(&mut plain));
                    },
                    None => {
                        return Err(SecretStoreError::Cipher(String::from_str("Decrypt error")));
                    },
                }
            }
            i = i + 1;
        }
        proof {
            lemma_decrypt_envelope_no_recipient(header@, crypted@, user_id@);
        }
        Err(SecretStoreError::NoRecipient)
    }
}

/// An envelope encryption always has a 12-byte nonce and a payload of at
/// least the tag length.
proof fn lemma_decrypt_envelope_shape(header: BlockHeaderView, crypted: Seq<u8>)
    ensures
        forall|recips: Seq<(Seq<u8>, Seq<u8>)>, plain: Seq<u8>|
            #[trigger] is_envelope_encryption(header, crypted, recips, plain) ==> crypted.len()
                >= 16 && header.common_key.len() == 12,
{
}

/// In an envelope encryption every recipient entry has a 64-byte wrapped
/// key.
proof fn lemma_decrypt_envelope_key_shape(header: BlockHeaderView, crypted: Seq<u8>, i0: int)
    requires
        0 <= i0 < header.recipients.len(),
    ensures
        forall|recips: Seq<(Seq<u8>, Seq<u8>)>, plain: Seq<u8>|
            #[trigger] is_envelope_encryption(header, crypted, recips, plain)
                ==> header.recipients[i0].crypted_key.len() == 64,
{
    assert forall|recips: Seq<(Seq<u8>, Seq<u8>)>, plain: Seq<u8>|
        #[trigger] is_envelope_encryption(header, crypted, recips, plain)
            implies header.recipients[i0].crypted_key.len() == 64 by {
        let seal = choose|seal: Seq<u8>|
            is_envelope_encryption_with(seal, header, crypted, recips, plain);
        assert(is_wrapped_seal_key(seal, recips[i0].1, header.recipients[i0].crypted_key));
    }
}

/// If the header names no recipient with the user's id, no envelope
/// encryption for that id (with any key) exists.
proof fn lemma_decrypt_envelope_no_recipient(header: BlockHeaderView, crypted: Seq<u8>, user: Seq<
    char,
>)
    requires
        forall|i: int| 0 <= i < header.recipients.len() ==> (#[trigger] header.recipients[i]).id
            != encode_utf8(user),
    ensures
        forall|recips: Seq<(Seq<u8>, Seq<u8>)>, plain: Seq<u8>, j: int|
            #![trigger is_envelope_encryption(header, crypted, recips, plain), recips[j]]
            is_envelope_encryption(header, crypted, recips, plain) && 0 <= j < recips.len()
                ==> recips[j].0 != encode_utf8(user),
{
    assert forall|recips: Seq<(Seq<u8>, Seq<u8>)>, plain: Seq<u8>, j: int|
        #![trigger is_envelope_encryption(header, crypted, recips, plain), recips[j]]
        is_envelope_encryption(header, crypted, recips, plain) && 0 <= j < recips.len()
            implies recips[j].0 != encode_utf8(user) by {
        let seal = choose|seal: Seq<u8>|
            is_envelope_encryption_with(seal, header, crypted, recips, plain);
        assert(header.recipients[j].id == recips[j].0);
    }
}

/// At the first recipient entry matching the user's id, the seal key
/// recovered with the user's private key equals the seal key of any
/// envelope encryption made for `(id, x25519_public(private_key))` at the
/// first index with that id.
#[verifier::rlimit(100)]
proof fn lemma_decrypt_envelope_success(
    header: BlockHeaderView,
    crypted: Seq<u8>,
    private_key: Seq<u8>,
    user: Seq<char>,
    i0: int,
)
    requires
        0 <= i0 < header.recipients.len(),
        header.recipients[i0].id == encode_utf8(user),
        forall|i2: int| 0 <= i2 < i0 ==> (#[trigger] header.recipients[i2]).id
            != encode_utf8(user),
        forall|other: Seq<u8>|
            header.recipients[i0].crypted_key.len() == 64 && header.recipients[i0].crypted_key.take(
                32,
            ) == x25519_public(other) ==> x25519_shared(
                private_key,
                header.recipients[i0].crypted_key.take(32),
            ) == x25519_shared(other, x25519_public(private_key)),
    ensures
        forall|recips: Seq<(Seq<u8>, Seq<u8>)>, plain: Seq<u8>, j: int|
            #![trigger is_envelope_encryption(header, crypted, recips, plain), recips[j]]
            {
                &&& is_envelope_encryption(header, crypted, recips, plain)
                &&& 0 <= j < recips.len()
                &&& recips[j].0 == encode_utf8(user)
                &&& (forall|j2: int| 0 <= j2 < j ==> (#[trigger] recips[j2]).0 != recips[j].0)
                &&& recips[j].1 == x25519_public(private_key)
            } ==> crypted.skip(crypted.len() - 16) == chacha_tag(
                recipient_seal(private_key, header.recipients[i0]),
                header.common_key,
                crypted.take(crypted.len() - 16),
            ) && chacha_xor(
                recipient_seal(private_key, header.recipients[i0]),
                header.common_key,
                crypted.take(crypted.len() - 16),
            ) == plain,
{
    assert forall|recips: Seq<(Seq<u8>, Seq<u8>)>, plain: Seq<u8>, j: int|
        #![trigger is_envelope_encryption(header, crypted, recips, plain), recips[j]]
        {
            &&& is_envelope_encryption(header, crypted, recips, plain)
            &&& 0 <= j < recips.len()
            &&& recips[j].0 == encode_utf8(user)
            &&& (forall|j2: int| 0 <= j2 < j ==> (#[trigger] recips[j2]).0 != recips[j].0)
            &&& recips[j].1 == x25519_public(private_key)
        } implies crypted.skip(crypted.len() - 16) == chacha_tag(
        recipient_seal(private_key, header.recipients[i0]),
        header.common_key,
        crypted.take(crypted.len() - 16),
    ) && chacha_xor(
        recipient_seal(private_key, header.recipients[i0]),
        header.common_key,
        crypted.take(crypted.len() - 16),
    ) == plain by {
        let seal = choose|seal: Seq<u8>|
            is_envelope_encryption_with(seal, header, crypted, recips, plain);
        // The found index and the stated index name the same (first) entry.
        assert(header.recipients[j].id == recips[j].0);
        if j < i0 {
            assert(false);
        }
        if i0 < j {
            assert(header.recipients[i0].id == recips[i0].0);
            assert(recips[i0].0 != recips[j].0);
            assert(false);
        }
        let rec = header.recipients[i0];
        assert(is_wrapped_seal_key(seal, recips[i0].1, rec.crypted_key));
        let eph = choose|eph: Seq<u8>|
            {
                &&& rec.crypted_key.take(32) == #[trigger] x25519_public(eph)
                &&& x25519_shared(eph, recips[i0].1).len() == 32
                &&& rec.crypted_key.skip(32) == xor_seq(seal, x25519_shared(eph, recips[i0].1))
            };
        assert(x25519_shared(private_key, rec.crypted_key.take(32)) == x25519_shared(
            eph,
            x25519_public(private_key),
        ));
        let shared = x25519_shared(eph, recips[i0].1);
        lemma_xor_seq_comm(seal, shared);
        lemma_xor_seq_involution(shared, seal);
        assert(recipient_seal(private_key, rec) == xor_seq(shared, xor_seq(seal, shared)));
        assert(xor_seq(seal, shared) =~= xor_seq(shared, seal));
        assert(recipient_seal(private_key, rec) == seal);
        assert(crypted.skip(plain.len() as int) == crypted.skip(crypted.len() - 16));
        assert(crypted.take(plain.len() as int) == crypted.take(crypted.len() - 16));
    }
}

} // verus!
