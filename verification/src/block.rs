//! The ciphertext envelope: a block is a header naming the cipher, the AEAD
//! nonce and the per-recipient wrapped seal keys, followed by the payload
//! ciphertext with its tag.

use vstd::prelude::*;

verus! {

/// Header tag for the X25519 + ChaCha20-Poly1305 envelope cipher.
pub const CIPHER_X25519_CHACHA20_POLY1305: u8 = 1;

/// One recipient entry of a block header: the identity id (UTF-8 bytes) and
/// the 64-byte wrapped seal key (ephemeral public key followed by the
/// XOR-wrapped seal key).
pub struct Recipient {
    pub id: Vec<u8>,
    pub crypted_key: Vec<u8>,
}

#[verifier::ext_equal]
pub ghost struct RecipientView {
    pub id: Seq<u8>,
    pub crypted_key: Seq<u8>,
}

impl View for Recipient {
    type V = RecipientView;

    open spec fn view(&self) -> RecipientView {
        RecipientView { id: self.id@, crypted_key: self.crypted_key@ }
    }
}

/// The public part of a block: which cipher sealed it, the AEAD nonce and
/// the wrapped seal key of every recipient.
pub struct BlockHeader {
    pub block_type: u8,
    pub common_key: Vec<u8>,
    pub recipients: Vec<Recipient>,
}

#[verifier::ext_equal]
pub ghost struct BlockHeaderView {
    pub block_type: u8,
    pub common_key: Seq<u8>,
    pub recipients: Seq<RecipientView>,
}

impl View for BlockHeader {
    type V = BlockHeaderView;

    open spec fn view(&self) -> BlockHeaderView {
        BlockHeaderView {
            block_type: self.block_type,
            common_key: self.common_key@,
            recipients: Seq::new(self.recipients@.len(), |i: int| self.recipients@[i]@),
        }
    }
}

/// A complete block: header plus payload ciphertext whose last 16 bytes are
/// the AEAD tag.
pub struct Block {
    pub header: BlockHeader,
    pub ciphertext: Vec<u8>,
}

#[verifier::ext_equal]
pub ghost struct BlockView {
    pub header: BlockHeaderView,
    pub ciphertext: Seq<u8>,
}

impl View for Block {
    type V = BlockView;

    open spec fn view(&self) -> BlockView {
        BlockView { header: self.header@, ciphertext: self.ciphertext@ }
    }
}

} // verus!
