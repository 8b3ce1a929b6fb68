//! The secrets store: identity management over the passphrase-sealed
//! keyring, the lock state machine, and secret reading and writing over the
//! content-addressed block log, with an in-memory index rebuilt on unlock.

use vstd::prelude::*;

use crate::api::{Identity, Secret, SecretEntry, SecretList, SecretListFilter, SecretVersion,
    SecretVersionRef, SecretVersionView, Status};
use crate::block::BlockView;
use crate::block_store::{spec_block_id, spec_contains_id, spec_has_block, BlockStore};
use crate::cipher::{is_sealed_private_key, recipient_seal, RustX25519ChaCha20Poly1305Cipher};
use crate::crypto::{chacha_tag, chacha_xor, derive_seal_key, kdf_of, random_bytes, x25519_public};
use crate::error::SecretStoreError;
use crate::memguard::SecretBytes;
use crate::util::str_eq;
use crate::wire::{parse_block, parse_ring, parse_version, serialize_block, serialize_ring,
    serialize_version, spec_enc_block, spec_enc_ring, spec_enc_version, entry_seq_view, RingEntry,
    RingEntryView, KDF_SCRYPT};
use vstd::utf8::encode_utf8;

verus! {

/// The scrypt cost parameter (N) for newly created identities: 32768 with
/// block size 8 demands 32 MiB per derivation.
pub const KDF_COST: u64 = 32768;

/// The cached display fields of one stored version, kept in the index so
/// that listing needs no decryption.
pub struct VersionMeta {
    pub timestamp: u64,
    pub block_id: String,
    pub name: String,
    pub secret_type: String,
    pub tags: Vec<String>,
    pub deleted: bool,
}

#[verifier::ext_equal]
pub ghost struct VersionMetaView {
    pub timestamp: u64,
    pub block_id: Seq<char>,
    pub name: Seq<char>,
    pub secret_type: Seq<char>,
    pub tags: Seq<Seq<char>>,
    pub deleted: bool,
}

impl View for VersionMeta {
    type V = VersionMetaView;

    open spec fn view(&self) -> VersionMetaView {
        VersionMetaView {
            timestamp: self.timestamp,
            block_id: self.block_id@,
            name: self.name@,
            secret_type: self.secret_type@,
            tags: crate::api::str_seq_view(self.tags@),
            deleted: self.deleted,
        }
    }
}

/// The cached fields a version contributes to the index, under its block.
pub open spec fn spec_meta_of(w: SecretVersionView, block_id: Seq<char>) -> VersionMetaView {
    VersionMetaView {
        timestamp: w.timestamp,
        block_id: block_id,
        name: w.name,
        secret_type: w.secret_type,
        tags: w.tags,
        deleted: w.deleted,
    }
}

/// One secret of the index: its id and the metadata of every stored
/// version.
pub struct IndexEntry {
    pub secret_id: String,
    pub versions: Vec<VersionMeta>,
}

#[verifier::ext_equal]
pub ghost struct IndexEntryView {
    pub secret_id: Seq<char>,
    pub versions: Seq<VersionMetaView>,
}

impl View for IndexEntry {
    type V = IndexEntryView;

    open spec fn view(&self) -> IndexEntryView {
        IndexEntryView {
            secret_id: self.secret_id@,
            versions: Seq::new(self.versions@.len(), |i: int| self.versions@[i]@),
        }
    }
}

/// The views of the whole index.
pub open spec fn index_view(index: Seq<IndexEntry>) -> Seq<IndexEntryView> {
    Seq::new(index.len(), |i: int| index[i]@)
}

/// The index holds `m` among the versions of `sid`.
pub open spec fn index_has_meta(
    index: Seq<IndexEntryView>,
    sid: Seq<char>,
    m: VersionMetaView,
) -> bool {
    exists|i: int, j: int|
        #![trigger index[i].versions[j]]
        0 <= i < index.len() && index[i].secret_id == sid && 0 <= j < index[i].versions.len()
            && index[i].versions[j] == m
}

/// The index has an entry for `sid`.
pub open spec fn index_has_id(index: Seq<IndexEntryView>, sid: Seq<char>) -> bool {
    exists|i: int| 0 <= i < index.len() && (#[trigger] index[i]).secret_id == sid
}

/// Byte-wise lexicographic order.
pub open spec fn spec_lex_less(a: Seq<u8>, b: Seq<u8>) -> bool
    decreases a.len(),
{
    if b.len() == 0 {
        false
    } else if a.len() == 0 {
        true
    } else if a.first() < b.first() {
        true
    } else if a.first() > b.first() {
        false
    } else {
        spec_lex_less(a.drop_first(), b.drop_first())
    }
}

/// Compare two byte slices lexicographically.
pub fn bytes_lex_less(a: &[u8], b: &[u8]) -> (r: bool)
    ensures
        r == spec_lex_less(a@, b@),
    decreases a@.len(),
{
    let mut i: usize = 0;
    proof {
        assert(a@.skip(0) == a@);
        assert(b@.skip(0) == b@);
    }
    loop
        invariant
            i <= a@.len(),
            i <= b@.len(),
            forall|j: int| 0 <= j < i ==> a@[j] == b@[j],
            spec_lex_less(a@, b@) == spec_lex_less(a@.skip(i as int), b@.skip(i as int)),
        decreases a@.len() - i,
    {
        if i >= b.len() {
            proof {
                assert(b@.skip(i as int).len() == 0);
            }
            return false;
        }
        if i >= a.len() {
            proof {
                assert(a@.skip(i as int).len() == 0);
                assert(b@.skip(i as int).len() > 0);
            }
            return true;
        }
        let ca = a[i];
        let cb = b[i];
        proof {
            assert(a@.skip(i as int).first() == a@[i as int]);
            assert(b@.skip(i as int).first() == b@[i as int]);
            assert(a@.skip(i as int).drop_first() == a@.skip(i as int + 1));
            assert(b@.skip(i as int).drop_first() == b@.skip(i as int + 1));
        }
        if ca < cb {
            return true;
        }
        if ca > cb {
            return false;
        }
        i = i + 1;
    }
}

/// `a` is preferred over `b` as the current version: not deleted first,
/// then the higher timestamp, then the lexicographically greater block id.
pub open spec fn spec_prefers(a: VersionMetaView, b: VersionMetaView) -> bool {
    if a.deleted != b.deleted {
        !a.deleted
    } else if a.timestamp != b.timestamp {
        a.timestamp > b.timestamp
    } else {
        spec_lex_less(encode_utf8(b.block_id), encode_utf8(a.block_id))
    }
}

/// Decide whether `a` is preferred over `b` as the current version.
pub fn prefers(a: &VersionMeta, b: &VersionMeta) -> (r: bool)
    ensures
        r == spec_prefers(a@, b@),
{
    if a.deleted != b.deleted {
        !a.deleted
    } else if a.timestamp != b.timestamp {
        a.timestamp > b.timestamp
    } else {
        bytes_lex_less(b.block_id.as_str().as_bytes(), a.block_id.as_str().as_bytes())
    }
}

/// The versions of one index entry reference distinct blocks.
pub open spec fn spec_distinct_blocks(versions: Seq<VersionMetaView>) -> bool {
    forall|j: int, k: int|
        0 <= j < k < versions.len() ==> (#[trigger] versions[j]).block_id != (
        #[trigger] versions[k]).block_id
}

/// `i` names the current version among `versions`: every other version
/// loses to it.
pub open spec fn spec_is_current(versions: Seq<VersionMetaView>, i: int) -> bool {
    &&& 0 <= i < versions.len()
    &&& forall|j: int| 0 <= j < versions.len() && j != i ==> spec_prefers(
        versions[i],
        #[trigger] versions[j],
    )
}

/// Pick the current version of a non-empty list.
pub fn current_index(versions: &Vec<VersionMeta>) -> (r: usize)
    requires
        versions@.len() > 0,
        spec_distinct_blocks(Seq::new(versions@.len(), |i: int| versions@[i]@)),
    ensures
        r < versions@.len(),
        spec_is_current(Seq::new(versions@.len(), |i: int| versions@[i]@), r as int),
{
    let ghost vs = Seq::new(versions@.len(), |i: int| versions@[i]@);
    let mut best: usize = 0;
    let mut i: usize = 1;
    while i < versions.len()
        invariant
            versions@.len() == vs.len(),
            spec_distinct_blocks(vs),
            forall|k: int| 0 <= k < vs.len() ==> vs[k] == versions@[k]@,
            best < i <= vs.len(),
            forall|j: int| 0 <= j < i && j != best ==> spec_prefers(
                vs[best as int],
                #[trigger] vs[j],
            ),
        decreases versions@.len() - i,
    {
        if prefers(&versions[i], &versions[best]) {
            proof {
                assert forall|j: int| 0 <= j < i + 1 && j != i implies spec_prefers(
                    vs[i as int],
                    #[trigger] vs[j],
                ) by {
                    if j != best {
                        lemma_prefers_trans(vs[i as int], vs[best as int], vs[j]);
                        assert(vs[i as int].block_id != vs[j].block_id);
                    }
                }
            }
            best = i;
        } else {
            proof {
                assert(vs[best as int].block_id != vs[i as int].block_id);
                lemma_prefers_total_distinct(vs[best as int], vs[i as int]);
            }
        }
        i = i + 1;
    }
    best
}

/// Of two version metas over distinct blocks, one is preferred.
proof fn lemma_prefers_total_distinct(a: VersionMetaView, b: VersionMetaView)
    requires
        a.block_id != b.block_id,
    ensures
        spec_prefers(a, b) || spec_prefers(b, a),
{
    lemma_lex_less_connected(encode_utf8(a.block_id), encode_utf8(b.block_id));
    if !spec_prefers(a, b) && !spec_prefers(b, a) {
        assert(a.deleted == b.deleted && a.timestamp == b.timestamp);
        assert(encode_utf8(a.block_id) == encode_utf8(b.block_id));
        vstd::utf8::encode_utf8_decode_utf8(a.block_id);
        vstd::utf8::encode_utf8_decode_utf8(b.block_id);
        assert(a.block_id == b.block_id);
    }
}

/// Preference carries over: what beats the best beats what the best beats.
proof fn lemma_prefers_trans(a: VersionMetaView, b: VersionMetaView, c: VersionMetaView)
    requires
        spec_prefers(a, b),
        spec_prefers(b, c) || b == c,
    ensures
        spec_prefers(a, c) || a == c,
{
    lemma_lex_less_connected(encode_utf8(a.block_id), encode_utf8(b.block_id));
    lemma_lex_less_connected(encode_utf8(b.block_id), encode_utf8(c.block_id));
    lemma_lex_less_connected(encode_utf8(a.block_id), encode_utf8(c.block_id));
    if spec_prefers(b, c) {
        if a.deleted == b.deleted && b.deleted == c.deleted && a.timestamp == b.timestamp
            && b.timestamp == c.timestamp {
            lemma_lex_less_trans(encode_utf8(c.block_id), encode_utf8(b.block_id), encode_utf8(
                a.block_id,
            ));
        }
    }
}

/// Lexicographic order is transitive.
proof fn lemma_lex_less_trans(a: Seq<u8>, b: Seq<u8>, c: Seq<u8>)
    requires
        spec_lex_less(a, b),
        spec_lex_less(b, c),
    ensures
        spec_lex_less(a, c),
    decreases a.len(),
{
    if a.len() > 0 && b.len() > 0 && c.len() > 0 && a.first() == b.first() && b.first()
        == c.first() {
        lemma_lex_less_trans(a.drop_first(), b.drop_first(), c.drop_first());
    }
}

/// Two sequences are lexicographically ordered one way, the other, or
/// equal.
proof fn lemma_lex_less_connected(a: Seq<u8>, b: Seq<u8>)
    ensures
        spec_lex_less(a, b) || spec_lex_less(b, a) || a == b,
    decreases a.len(),
{
    if a.len() > 0 && b.len() > 0 && a.first() == b.first() {
        lemma_lex_less_connected(a.drop_first(), b.drop_first());
        assert(spec_lex_less(a, b) == spec_lex_less(a.drop_first(), b.drop_first()));
        assert(spec_lex_less(b, a) == spec_lex_less(b.drop_first(), a.drop_first()));
        if !spec_lex_less(a, b) && !spec_lex_less(b, a) {
            assert(a.drop_first() == b.drop_first());
            assert forall|i: int| 0 <= i < a.len() implies a[i] == b[i] by {
                if i > 0 {
                    assert(a.drop_first()[i - 1] == b.drop_first()[i - 1]);
                }
            }
            assert(a =~= b);
        }
    } else if a.len() == 0 && b.len() == 0 {
        assert(a =~= b);
    }
}

/// `i0` is the first recipient entry carrying `idb`.
pub open spec fn spec_first_recipient(
    rs: Seq<crate::block::RecipientView>,
    idb: Seq<u8>,
    i0: int,
) -> bool {
    &&& 0 <= i0 < rs.len()
    &&& rs[i0].id == idb
    &&& forall|j: int| 0 <= j < i0 ==> (#[trigger] rs[j]).id != idb
}

/// The index of the first recipient entry carrying `idb`, or -1.
pub open spec fn spec_find_recipient(rs: Seq<crate::block::RecipientView>, idb: Seq<u8>) -> int
    decreases rs.len(),
{
    if rs.len() == 0 {
        -1
    } else if rs.first().id == idb {
        0
    } else {
        let r = spec_find_recipient(rs.drop_first(), idb);
        if r < 0 {
            -1
        } else {
            r + 1
        }
    }
}

/// What `spec_find_recipient` returns: -1 exactly when no entry matches,
/// and otherwise the first matching index.
pub proof fn lemma_find_recipient_props(rs: Seq<crate::block::RecipientView>, idb: Seq<u8>)
    ensures
        spec_find_recipient(rs, idb) == -1 <==> (forall|j: int|
            0 <= j < rs.len() ==> (#[trigger] rs[j]).id != idb),
        spec_find_recipient(rs, idb) >= 0 ==> spec_first_recipient(
            rs,
            idb,
            spec_find_recipient(rs, idb),
        ),
    decreases rs.len(),
{
    if rs.len() > 0 && rs.first().id != idb {
        lemma_find_recipient_props(rs.drop_first(), idb);
        let r = spec_find_recipient(rs.drop_first(), idb);
        if r == -1 {
            assert forall|j: int| 0 <= j < rs.len() implies (#[trigger] rs[j]).id != idb by {
                if j > 0 {
                    assert(rs.drop_first()[j - 1].id != idb);
                }
            }
        } else {
            assert(rs[r + 1] == rs.drop_first()[r]);
            assert forall|j: int| 0 <= j < r + 1 implies (#[trigger] rs[j]).id != idb by {
                if j > 0 {
                    assert(rs.drop_first()[j - 1].id != idb);
                }
            }
        }
    }
}

/// The block view `bv` decrypts, for `user` holding `key`, to the version
/// encoding of `w`: the first recipient entry for `user` unwraps a seal key
/// under which the payload tag verifies, and the payload encodes `w`.
pub open spec fn spec_view_yields(
    bv: BlockView,
    user: Seq<char>,
    key: Seq<u8>,
    w: SecretVersionView,
) -> bool {
    let i0 = spec_find_recipient(bv.header.recipients, encode_utf8(user));
    &&& bv.header.common_key.len() == 12
    &&& 16 <= bv.ciphertext.len() < 0x3f_ffff_ffc0
    &&& i0 >= 0
    &&& bv.header.recipients[i0].crypted_key.len() == 64
    &&& bv.ciphertext.skip(bv.ciphertext.len() - 16) == chacha_tag(
        recipient_seal(key, bv.header.recipients[i0]),
        bv.header.common_key,
        bv.ciphertext.take(bv.ciphertext.len() - 16),
    )
    &&& chacha_xor(
        recipient_seal(key, bv.header.recipients[i0]),
        bv.header.common_key,
        bv.ciphertext.take(bv.ciphertext.len() - 16),
    ) == spec_enc_version(w)
}

/// The block view `bv` is well formed and names `user`, but the payload tag
/// does not verify under the seal key unwrapped with `key`.
pub open spec fn spec_view_tag_mismatch(bv: BlockView, user: Seq<char>, key: Seq<u8>) -> bool {
    let i0 = spec_find_recipient(bv.header.recipients, encode_utf8(user));
    &&& bv.header.common_key.len() == 12
    &&& 16 <= bv.ciphertext.len() < 0x3f_ffff_ffc0
    &&& i0 >= 0
    &&& bv.header.recipients[i0].crypted_key.len() == 64
    &&& bv.ciphertext.skip(bv.ciphertext.len() - 16) != chacha_tag(
        recipient_seal(key, bv.header.recipients[i0]),
        bv.header.common_key,
        bv.ciphertext.take(bv.ciphertext.len() - 16),
    )
}

/// The block `bytes` decrypts, for `user` holding `key`, to the version
/// encoding of `w`.
pub open spec fn spec_block_yields(
    bytes: Seq<u8>,
    user: Seq<char>,
    key: Seq<u8>,
    w: SecretVersionView,
) -> bool {
    exists|bv: BlockView|
        #![trigger spec_enc_block(bv)]
        bytes == spec_enc_block(bv) && spec_view_yields(bv, user, key, w)
}

/// The block `bytes` is well formed and names `user`, but its tag does not
/// verify under `key`.
pub open spec fn spec_block_tag_mismatch(bytes: Seq<u8>, user: Seq<char>, key: Seq<u8>) -> bool {
    exists|bv: BlockView|
        #![trigger spec_enc_block(bv)]
        bytes == spec_enc_block(bv) && spec_view_tag_mismatch(bv, user, key)
}

/// Parse and decrypt one block as `user_id` holding `key`. Returns the
/// version it yields; fails with `Cipher` when the block is malformed or
/// its tag does not verify, with `NoRecipient` when `user_id` is not named.
#[verifier::rlimit(100)]
pub fn try_decrypt_version(user_id: &str, key: &SecretBytes, bytes: &[u8]) -> (r: Result<
    SecretVersion,
    SecretStoreError,
>)
    requires
        key@.len() == 32,
    ensures
        r matches Ok(v) ==> spec_block_yields(bytes@, user_id@, key@, v@),
        forall|w: SecretVersionView|
            #![trigger spec_block_yields(bytes@, user_id@, key@, w)]
            spec_block_yields(bytes@, user_id@, key@, w) ==> r is Ok && r->Ok_0@ == w,
        spec_block_tag_mismatch(bytes@, user_id@, key@) ==> r is Err && r->Err_0 is Cipher,
        r is Err ==> (r->Err_0 is Cipher || r->Err_0 is NoRecipient || r->Err_0
            is InvalidVersion),
{
    let block = match parse_block(bytes) {
        Some(b) => b,
        None => {
            return Err(SecretStoreError::Cipher(String::from_str("Invalid block")));
        },
    };
    let ghost bv = block@;
    let ghost i0 = spec_find_recipient(bv.header.recipients, encode_utf8(user_id@));
    proof {
        lemma_find_recipient_props(bv.header.recipients, encode_utf8(user_id@));
    }
    if (block.ciphertext.len() as u64) >= 0x3f_ffff_ffc0u64 {
        return Err(SecretStoreError::Cipher(String::from_str("Block too large")));
    }
    let plain = match RustX25519ChaCha20Poly1305Cipher::decrypt(user_id, key, &block.header,
        block.ciphertext.as_slice()) {
        Ok(p) => p,
        Err(e) => {
            proof {
                if i0 >= 0 {
                    assert(bv.header.recipients[i0] == block.header@.recipients[i0]);
                }
            }
            return Err(e);
        },
    };
    proof {
        assert(block.ciphertext@.len() >= 16 && bv.header.common_key.len() == 12 && i0 >= 0
            && bv.header.recipients[i0].crypted_key.len() == 64) by {
            if i0 >= 0 {
                assert(bv.header.recipients[i0] == block.header@.recipients[i0]);
            }
            if forall|j: int| 0 <= j < bv.header.recipients.len() ==> (
            #[trigger] bv.header.recipients[j]).id != encode_utf8(user_id@) {
                assert(false);
            }
        }
        assert(bv.header.recipients[i0] == block.header@.recipients[i0]);
        assert(plain@ == chacha_xor(
            recipient_seal(key@, bv.header.recipients[i0]),
            bv.header.common_key,
            bv.ciphertext.take(bv.ciphertext.len() - 16),
        ));
    }
    match parse_version(plain.borrow()) {
        Some(v) => {
            proof {
                assert(spec_view_yields(bv, user_id@, key@, v@));
                assert(spec_block_yields(bytes@, user_id@, key@, v@)) by {
                    assert(bytes@ == spec_enc_block(bv));
                }
            }
            Ok(v)
        },
        None => Err(SecretStoreError::InvalidVersion(String::from_str("Unparseable version"))),
    }
}

/// The ghost state of a secrets store.
#[verifier::ext_equal]
pub ghost struct SecretsStoreView {
    pub autolock_timeout_millis: u64,
    pub blocks: crate::block_store::BlockStoreView,
    pub ring: Seq<RingEntryView>,
    pub unlocked_by: Option<Seq<char>>,
    pub key: Option<Seq<u8>>,
    pub autolock_at: Option<u64>,
    pub index: Seq<IndexEntryView>,
}

/// Ring entries carry well-formed key material and KDF parameters, and ids
/// are unique.
pub open spec fn ring_wf(ring: Seq<RingEntryView>) -> bool {
    &&& forall|i: int, j: int|
        0 <= i < j < ring.len() ==> (#[trigger] ring[i]).id != (#[trigger] ring[j]).id
    &&& forall|i: int|
        0 <= i < ring.len() ==> {
            let e = #[trigger] ring[i];
            &&& e.public_key.len() == 32
            &&& e.private_key_nonce.len() == 12
            &&& e.sealed_private_key.len() == 48
            &&& 1 <= e.kdf_cost <= 0x7fff_ffff
            &&& e.kdf_salt.len() <= 0x7fff_ffff
        }
}

/// Unique secret ids, and distinct blocks within each entry.
pub open spec fn index_wf(index: Seq<IndexEntryView>) -> bool {
    &&& forall|i: int, j: int|
        0 <= i < j < index.len() ==> (#[trigger] index[i]).secret_id != (
        #[trigger] index[j]).secret_id
    &&& forall|i: int|
        0 <= i < index.len() ==> spec_distinct_blocks((#[trigger] index[i]).versions)
    &&& forall|i: int| 0 <= i < index.len() ==> (#[trigger] index[i]).versions.len() > 0
}

/// The store's invariant: well-formed blocks, ring and index, a coherent
/// lock state, and the ring persisted in the block store's ring slot.
pub open spec fn store_wf(v: SecretsStoreView) -> bool {
    &&& crate::block_store::store_wf(v.blocks)
    &&& ring_wf(v.ring)
    &&& index_wf(v.index)
    &&& (v.unlocked_by is Some <==> v.key is Some)
    &&& (v.unlocked_by is Some <==> v.autolock_at is Some)
    &&& (v.key matches Some(k) ==> k.len() == 32)
    &&& (v.unlocked_by is None ==> v.index.len() == 0)
    &&& (v.blocks.ring == Some(spec_enc_ring(v.ring)) || (v.ring.len() == 0 && v.blocks.ring
        is None))
}

/// The lockable secrets store over a block log.
pub struct SecretsStore {
    autolock_timeout_millis: u64,
    blocks: BlockStore,
    ring: Vec<RingEntry>,
    unlocked_by: Option<String>,
    private_key: Option<SecretBytes>,
    autolock_at: Option<u64>,
    index: Vec<IndexEntry>,
}

impl View for SecretsStore {
    type V = SecretsStoreView;

    closed spec fn view(&self) -> SecretsStoreView {
        SecretsStoreView {
            autolock_timeout_millis: self.autolock_timeout_millis,
            blocks: self.blocks@,
            ring: entry_seq_view(self.ring@),
            unlocked_by: match self.unlocked_by {
                Some(ref u) => Some(u@),
                None => None,
            },
            key: match self.private_key {
                Some(ref k) => Some(k@),
                None => None,
            },
            autolock_at: self.autolock_at,
            index: index_view(self.index@),
        }
    }
}

impl SecretsStore {
    /// The store is locked: no private key is open in memory.
    pub open spec fn locked(&self) -> bool {
        self@.unlocked_by is None
    }

    /// Open a store over a block log: read and parse the persisted ring.
    /// Fails with `Cipher` when the ring blob does not parse; the store
    /// starts locked.
    pub fn open(autolock_timeout_millis: u64, blocks: BlockStore) -> (r: Result<
        SecretsStore,
        SecretStoreError,
    >)
        requires
            blocks.wf(),
        ensures
            r matches Ok(s) ==> store_wf(s@) && s.locked() && s@.blocks == blocks@
                && s@.autolock_timeout_millis == autolock_timeout_millis && (blocks@.ring matches
            Some(blob) ==> blob == spec_enc_ring(s@.ring)) && (blocks@.ring is None ==> s@.ring.len()
                == 0),
            r is Err ==> (blocks@.ring matches Some(blob) && !(exists|es: Seq<RingEntryView>|
                blob == spec_enc_ring(es) && ring_wf(es))),
    {
        let ring: Vec<RingEntry> = match blocks.get_ring() {
            None => Vec::new(),
            Some(blob) => {
                match parse_ring(blob.as_slice()) {
                    Some(entries) => {
                        if !ring_entries_ok(&entries) {
                            return Err(SecretStoreError::Cipher(String::from_str("Invalid ring")));
                        }
                        entries
                    },
                    None => {
                        return Err(SecretStoreError::Cipher(String::from_str("Invalid ring")));
                    },
                }
            },
        };
        Ok(
            SecretsStore {
                autolock_timeout_millis,
                blocks,
                ring,
                unlocked_by: None,
                private_key: None,
                autolock_at: None,
                index: Vec::new(),
            },
        )
    }

    /// The current lock state.
    pub fn status(&self) -> (r: Status)
        ensures
            r.locked <==> self.locked(),
            r.unlocked_by is Some <==> self@.unlocked_by is Some,
            r.unlocked_by matches Some(u) ==> u@ == self@.unlocked_by.unwrap(),
            r.autolock_at == self@.autolock_at,
    {
        Status {
            locked: self.unlocked_by.is_none(),
            unlocked_by: match &self.unlocked_by {
                Some(u) => Some(u.clone()),
                None => None,
            },
            autolock_at: self.autolock_at,
        }
    }

    /// Wipe the open private key, drop the index and return to `Locked`.
    /// Idempotent.
    pub fn lock(&mut self)
        requires
            store_wf(old(self)@),
        ensures
            store_wf(final(self)@),
            final(self).locked(),
            final(self)@.key is None,
            final(self)@.autolock_at is None,
            final(self)@.index.len() == 0,
            final(self)@.blocks == old(self)@.blocks,
            final(self)@.ring == old(self)@.ring,
            final(self)@.autolock_timeout_millis == old(self)@.autolock_timeout_millis,
    {
        match &mut self.private_key {
            Some(key) => {
                key.wipe();
            },
            None => {},
        }
        self.private_key = None;
        self.unlocked_by = None;
        self.autolock_at = None;
        self.index = Vec::new();
        proof {
            assert(final(self)@.index =~= Seq::<IndexEntryView>::empty());
        }
    }

    /// The identities of the ring, in order.
    pub fn identities(&self) -> (r: Vec<Identity>)
        ensures
            r@.len() == self@.ring.len(),
            forall|i: int|
                0 <= i < r@.len() ==> (#[trigger] r@[i])@.id == self@.ring[i].id && r@[i]@.name
                    == self@.ring[i].name && r@[i]@.email == self@.ring[i].email,
    {
        let mut out: Vec<Identity> = Vec::new();
        let mut i: usize = 0;
        while i < self.ring.len()
            invariant
                i <= self.ring@.len(),
                self@.ring.len() == self.ring@.len(),
                out@.len() == i,
                forall|j: int|
                    0 <= j < i ==> (#[trigger] out@[j])@.id == self@.ring[j].id && out@[j]@.name
                        == self@.ring[j].name && out@[j]@.email == self@.ring[j].email,
            decreases self.ring@.len() - i,
        {
            let e = &self.ring[i];
            out.push(
                Identity { id: e.id.clone(), name: e.name.clone(), email: e.email.clone() },
            );
            i = i + 1;
        }
        out
    }

    /// Find the position of an identity in the ring.
    fn find_ring_entry(&self, identity_id: &str) -> (r: Option<usize>)
        ensures
            r is Some ==> ({
                let i = r.unwrap();
                &&& i < self@.ring.len()
                &&& self@.ring[i as int].id == identity_id@
            }),
            r is None ==> (forall|i: int|
                0 <= i < self@.ring.len() ==> (#[trigger] self@.ring[i]).id != identity_id@),
    {
        let mut i: usize = 0;
        while i < self.ring.len()
            invariant
                i <= self.ring@.len(),
                self@.ring.len() == self.ring@.len(),
                forall|j: int| 0 <= j < i ==> (#[trigger] self@.ring[j]).id != identity_id@,
            decreases self.ring@.len() - i,
        {
            if str_eq(self.ring[i].id.as_str(), identity_id) {
                proof {
                    assert(self@.ring[i as int].id == identity_id@);
                }
                return Some(i);
            }
            proof {
                assert(self@.ring[i as int].id != identity_id@);
            }
            i = i + 1;
        }
        None
    }

    /// Create a fresh identity: generate a key pair, derive a seal key from
    /// the passphrase under a fresh salt, seal the private key, append the
    /// ring entry and persist the ring. The lock state does not change.
    /// Fails with `Conflict` when the id already exists.
    pub fn add_identity(&mut self, identity: &Identity, passphrase: &SecretBytes) -> (r: Result<
        (),
        SecretStoreError,
    >)
        requires
            store_wf(old(self)@),
        ensures
            store_wf(final(self)@),
            r matches Err(SecretStoreError::Cipher(m)) ==> m@ == "Key derivation failed"@,
            final(self)@.unlocked_by == old(self)@.unlocked_by,
            final(self)@.key == old(self)@.key,
            final(self)@.autolock_at == old(self)@.autolock_at,
            final(self)@.index == old(self)@.index,
            final(self)@.blocks.entries == old(self)@.blocks.entries,
            final(self)@.autolock_timeout_millis == old(self)@.autolock_timeout_millis,
            r is Ok ==> ({
                let e = final(self)@.ring.last();
                &&& final(self)@.ring == old(self)@.ring.push(e)
                &&& e.id == identity@.id
                &&& e.name == identity@.name
                &&& e.email == identity@.email
                &&& e.kdf_algorithm == KDF_SCRYPT
                &&& e.kdf_cost == KDF_COST
                &&& exists|k: Seq<u8>|
                    e.public_key == #[trigger] x25519_public(k) && k.len() == 32
                        && is_sealed_private_key(
                        kdf_of(passphrase@, e.kdf_salt, e.kdf_cost),
                        e.private_key_nonce,
                        k,
                        e.sealed_private_key,
                    )
            }),
            r matches Err(SecretStoreError::Conflict) <==> (exists|i: int|
                0 <= i < old(self)@.ring.len() && (#[trigger] old(self)@.ring[i]).id
                    == identity@.id),
            r is Err ==> final(self)@.ring == old(self)@.ring,
    {
        if self.find_ring_entry(identity.id.as_str()).is_some() {
            return Err(SecretStoreError::Conflict);
        }
        let (public_key, private_key) = match RustX25519ChaCha20Poly1305Cipher::generate_key_pair(
        ) {
            Ok(kp) => kp,
            Err(e) => {
                proof {
                    assert(false);
                }
                return Err(e);
            },
        };
        let salt = random_bytes(16);
        let seal_key_bytes = match derive_seal_key(passphrase.borrow(), salt.as_slice(),
            KDF_COST) {
            Some(k) => k,
            None => {
                return Err(SecretStoreError::Cipher(String::from_str("Key derivation failed")));
            },
        };
        let seal_key = SecretBytes::from_vec(seal_key_bytes);
        let nonce = random_bytes(12);
        let sealed_private_key = match RustX25519ChaCha20Poly1305Cipher::seal_private_key(
            &seal_key, nonce.as_slice(), &private_key) {
            Ok(s) => s,
            Err(e) => {
                proof {
                    assert(false);
                }
                return Err(e);
            },
        };
        let entry = RingEntry {
            id: identity.id.clone(),
            name: identity.name.clone(),
            email: identity.email.clone(),
            public_key,
            private_key_nonce: nonce,
            sealed_private_key,
            kdf_algorithm: KDF_SCRYPT,
            kdf_salt: salt,
            kdf_cost: KDF_COST,
        };
        let ghost pre_ring = self@.ring;
        self.ring.push(entry);
        let blob = serialize_ring(&self.ring);
        self.blocks.store_ring(blob);
        proof {
            assert(self@.ring =~= pre_ring.push(self@.ring.last()));
            assert forall|i: int, j: int| 0 <= i < j < self@.ring.len() implies (
            #[trigger] self@.ring[i]).id != (#[trigger] self@.ring[j]).id by {
                if j == self@.ring.len() - 1 {
                    assert(self@.ring[i] == pre_ring[i]);
                }
            }
            assert(final(self)@.index =~= old(self)@.index);
        }
        Ok(())
    }
}

impl SecretsStore {
    /// The deadline after which the sweeper locks the store again.
    fn autolock_deadline(&self, now: u64) -> (r: u64)
        ensures
            r == spec_deadline(now, self@.autolock_timeout_millis),
    {
        if self.autolock_timeout_millis > u64::MAX - now {
            u64::MAX
        } else {
            now + self.autolock_timeout_millis
        }
    }

    /// Open an identity's private key with an already-derived seal key and
    /// transition to `Unlocked`, rebuilding the index from the block log.
    /// Valid only while locked; succeeds exactly when the seal key opens
    /// the identity's sealed private key.
    pub fn unlock_with_seal_key(&mut self, identity_id: &str, seal_key: &SecretBytes, now: u64)
        -> (r: Result<(), SecretStoreError>)
        requires
            store_wf(old(self)@),
            seal_key@.len() == 32,
        ensures
            store_wf(final(self)@),
            final(self)@.blocks == old(self)@.blocks,
            final(self)@.ring == old(self)@.ring,
            final(self)@.autolock_timeout_millis == old(self)@.autolock_timeout_millis,
            old(self)@.unlocked_by is Some ==> (r matches Err(
                SecretStoreError::AlreadyUnlocked,
            )) && final(self)@ == old(self)@,
            old(self)@.unlocked_by is None && (forall|i: int|
                0 <= i < old(self)@.ring.len() ==> (#[trigger] old(self)@.ring[i]).id
                    != identity_id@) ==> (r matches Err(SecretStoreError::NotFound)) && final(
                self)@ == old(self)@,
            r is Err ==> final(self)@ == old(self)@,
            forall|i: int|
                {
                    &&& old(self)@.unlocked_by is None
                    &&& 0 <= i < old(self)@.ring.len()
                    &&& (#[trigger] old(self)@.ring[i]).id == identity_id@
                } ==> {
                    let e = old(self)@.ring[i];
                    &&& (r is Ok <==> e.sealed_private_key.skip(32) == chacha_tag(
                        seal_key@,
                        e.private_key_nonce,
                        e.sealed_private_key.take(32),
                    ))
                    &&& (r is Err ==> r->Err_0 is InvalidPassphrase)
                    &&& (r is Ok ==> final(self)@.unlocked_by == Some(identity_id@) && final(self)@.key == Some(chacha_xor(seal_key@, e.private_key_nonce,
                        e.sealed_private_key.take(32))) && final(self)@.autolock_at == Some(
                        spec_deadline(now, old(self)@.autolock_timeout_millis),
                    ))
                    &&& (forall|k: Seq<u8>|
                        is_sealed_private_key(
                            seal_key@,
                            e.private_key_nonce,
                            k,
                            e.sealed_private_key,
                        ) ==> r is Ok && final(self)@.key == Some(k))
                },
            r is Ok ==> (forall|sid: Seq<char>, m: VersionMetaView|
                #![trigger index_has_meta(final(self)@.index, sid, m)]
                index_has_meta(final(self)@.index, sid, m) <==> spec_rebuilt(
                    old(self)@.blocks.entries,
                    identity_id@,
                    final(self)@.key.unwrap(),
                    old(self)@.blocks.entries.len() as int,
                    sid,
                    m,
                )),
    {
        if self.unlocked_by.is_some() {
            return Err(SecretStoreError::AlreadyUnlocked);
        }
        let i = match self.find_ring_entry(identity_id) {
            Some(i) => i,
            None => {
                return Err(SecretStoreError::NotFound);
            },
        };
        let entry = &self.ring[i];
        proof {
            assert(self@.ring[i as int] == entry@);
        }
        let key = match RustX25519ChaCha20Poly1305Cipher::open_private_key(seal_key,
            entry.private_key_nonce.as_slice(), entry.sealed_private_key.as_slice()) {
            Ok(k) => k,
            Err(_) => {
                proof {
                    assert forall|i2: int|
                        {
                            &&& 0 <= i2 < self@.ring.len()
                            &&& (#[trigger] self@.ring[i2]).id == identity_id@
                        } implies i2 == i by {}
                }
                return Err(SecretStoreError::InvalidPassphrase);
            },
        };
        let deadline = self.autolock_deadline(now);
        let index = rebuild_index(&self.blocks, identity_id, &key);
        self.index = index;
        self.unlocked_by = Some(identity_id.to_owned());
        self.private_key = Some(key);
        self.autolock_at = Some(deadline);
        proof {
            assert forall|i2: int|
                {
                    &&& 0 <= i2 < self@.ring.len()
                    &&& (#[trigger] self@.ring[i2]).id == identity_id@
                } implies i2 == i by {}
            assert(final(self)@.key == Some(chacha_xor(seal_key@, self@.ring[i as int].private_key_nonce,
                self@.ring[i as int].sealed_private_key.take(32))));
        }
        Ok(())
    }

    /// Derive the seal key from the passphrase with the identity's stored
    /// KDF parameters and unlock. A wrong passphrase fails with
    /// `InvalidPassphrase` and leaves the store locked.
    pub fn unlock(&mut self, identity_id: &str, passphrase: &SecretBytes, now: u64) -> (r: Result<
        (),
        SecretStoreError,
    >)
        requires
            store_wf(old(self)@),
        ensures
            store_wf(final(self)@),
            final(self)@.blocks == old(self)@.blocks,
            final(self)@.ring == old(self)@.ring,
            final(self)@.autolock_timeout_millis == old(self)@.autolock_timeout_millis,
            r is Err ==> final(self)@ == old(self)@,
            r matches Err(SecretStoreError::Cipher(m)) ==> m@ == "Key derivation failed"@,
            old(self)@.unlocked_by is Some ==> r matches Err(SecretStoreError::AlreadyUnlocked),
            old(self)@.unlocked_by is None && (forall|i: int|
                0 <= i < old(self)@.ring.len() ==> (#[trigger] old(self)@.ring[i]).id
                    != identity_id@) ==> r matches Err(SecretStoreError::NotFound),
            forall|i: int|
                {
                    &&& old(self)@.unlocked_by is None
                    &&& 0 <= i < old(self)@.ring.len()
                    &&& (#[trigger] old(self)@.ring[i]).id == identity_id@
                } ==> {
                    let e = old(self)@.ring[i];
                    &&& (r is Ok ==> final(self)@.unlocked_by == Some(identity_id@) && final(self)@.key == Some(chacha_xor(kdf_of(passphrase@, e.kdf_salt, e.kdf_cost),
                        e.private_key_nonce, e.sealed_private_key.take(32))) && final(self)@.autolock_at == Some(
                        spec_deadline(now, old(self)@.autolock_timeout_millis),
                    ))
                    &&& (r matches Err(SecretStoreError::InvalidPassphrase)
                        ==> e.sealed_private_key.skip(32) != chacha_tag(
                        kdf_of(passphrase@, e.kdf_salt, e.kdf_cost),
                        e.private_key_nonce,
                        e.sealed_private_key.take(32),
                    ))
                    &&& (forall|k: Seq<u8>|
                        is_sealed_private_key(
                            kdf_of(passphrase@, e.kdf_salt, e.kdf_cost),
                            e.private_key_nonce,
                            k,
                            e.sealed_private_key,
                        ) ==> (r is Ok && final(self)@.key == Some(k)) || (r matches Err(
                            SecretStoreError::Cipher(msg),
                        )))
                },
            r is Ok ==> final(self)@.unlocked_by == Some(identity_id@),
            r is Ok ==> (forall|sid: Seq<char>, m: VersionMetaView|
                #![trigger index_has_meta(final(self)@.index, sid, m)]
                index_has_meta(final(self)@.index, sid, m) <==> spec_rebuilt(
                    old(self)@.blocks.entries,
                    identity_id@,
                    final(self)@.key.unwrap(),
                    old(self)@.blocks.entries.len() as int,
                    sid,
                    m,
                )),
    {
        if self.unlocked_by.is_some() {
            return Err(SecretStoreError::AlreadyUnlocked);
        }
        let i = match self.find_ring_entry(identity_id) {
            Some(i) => i,
            None => {
                return Err(SecretStoreError::NotFound);
            },
        };
        proof {
            assert(self@.ring[i as int] == self.ring@[i as int]@);
        }
        let seal_key_bytes = match derive_seal_key(passphrase.borrow(),
            self.ring[i].kdf_salt.as_slice(), self.ring[i].kdf_cost) {
            Some(k) => k,
            None => {
                return Err(SecretStoreError::Cipher(String::from_str("Key derivation failed")));
            },
        };
        let mut seal_key = SecretBytes::from_vec(seal_key_bytes);
        let r = self.unlock_with_seal_key(identity_id, &seal_key, now);
        seal_key.wipe();
        match r {
            Ok(()) => Ok(()),
            Err(e) => {
                proof {
                    assert forall|i2: int|
                        {
                            &&& 0 <= i2 < old(self)@.ring.len()
                            &&& (#[trigger] old(self)@.ring[i2]).id == identity_id@
                        } implies i2 == i by {}
                }
                Err(e)
            },
        }
    }
}

/// The autolock deadline: `now` plus the timeout, saturating.
pub open spec fn spec_deadline(now: u64, timeout: u64) -> u64 {
    if now + timeout > u64::MAX {
        u64::MAX
    } else {
        (now + timeout) as u64
    }
}

/// Rebuild the in-memory index by decrypting every block that yields a
/// version for this identity.
fn rebuild_index(blocks: &BlockStore, identity_id: &str, key: &SecretBytes) -> (r: Vec<IndexEntry>)
    requires
        blocks.wf(),
        key@.len() == 32,
    ensures
        index_wf(index_view(r@)),
        forall|i: int|
            0 <= i < r@.len() ==> (#[trigger] index_view(r@)[i]).versions.len() > 0,
        forall|sid: Seq<char>, m: VersionMetaView|
            #![trigger index_has_meta(index_view(r@), sid, m)]
            index_has_meta(index_view(r@), sid, m) <==> spec_rebuilt(
                blocks@.entries,
                identity_id@,
                key@,
                blocks@.entries.len() as int,
                sid,
                m,
            ),
{
    let ids = blocks.list_blocks();
    let mut index: Vec<IndexEntry> = Vec::new();
    let mut bi: usize = 0;
    while bi < ids.len()
        invariant
            blocks.wf(),
            key@.len() == 32,
            ids@.len() == blocks@.entries.len(),
            forall|j: int| 0 <= j < ids@.len() ==> (#[trigger] ids@[j])@ == blocks@.entries[j].0,
            bi <= ids@.len(),
            index_wf(index_view(index@)),
            forall|i: int|
                0 <= i < index@.len() ==> (#[trigger] index_view(index@)[i]).versions.len() > 0,
            forall|sid: Seq<char>, m: VersionMetaView|
                #![trigger index_has_meta(index_view(index@), sid, m)]
                index_has_meta(index_view(index@), sid, m) <==> spec_rebuilt(
                    blocks@.entries,
                    identity_id@,
                    key@,
                    bi as int,
                    sid,
                    m,
                ),
        decreases ids@.len() - bi,
    {
        let ghost pre_view = index_view(index@);
        let id = &ids[bi];
        let bytes = match blocks.get_block(id.as_str()) {
            Ok(b) => b,
            Err(_) => {
                proof {
                    assert(spec_contains_id(blocks@.entries, blocks@.entries[bi as int].0)) by {
                        assert(blocks@.entries[bi as int].0 == blocks@.entries[bi as int].0);
                    }
                    assert(false);
                }
                bi = bi + 1;
                continue ;
            },
        };
        proof {
            let k = choose|k: int|
                0 <= k < blocks@.entries.len() && #[trigger] blocks@.entries[k] == (
                id@,
                bytes@,
            );
            assert(blocks@.entries[k].0 == blocks@.entries[bi as int].0);
            assert(k == bi as int);
            assert(bytes@ == blocks@.entries[bi as int].1);
        }
        match try_decrypt_version(identity_id, key, bytes.as_slice()) {
            Ok(v) => {
                let m = version_meta(&v, id.clone());
                proof {
                    assert forall|sid2: Seq<char>, m2: VersionMetaView|
                        index_has_meta(pre_view, sid2, m2) implies m2.block_id != m@.block_id by {
                        let (b2, w2): (int, SecretVersionView) = choose|b2: int,
                            w2: SecretVersionView|
                            #![trigger spec_block_yields(blocks@.entries[b2].1, identity_id@, key@, w2)]
                            0 <= b2 < bi && spec_block_yields(
                                blocks@.entries[b2].1,
                                identity_id@,
                                key@,
                                w2,
                            ) && w2.secret_id == sid2 && m2 == spec_meta_of(
                                w2,
                                blocks@.entries[b2].0,
                            );
                        assert(blocks@.entries[b2].0 != blocks@.entries[bi as int].0);
                    }
                }
                insert_meta(&mut index, &v.secret_id, m);
                proof {
                    let post_view = index_view(index@);
                    assert forall|sid2: Seq<char>, m2: VersionMetaView| index_has_meta(
                        post_view,
                        sid2,
                        m2,
                    ) <==> spec_rebuilt(
                        blocks@.entries,
                        identity_id@,
                        key@,
                        bi + 1,
                        sid2,
                        m2,
                    ) by {
                        if index_has_meta(post_view, sid2, m2) {
                            if index_has_meta(pre_view, sid2, m2) {
                                lemma_rebuilt_widen(blocks@.entries, identity_id@, key@, bi as int,
                                    sid2, m2);
                            } else {
                                assert(sid2 == v.secret_id@ && m2 == m@);
                                assert(spec_block_yields(
                                    blocks@.entries[bi as int].1,
                                    identity_id@,
                                    key@,
                                    v@,
                                ));
                            }
                        }
                        if spec_rebuilt(blocks@.entries, identity_id@, key@, bi + 1, sid2, m2) {
                            let (b2, w2): (int, SecretVersionView) = choose|b2: int,
                                w2: SecretVersionView|
                                #![trigger spec_block_yields(blocks@.entries[b2].1, identity_id@, key@, w2)]
                                0 <= b2 < bi + 1 && spec_block_yields(
                                    blocks@.entries[b2].1,
                                    identity_id@,
                                    key@,
                                    w2,
                                ) && w2.secret_id == sid2 && m2 == spec_meta_of(
                                    w2,
                                    blocks@.entries[b2].0,
                                );
                            if b2 < bi {
                                assert(spec_rebuilt(blocks@.entries, identity_id@, key@, bi as int,
                                    sid2, m2));
                            } else {
                                assert(w2 == v@);
                                assert(m2 == m@);
                            }
                        }
                    }
                }
            },
            Err(_) => {
                proof {
                    assert forall|sid2: Seq<char>, m2: VersionMetaView| index_has_meta(
                        index_view(index@),
                        sid2,
                        m2,
                    ) <==> spec_rebuilt(
                        blocks@.entries,
                        identity_id@,
                        key@,
                        bi + 1,
                        sid2,
                        m2,
                    ) by {
                        if index_has_meta(index_view(index@), sid2, m2) {
                            lemma_rebuilt_widen(blocks@.entries, identity_id@, key@, bi as int,
                                sid2, m2);
                        }
                        if spec_rebuilt(blocks@.entries, identity_id@, key@, bi + 1, sid2, m2) {
                            let (b2, w2): (int, SecretVersionView) = choose|b2: int,
                                w2: SecretVersionView|
                                #![trigger spec_block_yields(blocks@.entries[b2].1, identity_id@, key@, w2)]
                                0 <= b2 < bi + 1 && spec_block_yields(
                                    blocks@.entries[b2].1,
                                    identity_id@,
                                    key@,
                                    w2,
                                ) && w2.secret_id == sid2 && m2 == spec_meta_of(
                                    w2,
                                    blocks@.entries[b2].0,
                                );
                            if b2 < bi {
                                assert(spec_rebuilt(blocks@.entries, identity_id@, key@, bi as int,
                                    sid2, m2));
                            } else {
                                assert(false);
                            }
                        }
                    }
                }
            },
        }
        bi = bi + 1;
    }
    index
}

/// A meta contributed by the first `upto` blocks is contributed by any
/// longer prefix.
proof fn lemma_rebuilt_widen(
    entries: Seq<(Seq<char>, Seq<u8>)>,
    user: Seq<char>,
    key: Seq<u8>,
    upto: int,
    sid: Seq<char>,
    m: VersionMetaView,
)
    requires
        spec_rebuilt(entries, user, key, upto, sid, m),
        upto <= entries.len(),
    ensures
        spec_rebuilt(entries, user, key, upto + 1, sid, m),
{
    let (b2, w2): (int, SecretVersionView) = choose|b2: int, w2: SecretVersionView|
        #![trigger spec_block_yields(entries[b2].1, user, key, w2)]
        0 <= b2 < upto && spec_block_yields(entries[b2].1, user, key, w2) && w2.secret_id == sid
            && m == spec_meta_of(w2, entries[b2].0);
    assert(0 <= b2 < upto + 1 && spec_block_yields(entries[b2].1, user, key, w2));
}

/// The `(id, public key)` recipient pairs of a ring.
pub open spec fn spec_ring_recipients(ring: Seq<RingEntryView>) -> Seq<(Seq<u8>, Seq<u8>)> {
    Seq::new(ring.len(), |i: int| (encode_utf8(ring[i].id), ring[i].public_key))
}

/// Some meta of the index references this block.
pub open spec fn index_has_block(index: Seq<IndexEntryView>, block_id: Seq<char>) -> bool {
    exists|sid: Seq<char>, m: VersionMetaView|
        #![trigger index_has_meta(index, sid, m)]
        index_has_meta(index, sid, m) && m.block_id == block_id
}

/// `m` is the current version of `sid`: it is indexed and preferred over
/// every other indexed version of `sid`.
pub open spec fn is_current_meta(
    index: Seq<IndexEntryView>,
    sid: Seq<char>,
    m: VersionMetaView,
) -> bool {
    &&& index_has_meta(index, sid, m)
    &&& forall|m2: VersionMetaView|
        #![trigger index_has_meta(index, sid, m2)]
        index_has_meta(index, sid, m2) && m2 != m ==> spec_prefers(m, m2)
}

/// The listing entry derived from a current version meta.
pub open spec fn spec_entry_of(sid: Seq<char>, m: VersionMetaView) -> crate::api::SecretEntryView {
    crate::api::SecretEntryView {
        id: sid,
        name: m.name,
        secret_type: m.secret_type,
        tags: m.tags,
        deleted: m.deleted,
    }
}

/// The filter accepts this version meta.
pub open spec fn spec_filter_matches(
    f: crate::api::SecretListFilterView,
    m: VersionMetaView,
) -> bool {
    &&& (f.name matches Some(n) ==> crate::util::spec_contains_sub(
        encode_utf8(m.name),
        encode_utf8(n),
    ))
    &&& (f.tag matches Some(t) ==> exists|i: int| 0 <= i < m.tags.len() && #[trigger] m.tags[i]
        == t)
    &&& (f.secret_type matches Some(ty) ==> m.secret_type == ty)
    &&& m.deleted == f.deleted
}

/// Decide whether the filter accepts a version meta.
fn filter_matches(f: &SecretListFilter, m: &VersionMeta) -> (r: bool)
    ensures
        r == spec_filter_matches(f@, m@),
{
    if m.deleted != f.deleted {
        return false;
    }
    match &f.name {
        Some(n) => {
            if !crate::util::bytes_contains_sub(m.name.as_str().as_bytes(),
                n.as_str().as_bytes()) {
                return false;
            }
        },
        None => {},
    }
    match &f.secret_type {
        Some(ty) => {
            if !str_eq(m.secret_type.as_str(), ty.as_str()) {
                return false;
            }
        },
        None => {},
    }
    match &f.tag {
        Some(t) => {
            let mut i: usize = 0;
            while i < m.tags.len()
                invariant
                    i <= m.tags@.len(),
                    m@.tags.len() == m.tags@.len(),
                    forall|j: int| 0 <= j < i ==> m@.tags[j] != t@,
                    f@.tag == Some(t@),
                    m@.deleted == f@.deleted,
                    f@.name matches Some(n) ==> crate::util::spec_contains_sub(
                        encode_utf8(m@.name),
                        encode_utf8(n),
                    ),
                    f@.secret_type matches Some(ty) ==> m@.secret_type == ty,
                decreases m.tags@.len() - i,
            {
                if str_eq(m.tags[i].as_str(), t.as_str()) {
                    proof {
                        assert(m@.tags[i as int] == t@);
                    }
                    return true;
                }
                proof {
                    assert(m@.tags[i as int] != t@);
                }
                i = i + 1;
            }
            return false;
        },
        None => {},
    }
    true
}

/// Listing order: by name, then by id, byte-lexicographically over UTF-8.
pub open spec fn spec_entry_le(
    a: crate::api::SecretEntryView,
    b: crate::api::SecretEntryView,
) -> bool {
    ||| spec_lex_less(encode_utf8(a.name), encode_utf8(b.name))
    ||| (a.name == b.name && (spec_lex_less(encode_utf8(a.id), encode_utf8(b.id)) || a.id == b.id))
}

/// Decide the listing order.
fn entry_le(a: &SecretEntry, b: &SecretEntry) -> (r: bool)
    ensures
        r == spec_entry_le(a@, b@),
{
    if bytes_lex_less(a.name.as_str().as_bytes(), b.name.as_str().as_bytes()) {
        return true;
    }
    if !str_eq(a.name.as_str(), b.name.as_str()) {
        return false;
    }
    if bytes_lex_less(a.id.as_str().as_bytes(), b.id.as_str().as_bytes()) {
        return true;
    }
    str_eq(a.id.as_str(), b.id.as_str())
}

/// One of two entries comes first, in the listing order.
proof fn lemma_entry_le_total(a: crate::api::SecretEntryView, b: crate::api::SecretEntryView)
    ensures
        spec_entry_le(a, b) || spec_entry_le(b, a),
{
    lemma_lex_less_connected(encode_utf8(a.name), encode_utf8(b.name));
    lemma_lex_less_connected(encode_utf8(a.id), encode_utf8(b.id));
    if !spec_entry_le(a, b) && !spec_entry_le(b, a) {
        assert(encode_utf8(a.name) == encode_utf8(b.name));
        vstd::utf8::encode_utf8_decode_utf8(a.name);
        vstd::utf8::encode_utf8_decode_utf8(b.name);
        assert(a.name == b.name);
        assert(encode_utf8(a.id) == encode_utf8(b.id));
        vstd::utf8::encode_utf8_decode_utf8(a.id);
        vstd::utf8::encode_utf8_decode_utf8(b.id);
        assert(a.id == b.id);
        assert(false);
    }
}

/// A sequence of listing entries is sorted.
pub open spec fn spec_entries_sorted(v: Seq<crate::api::SecretEntryView>) -> bool {
    forall|i: int| 0 <= i < v.len() - 1 ==> spec_entry_le(#[trigger] v[i], v[i + 1])
}

/// The views of a vector of listing entries.
pub open spec fn entry_views(v: Seq<SecretEntry>) -> Seq<crate::api::SecretEntryView> {
    Seq::new(v.len(), |i: int| v[i]@)
}

/// Some element of the list equals `e`.
pub open spec fn list_has_entry(
    v: Seq<crate::api::SecretEntryView>,
    e: crate::api::SecretEntryView,
) -> bool {
    exists|i: int| 0 <= i < v.len() && #[trigger] v[i] == e
}

/// Sort listing entries by `(name, id)` with insertion sort, keeping
/// exactly the same entries.
fn sort_entries(items: Vec<SecretEntry>) -> (r: Vec<SecretEntry>)
    requires
        forall|a: int, b: int|
            0 <= a < b < items@.len() ==> (#[trigger] entry_views(items@)[a]).id != (
            #[trigger] entry_views(items@)[b]).id,
    ensures
        r@.len() == items@.len(),
        spec_entries_sorted(entry_views(r@)),
        forall|e: crate::api::SecretEntryView|
            #![trigger list_has_entry(entry_views(r@), e)]
            list_has_entry(entry_views(r@), e) <==> list_has_entry(entry_views(items@), e),
        forall|a: int, b: int|
            0 <= a < b < r@.len() ==> (#[trigger] entry_views(r@)[a]).id != (
            #[trigger] entry_views(r@)[b]).id,
{
    let ghost iv = entry_views(items@);
    let mut out: Vec<SecretEntry> = Vec::new();
    let mut k: usize = 0;
    while k < items.len()
        invariant
            k <= items@.len(),
            iv == entry_views(items@),
            iv.len() == items@.len(),
            forall|a: int, b: int|
                0 <= a < b < iv.len() ==> (#[trigger] iv[a]).id != (#[trigger] iv[b]).id,
            out@.len() == k,
            spec_entries_sorted(entry_views(out@)),
            forall|e: crate::api::SecretEntryView|
                #![trigger list_has_entry(entry_views(out@), e)]
                list_has_entry(entry_views(out@), e) <==> (exists|j: int|
                    0 <= j < k && #[trigger] iv[j] == e),
            forall|i: int|
                0 <= i < out@.len() ==> exists|j: int|
                    0 <= j < k && (#[trigger] entry_views(out@)[i]) == (#[trigger] iv[j]),
            forall|a: int, b: int|
                0 <= a < b < out@.len() ==> (#[trigger] entry_views(out@)[a]).id != (
                #[trigger] entry_views(out@)[b]).id,
        decreases items@.len() - k,
    {
        let ghost pre = entry_views(out@);
        let x = clone_entry(&items[k]);
        let ghost xv = x@;
        proof {
            assert(xv == iv[k as int]);
        }
        let mut p: usize = 0;
        while p < out.len()
            invariant_except_break
                p <= out@.len(),
                xv == x@,
                pre == entry_views(out@),
                forall|j: int| 0 <= j < p ==> spec_entry_le(#[trigger] pre[j], xv),
            ensures
                p <= out@.len(),
                xv == x@,
                pre == entry_views(out@),
                forall|j: int| 0 <= j < p ==> spec_entry_le(#[trigger] pre[j], xv),
                p < out@.len() ==> !spec_entry_le(pre[p as int], xv),
            decreases out@.len() - p,
        {
            if !entry_le(&out[p], &x) {
                proof {
                    assert(pre[p as int] == out@[p as int]@);
                }
                break ;
            }
            proof {
                assert(pre[p as int] == out@[p as int]@);
            }
            p = p + 1;
        }
        proof {
            if p < out@.len() {
                lemma_entry_le_total(pre[p as int], xv);
            }
        }
        let ghost pos = p as int;
        proof {
            assert forall|a: int| 0 <= a < pre.len() implies (#[trigger] pre[a]).id != xv.id by {
                let j = choose|j: int| 0 <= j < k && (#[trigger] pre[a]) == (#[trigger] iv[j]);
                assert(iv[j].id != iv[k as int].id);
            }
        }
        out.insert(p, x);
        proof {
            let post = entry_views(out@);
            assert forall|a: int| 0 <= a < post.len() implies post[a] == (if a < pos {
                pre[a]
            } else if a == pos {
                xv
            } else {
                pre[a - 1]
            }) by {
                assert(post[a] == out@[a]@);
            }
            assert forall|a: int, b: int| 0 <= a < b < post.len() implies (
            #[trigger] post[a]).id != (#[trigger] post[b]).id by {
                if a == pos {
                    if b > pos {
                        assert(post[b] == pre[b - 1]);
                    }
                } else if b == pos {
                    assert(post[a] == pre[a]);
                } else if a < pos && b > pos {
                    assert(post[a] == pre[a] && post[b] == pre[b - 1]);
                } else if a > pos {
                    assert(post[a] == pre[a - 1] && post[b] == pre[b - 1]);
                } else {
                    assert(post[a] == pre[a] && post[b] == pre[b]);
                }
            }
            assert forall|i2: int| 0 <= i2 < post.len() - 1 implies spec_entry_le(
                #[trigger] post[i2],
                post[i2 + 1],
            ) by {
                if i2 + 1 < pos {
                    assert(spec_entry_le(pre[i2], pre[i2 + 1]));
                } else if i2 + 1 == pos {
                    assert(spec_entry_le(pre[i2], xv));
                } else if i2 == pos {
                    if pos < pre.len() {
                        assert(!spec_entry_le(pre[pos], xv));
                        lemma_entry_le_total(pre[pos], xv);
                    }
                } else {
                    assert(spec_entry_le(pre[i2 - 1], pre[i2]));
                }
            }
            assert forall|e: crate::api::SecretEntryView| list_has_entry(post, e) <==> (exists|
                j: int,
            |
                0 <= j < k + 1 && #[trigger] iv[j] == e) by {
                if list_has_entry(post, e) {
                    let a = choose|a: int| 0 <= a < post.len() && #[trigger] post[a] == e;
                    if a == pos {
                        assert(iv[k as int] == e);
                    } else if a < pos {
                        assert(list_has_entry(pre, e)) by {
                            assert(pre[a] == e);
                        }
                    } else {
                        assert(list_has_entry(pre, e)) by {
                            assert(pre[a - 1] == e);
                        }
                    }
                }
                if exists|j: int| 0 <= j < k + 1 && #[trigger] iv[j] == e {
                    let j = choose|j: int| 0 <= j < k + 1 && #[trigger] iv[j] == e;
                    if j == k {
                        assert(post[pos] == e);
                    } else {
                        assert(list_has_entry(pre, e));
                        let a = choose|a: int| 0 <= a < pre.len() && #[trigger] pre[a] == e;
                        if a < pos {
                            assert(post[a] == e);
                        } else {
                            assert(post[a + 1] == e);
                        }
                    }
                }
            }
            assert forall|i2: int| 0 <= i2 < post.len() implies exists|j: int|
                0 <= j < k + 1 && (#[trigger] post[i2]) == (#[trigger] iv[j]) by {
                if i2 == pos {
                    assert(post[i2] == iv[k as int]);
                } else if i2 < pos {
                    let j = choose|j: int| 0 <= j < k && (#[trigger] pre[i2]) == (#[trigger] iv[j]);
                    assert(post[i2] == iv[j]);
                } else {
                    let j = choose|j: int|
                        0 <= j < k && (#[trigger] pre[i2 - 1]) == (#[trigger] iv[j]);
                    assert(post[i2] == iv[j]);
                }
            }
        }
        k = k + 1;
    }
    proof {
        assert forall|e: crate::api::SecretEntryView| list_has_entry(entry_views(out@), e)
            <==> list_has_entry(iv, e) by {
            if exists|j: int| 0 <= j < items@.len() && #[trigger] iv[j] == e {
                assert(list_has_entry(iv, e));
            }
            if list_has_entry(iv, e) {
                let j = choose|j: int| 0 <= j < iv.len() && #[trigger] iv[j] == e;
            }
        }
    }
    out
}

/// Clone a listing entry.
fn clone_entry(e: &SecretEntry) -> (r: SecretEntry)
    ensures
        r@ == e@,
{
    let r = SecretEntry {
        id: e.id.clone(),
        name: e.name.clone(),
        secret_type: e.secret_type.clone(),
        tags: clone_strings(&e.tags),
        deleted: e.deleted,
    };
    proof {
        assert(r@ =~= e@);
    }
    r
}

impl SecretsStore {
    /// The ids of all stored blocks, for persistence mirroring.
    pub fn block_ids(&self) -> (r: Vec<String>)
        ensures
            r@.len() == self@.blocks.entries.len(),
            forall|i: int| 0 <= i < r@.len() ==> (#[trigger] r@[i])@ == self@.blocks.entries[i].0,
    {
        self.blocks.list_blocks()
    }

    /// The bytes of one stored block, for persistence mirroring.
    pub fn export_block(&self, block_id: &str) -> (r: Result<Vec<u8>, SecretStoreError>)
        ensures
            r matches Ok(b) ==> spec_has_block(self@.blocks.entries, block_id@, b@),
            r is Err ==> !spec_contains_id(self@.blocks.entries, block_id@),
    {
        self.blocks.get_block(block_id)
    }

    /// The persisted ring blob, for persistence mirroring.
    pub fn export_ring(&self) -> (r: Option<Vec<u8>>)
        ensures
            r is Some <==> self@.blocks.ring is Some,
            r matches Some(b) ==> b@ == self@.blocks.ring.unwrap(),
    {
        self.blocks.get_ring()
    }

    /// Load one persisted block back, as read from a store directory. The
    /// id is taken as found on disk.
    pub fn import_block(&mut self, block_id: String, bytes: Vec<u8>) -> (r: Result<
        (),
        SecretStoreError,
    >)
        requires
            store_wf(old(self)@),
        ensures
            store_wf(final(self)@),
            final(self)@.ring == old(self)@.ring,
            final(self)@.unlocked_by == old(self)@.unlocked_by,
            final(self)@.index == old(self)@.index,
            r is Ok ==> final(self)@.blocks.entries == old(self)@.blocks.entries.push(
                (block_id@, bytes@),
            ),
            r is Err ==> final(self)@ == old(self)@,
    {
        self.blocks.load_block(block_id, bytes)
    }

    /// Does any indexed version reference this block?
    fn index_contains_block(&self, block_id: &str) -> (r: bool)
        ensures
            r == index_has_block(self@.index, block_id@),
    {
        let ghost iv = self@.index;
        let mut i: usize = 0;
        while i < self.index.len()
            invariant
                i <= self.index@.len(),
                iv == self@.index,
                iv.len() == self.index@.len(),
                forall|a: int, b: int|
                    #![trigger iv[a].versions[b]]
                    0 <= a < i && 0 <= b < iv[a].versions.len() ==> iv[a].versions[b].block_id
                        != block_id@,
            decreases self.index@.len() - i,
        {
            let entry = &self.index[i];
            proof {
                assert(entry@ == iv[i as int]);
            }
            let mut j: usize = 0;
            while j < entry.versions.len()
                invariant
                    iv == self@.index,
                    i < iv.len(),
                    entry@ == iv[i as int],
                    j <= entry.versions@.len(),
                    entry@.versions.len() == entry.versions@.len(),
                    forall|b: int|
                        0 <= b < j ==> (#[trigger] iv[i as int].versions[b]).block_id != block_id@,
                decreases entry.versions@.len() - j,
            {
                if str_eq(entry.versions[j].block_id.as_str(), block_id) {
                    proof {
                        assert(iv[i as int].versions[j as int].block_id == block_id@);
                        assert(index_has_meta(iv, iv[i as int].secret_id,
                            iv[i as int].versions[j as int]));
                    }
                    return true;
                }
                proof {
                    assert(iv[i as int].versions[j as int] == entry.versions@[j as int]@);
                }
                j = j + 1;
            }
            i = i + 1;
        }
        proof {
            if index_has_block(iv, block_id@) {
                let (sid, m): (Seq<char>, VersionMetaView) = choose|sid: Seq<char>,
                    m: VersionMetaView|
                    #![trigger index_has_meta(iv, sid, m)]
                    index_has_meta(iv, sid, m) && m.block_id == block_id@;
                let (a, b): (int, int) = choose|a: int, b: int|
                    #![trigger iv[a].versions[b]]
                    0 <= a < iv.len() && iv[a].secret_id == sid && 0 <= b < iv[a].versions.len()
                        && iv[a].versions[b] == m;
                assert(false);
            }
        }
        false
    }

    /// Refresh the autolock deadline after an access.
    fn touch(&mut self, now: u64)
        requires
            store_wf(old(self)@),
        ensures
            store_wf(final(self)@),
            final(self)@ == (SecretsStoreView {
                autolock_at: final(self)@.autolock_at,
                ..old(self)@
            }),
            old(self)@.unlocked_by is Some ==> final(self)@.autolock_at == Some(
                spec_deadline(now, old(self)@.autolock_timeout_millis),
            ),
            old(self)@.unlocked_by is None ==> final(self)@.autolock_at == old(self)@.autolock_at,
    {
        if self.unlocked_by.is_some() {
            let d = self.autolock_deadline(now);
            self.autolock_at = Some(d);
        }
    }

    /// Encrypt a version for every ring identity, append it to the block
    /// log and index it. Requires the unlocked state; refreshes the
    /// autolock deadline.
    pub fn add(&mut self, version: &SecretVersion, now: u64) -> (r: Result<
        String,
        SecretStoreError,
    >)
        requires
            store_wf(old(self)@),
        ensures
            store_wf(final(self)@),
            final(self)@.ring == old(self)@.ring,
            final(self)@.unlocked_by == old(self)@.unlocked_by,
            final(self)@.key == old(self)@.key,
            final(self)@.autolock_timeout_millis == old(self)@.autolock_timeout_millis,
            old(self)@.unlocked_by is None ==> (r matches Err(SecretStoreError::Locked)) && final(
                self)@ == old(self)@,
            old(self)@.unlocked_by is Some ==> (r is Ok <==> spec_enc_version(version@).len()
                < 0x3f_ffff_ffc0),
            old(self)@.unlocked_by is Some && r is Err ==> (r matches Err(
                SecretStoreError::Cipher(m),
            ) && m@ == "Version too large"@) && final(self)@ == old(self)@,
            r is Ok ==> final(self)@.autolock_at == Some(
                spec_deadline(now, old(self)@.autolock_timeout_millis),
            ),
            r is Ok ==> (exists|bv: BlockView|
                {
                    &&& r->Ok_0@ == spec_block_id(#[trigger] spec_enc_block(bv))
                    &&& crate::cipher::is_envelope_encryption(
                        bv.header,
                        bv.ciphertext,
                        spec_ring_recipients(old(self)@.ring),
                        spec_enc_version(version@),
                    )
                    &&& (!spec_contains_id(old(self)@.blocks.entries, r->Ok_0@) ==> final(
                        self)@.blocks.entries == old(self)@.blocks.entries.push(
                        (r->Ok_0@, spec_enc_block(bv)),
                    ))
                    &&& (spec_contains_id(old(self)@.blocks.entries, r->Ok_0@) ==> final(
                        self)@.blocks.entries == old(self)@.blocks.entries)
                }),
            r is Ok && !index_has_block(old(self)@.index, r->Ok_0@) ==> (forall|
                sid: Seq<char>,
                m: VersionMetaView,
            |
                #![trigger index_has_meta(final(self)@.index, sid, m)]
                index_has_meta(final(self)@.index, sid, m) <==> (index_has_meta(
                    old(self)@.index,
                    sid,
                    m,
                ) || (sid == version@.secret_id && m == spec_meta_of(version@, r->Ok_0@)))),
            r is Ok && index_has_block(old(self)@.index, r->Ok_0@) ==> final(self)@.index == old(
                self)@.index,
    {
        if self.unlocked_by.is_none() {
            return Err(SecretStoreError::Locked);
        }
        let mut recipients: Vec<(String, Vec<u8>)> = Vec::new();
        let mut i: usize = 0;
        while i < self.ring.len()
            invariant
                i <= self.ring@.len(),
                self@.ring.len() == self.ring@.len(),
                store_wf(self@),
                recipients@.len() == i,
                forall|j: int|
                    0 <= j < i ==> (#[trigger] recipients@[j]).0@ == self@.ring[j].id
                        && recipients@[j].1@ == self@.ring[j].public_key,
            decreases self.ring@.len() - i,
        {
            let e = &self.ring[i];
            proof {
                assert(e@ == self@.ring[i as int]);
            }
            recipients.push((e.id.clone(), vstd::slice::slice_to_vec(e.public_key.as_slice())));
            i = i + 1;
        }
        let mut plain_bytes = serialize_version(version);
        if (plain_bytes.len() as u64) >= 0x3f_ffff_ffc0u64 {
            return Err(SecretStoreError::Cipher(String::from_str("Version too large")));
        }
        let plain = SecretBytes::from_mut(&mut plain_bytes);
        let block = match RustX25519ChaCha20Poly1305Cipher::encrypt(&recipients, &plain) {
            Ok(b) => b,
            Err(e) => {
                proof {
                    assert(false);
                }
                return Err(e);
            },
        };
        proof {
            assert(crate::cipher::recipient_pairs(recipients@) =~= spec_ring_recipients(
                self@.ring,
            ));
        }
        let block_bytes = serialize_block(&block);
        let ghost bv = block@;
        let id = self.blocks.store_block(block_bytes);
        if self.index_contains_block(id.as_str()) {
            self.touch(now);
            return Ok(id);
        }
        let m = version_meta(version, id.clone());
        proof {
            assert forall|sid2: Seq<char>, m2: VersionMetaView|
                index_has_meta(self@.index, sid2, m2) implies m2.block_id != m@.block_id by {
                if m2.block_id == m@.block_id {
                    assert(index_has_block(self@.index, id@)) by {
                        assert(index_has_meta(self@.index, sid2, m2) && m2.block_id == id@);
                    }
                }
            }
        }
        insert_meta(&mut self.index, &version.secret_id, m);
        self.touch(now);
        Ok(id)
    }

    /// Fetch and decrypt one stored version by its block id. Requires the
    /// unlocked state; refreshes the autolock deadline. A missing block
    /// fails with `NotFound`; a tampered block fails with `Cipher`.
    pub fn get_version(&mut self, block_id: &str, now: u64) -> (r: Result<
        SecretVersion,
        SecretStoreError,
    >)
        requires
            store_wf(old(self)@),
        ensures
            store_wf(final(self)@),
            final(self)@ == (SecretsStoreView {
                autolock_at: final(self)@.autolock_at,
                ..old(self)@
            }),
            old(self)@.unlocked_by is None ==> (r matches Err(SecretStoreError::Locked)) && final(
                self)@ == old(self)@,
            old(self)@.unlocked_by is Some ==> final(self)@.autolock_at == Some(
                spec_deadline(now, old(self)@.autolock_timeout_millis),
            ),
            old(self)@.unlocked_by is Some ==> ((r matches Err(SecretStoreError::NotFound)) <==> !spec_contains_id(
                old(self)@.blocks.entries,
                block_id@,
            )),
            old(self)@.unlocked_by is Some && r is Err ==> (r->Err_0 is NotFound || r->Err_0
                is Cipher || r->Err_0 is NoRecipient || r->Err_0 is InvalidVersion),
            old(self)@.unlocked_by is Some ==> (forall|bytes: Seq<u8>|
                #![trigger spec_has_block(old(self)@.blocks.entries, block_id@, bytes)]
                spec_has_block(old(self)@.blocks.entries, block_id@, bytes) ==> {
                    &&& (forall|w: SecretVersionView|
                        spec_block_yields(bytes, old(self)@.unlocked_by.unwrap(),
                            old(self)@.key.unwrap(), w) ==> r is Ok && r->Ok_0@ == w)
                    &&& (spec_block_tag_mismatch(bytes, old(self)@.unlocked_by.unwrap(),
                        old(self)@.key.unwrap()) ==> r is Err && r->Err_0 is Cipher)
                }),
    {
        if self.unlocked_by.is_none() {
            return Err(SecretStoreError::Locked);
        }
        self.touch(now);
        let bytes = match self.blocks.get_block(block_id) {
            Ok(b) => b,
            Err(_) => {
                return Err(SecretStoreError::NotFound);
            },
        };
        let key = match &self.private_key {
            Some(k) => k,
            None => {
                proof {
                    assert(false);
                }
                return Err(SecretStoreError::Locked);
            },
        };
        let user = match &self.unlocked_by {
            Some(u) => u,
            None => {
                proof {
                    assert(false);
                }
                return Err(SecretStoreError::Locked);
            },
        };
        let r = try_decrypt_version(user.as_str(), key, bytes.as_slice());
        proof {
            assert forall|bytes2: Seq<u8>| spec_has_block(
                old(self)@.blocks.entries,
                block_id@,
                bytes2,
            ) implies bytes2 == bytes@ by {
                let a = choose|a: int|
                    0 <= a < old(self)@.blocks.entries.len() && #[trigger] old(
                        self)@.blocks.entries[a] == (block_id@, bytes2);
                let b = choose|b: int|
                    0 <= b < old(self)@.blocks.entries.len() && #[trigger] old(
                        self)@.blocks.entries[b] == (block_id@, bytes@);
                assert(a == b);
            }
        }
        r
    }

    /// Look up a secret by id: decrypt its current version and list the
    /// references to all its versions. Requires the unlocked state;
    /// refreshes the autolock deadline.
    pub fn get(&mut self, secret_id: &str, now: u64) -> (r: Result<Secret, SecretStoreError>)
        requires
            store_wf(old(self)@),
        ensures
            store_wf(final(self)@),
            final(self)@ == (SecretsStoreView {
                autolock_at: final(self)@.autolock_at,
                ..old(self)@
            }),
            old(self)@.unlocked_by is None ==> (r matches Err(SecretStoreError::Locked)) && final(
                self)@ == old(self)@,
            old(self)@.unlocked_by is Some ==> final(self)@.autolock_at == Some(
                spec_deadline(now, old(self)@.autolock_timeout_millis),
            ),
            old(self)@.unlocked_by is Some ==> ((r matches Err(SecretStoreError::NotFound)) <==> (
            !index_has_id(old(self)@.index, secret_id@) || (exists|m: VersionMetaView|
                #[trigger] is_current_meta(old(self)@.index, secret_id@, m) && !spec_contains_id(
                    old(self)@.blocks.entries,
                    m.block_id,
                )))),
            old(self)@.unlocked_by is Some && r is Err ==> (r->Err_0 is NotFound || r->Err_0
                is Cipher || r->Err_0 is NoRecipient || r->Err_0 is InvalidVersion),
            forall|m: VersionMetaView, bytes: Seq<u8>, w: SecretVersionView|
                #![trigger is_current_meta(old(self)@.index, secret_id@, m), spec_has_block(old(self)@.blocks.entries, m.block_id, bytes), spec_block_yields(bytes, old(self)@.unlocked_by.unwrap(), old(self)@.key.unwrap(), w)]
                {
                    &&& old(self)@.unlocked_by is Some
                    &&& is_current_meta(old(self)@.index, secret_id@, m)
                    &&& spec_has_block(old(self)@.blocks.entries, m.block_id, bytes)
                    &&& spec_block_yields(bytes, old(self)@.unlocked_by.unwrap(),
                        old(self)@.key.unwrap(), w)
                } ==> r is Ok && r->Ok_0.current@ == w && r->Ok_0.current_block_id@ == m.block_id,
            forall|m: VersionMetaView, bytes: Seq<u8>|
                #![trigger is_current_meta(old(self)@.index, secret_id@, m), spec_has_block(old(self)@.blocks.entries, m.block_id, bytes)]
                {
                    &&& old(self)@.unlocked_by is Some
                    &&& is_current_meta(old(self)@.index, secret_id@, m)
                    &&& spec_has_block(old(self)@.blocks.entries, m.block_id, bytes)
                    &&& spec_block_tag_mismatch(bytes, old(self)@.unlocked_by.unwrap(),
                        old(self)@.key.unwrap())
                } ==> r is Err && r->Err_0 is Cipher,
            r matches Ok(s) ==> ({
                &&& s.id@ == secret_id@
                &&& exists|m: VersionMetaView|
                    {
                        &&& #[trigger] is_current_meta(old(self)@.index, secret_id@, m)
                        &&& s.current_block_id@ == m.block_id
                        &&& (exists|bytes: Seq<u8>|
                            #![trigger spec_has_block(old(self)@.blocks.entries, m.block_id, bytes)]
                            spec_has_block(old(self)@.blocks.entries, m.block_id, bytes)
                                && spec_block_yields(bytes, old(self)@.unlocked_by.unwrap(),
                                old(self)@.key.unwrap(), s.current@))
                    }
                &&& forall|j: int|
                    0 <= j < s.versions@.len() ==> exists|m2: VersionMetaView|
                        #[trigger] index_has_meta(old(self)@.index, secret_id@, m2) && m2.block_id
                            == (#[trigger] s.versions@[j])@.block_id && m2.timestamp
                            == s.versions@[j]@.timestamp
                &&& exists|i: int|
                    #![trigger old(self)@.index[i]]
                    {
                        &&& 0 <= i < old(self)@.index.len()
                        &&& old(self)@.index[i].secret_id == secret_id@
                        &&& s.versions@.len() == old(self)@.index[i].versions.len()
                        &&& forall|j: int|
                            0 <= j < s.versions@.len() ==> ((#[trigger] s.versions@[j])@.block_id
                                == old(self)@.index[i].versions[j].block_id
                                && s.versions@[j]@.timestamp == old(
                                self)@.index[i].versions[j].timestamp)
                    }
            }),
    {
        if self.unlocked_by.is_none() {
            return Err(SecretStoreError::Locked);
        }
        self.touch(now);
        let ghost iv = self@.index;
        let mut i: usize = 0;
        let n = self.index.len();
        while i < n
            invariant_except_break
                n == self.index@.len(),
                iv == self@.index,
                iv.len() == self.index@.len(),
                i <= n,
                forall|a: int| 0 <= a < i ==> (#[trigger] iv[a]).secret_id != secret_id@,
            ensures
                n == self.index@.len(),
                iv == self@.index,
                iv.len() == self.index@.len(),
                i <= n,
                forall|a: int| 0 <= a < i ==> (#[trigger] iv[a]).secret_id != secret_id@,
                i < n ==> iv[i as int].secret_id == secret_id@,
            decreases n - i,
        {
            if str_eq(self.index[i].secret_id.as_str(), secret_id) {
                proof {
                    assert(iv[i as int] == self.index@[i as int]@);
                }
                break ;
            }
            proof {
                assert(iv[i as int] == self.index@[i as int]@);
            }
            i = i + 1;
        }
        if i >= n {
            proof {
                if index_has_id(iv, secret_id@) {
                    let a = choose|a: int|
                        0 <= a < iv.len() && (#[trigger] iv[a]).secret_id == secret_id@;
                    assert(false);
                }
                lemma_no_id_no_current(iv, secret_id@);
            }
            return Err(SecretStoreError::NotFound);
        }
        let entry = &self.index[i];
        proof {
            assert(entry@ == iv[i as int]);
            assert(iv[i as int].secret_id == secret_id@);
            assert(spec_distinct_blocks(iv[i as int].versions));
            assert(Seq::new(entry.versions@.len(), |k: int| entry.versions@[k]@) =~= iv[
                i as int].versions);
        }
        if entry.versions.len() == 0 {
            proof {
                assert(false);
            }
            return Err(SecretStoreError::NotFound);
        }
        let cur = current_index(&entry.versions);
        let cur_meta = &entry.versions[cur];
        proof {
            assert(cur_meta@ == iv[i as int].versions[cur as int]);
            lemma_entry_current_is_index_current(iv, i as int, cur as int);
            assert forall|m: VersionMetaView|
                #[trigger] is_current_meta(iv, secret_id@, m) implies m == cur_meta@ by {
                lemma_current_meta_unique(iv, secret_id@, m, cur_meta@);
            }
        }
        let bytes = match self.blocks.get_block(cur_meta.block_id.as_str()) {
            Ok(b) => b,
            Err(_) => {
                return Err(SecretStoreError::NotFound);
            },
        };
        proof {
            assert forall|bytes2: Seq<u8>| spec_has_block(
                old(self)@.blocks.entries,
                cur_meta@.block_id,
                bytes2,
            ) implies bytes2 == bytes@ by {
                let a = choose|a: int|
                    0 <= a < old(self)@.blocks.entries.len() && #[trigger] old(
                        self)@.blocks.entries[a] == (cur_meta@.block_id, bytes2);
                let b = choose|b: int|
                    0 <= b < old(self)@.blocks.entries.len() && #[trigger] old(
                        self)@.blocks.entries[b] == (cur_meta@.block_id, bytes@);
                assert(a == b);
            }
        }
        let key = match &self.private_key {
            Some(k) => k,
            None => {
                proof {
                    assert(false);
                }
                return Err(SecretStoreError::Locked);
            },
        };
        let user = match &self.unlocked_by {
            Some(u) => u,
            None => {
                proof {
                    assert(false);
                }
                return Err(SecretStoreError::Locked);
            },
        };
        let current = match try_decrypt_version(user.as_str(), key, bytes.as_slice()) {
            Ok(v) => v,
            Err(e) => {
                return Err(e);
            },
        };
        let mut versions: Vec<SecretVersionRef> = Vec::new();
        let mut j: usize = 0;
        while j < entry.versions.len()
            invariant
                iv == self@.index,
                i < iv.len(),
                entry@ == iv[i as int],
                iv[i as int].secret_id == secret_id@,
                j <= entry.versions@.len(),
                entry@.versions.len() == entry.versions@.len(),
                versions@.len() == j,
                forall|a: int|
                    0 <= a < j ==> (#[trigger] versions@[a])@.block_id == iv[
                        i as int].versions[a].block_id && versions@[a]@.timestamp == iv[
                        i as int].versions[a].timestamp,
            decreases entry.versions@.len() - j,
        {
            let mref = &entry.versions[j];
            proof {
                assert(mref@ == iv[i as int].versions[j as int]);
            }
            versions.push(
                SecretVersionRef { block_id: mref.block_id.clone(), timestamp: mref.timestamp },
            );
            j = j + 1;
        }
        let result = Secret {
            id: secret_id.to_owned(),
            current,
            current_block_id: cur_meta.block_id.clone(),
            versions,
        };
        proof {
            assert forall|a: int| 0 <= a < result.versions@.len() implies exists|
                m2: VersionMetaView,
            |
                #[trigger] index_has_meta(iv, secret_id@, m2) && m2.block_id == (
                #[trigger] result.versions@[a])@.block_id && m2.timestamp
                    == result.versions@[a]@.timestamp by {
                assert(index_has_meta(iv, secret_id@, iv[i as int].versions[a])) by {
                    assert(iv[i as int].versions[a] == iv[i as int].versions[a]);
                }
            }
        }
        Ok(result)
    }

    /// List the secrets whose current version matches the filter, sorted by
    /// name then id. Requires the unlocked state; refreshes the autolock
    /// deadline.
    pub fn list(&mut self, filter: &SecretListFilter, now: u64) -> (r: Result<
        SecretList,
        SecretStoreError,
    >)
        requires
            store_wf(old(self)@),
        ensures
            store_wf(final(self)@),
            final(self)@ == (SecretsStoreView {
                autolock_at: final(self)@.autolock_at,
                ..old(self)@
            }),
            old(self)@.unlocked_by is None ==> (r matches Err(SecretStoreError::Locked)) && final(
                self)@ == old(self)@,
            old(self)@.unlocked_by is Some ==> final(self)@.autolock_at == Some(
                spec_deadline(now, old(self)@.autolock_timeout_millis),
            ),
            old(self)@.unlocked_by is Some <==> r is Ok,
            r matches Ok(list) ==> ({
                &&& (forall|a: int, b: int|
                    0 <= a < b < list.entries@.len() ==> (
                    #[trigger] entry_views(list.entries@)[a]).id != (
                    #[trigger] entry_views(list.entries@)[b]).id)
                &&& spec_entries_sorted(entry_views(list.entries@))
                &&& (forall|sid: Seq<char>, m: VersionMetaView|
                    #![trigger is_current_meta(old(self)@.index, sid, m)]
                    is_current_meta(old(self)@.index, sid, m) && spec_filter_matches(filter@, m)
                        ==> list_has_entry(entry_views(list.entries@), spec_entry_of(sid, m)))
                &&& (forall|e: crate::api::SecretEntryView|
                    #![trigger list_has_entry(entry_views(list.entries@), e)]
                    list_has_entry(entry_views(list.entries@), e) ==> exists|m: VersionMetaView|
                        #[trigger] is_current_meta(old(self)@.index, e.id, m)
                            && spec_filter_matches(filter@, m) && e == spec_entry_of(e.id, m))
            }),
    {
        if self.unlocked_by.is_none() {
            return Err(SecretStoreError::Locked);
        }
        self.touch(now);
        let ghost iv = self@.index;
        let mut picked: Vec<SecretEntry> = Vec::new();
        let mut i: usize = 0;
        while i < self.index.len()
            invariant
                iv == self@.index,
                iv.len() == self.index@.len(),
                i <= iv.len(),
                index_wf(iv),
                forall|a: int| 0 <= a < iv.len() ==> (#[trigger] iv[a]).versions.len() > 0,
                forall|a: int|
                    0 <= a < picked@.len() ==> exists|j: int|
                        0 <= j < i && (#[trigger] entry_views(picked@)[a]).id == (
                        #[trigger] iv[j]).secret_id,
                forall|a: int, b: int|
                    0 <= a < b < picked@.len() ==> (#[trigger] entry_views(picked@)[a]).id != (
                    #[trigger] entry_views(picked@)[b]).id,
                forall|sid: Seq<char>, m: VersionMetaView|
                    #![trigger is_current_meta(iv, sid, m)]
                    is_current_meta(iv, sid, m) && spec_filter_matches(filter@, m) && (exists|
                        a: int,
                    |
                        0 <= a < i && (#[trigger] iv[a]).secret_id == sid) ==> list_has_entry(
                        entry_views(picked@),
                        spec_entry_of(sid, m),
                    ),
                forall|e: crate::api::SecretEntryView|
                    #![trigger list_has_entry(entry_views(picked@), e)]
                    list_has_entry(entry_views(picked@), e) ==> exists|m: VersionMetaView|
                        #[trigger] is_current_meta(iv, e.id, m) && spec_filter_matches(filter@, m)
                            && e == spec_entry_of(e.id, m),
            decreases iv.len() - i,
        {
            let ghost pre_picked = entry_views(picked@);
            let entry = &self.index[i];
            proof {
                assert(entry@ == iv[i as int]);
                assert(Seq::new(entry.versions@.len(), |k: int| entry.versions@[k]@) =~= iv[
                    i as int].versions);
            }
            let cur = current_index(&entry.versions);
            let cur_meta = &entry.versions[cur];
            proof {
                assert(cur_meta@ == iv[i as int].versions[cur as int]);
                lemma_entry_current_is_index_current(iv, i as int, cur as int);
            }
            if filter_matches(filter, cur_meta) {
                let se = SecretEntry {
                    id: entry.secret_id.clone(),
                    name: cur_meta.name.clone(),
                    secret_type: cur_meta.secret_type.clone(),
                    tags: clone_strings(&cur_meta.tags),
                    deleted: cur_meta.deleted,
                };
                proof {
                    assert(se@ =~= spec_entry_of(iv[i as int].secret_id, cur_meta@));
                }
                picked.push(se);
                proof {
                    assert(entry_views(picked@) =~= pre_picked.push(se@));
                    assert forall|a: int| 0 <= a < picked@.len() implies exists|j: int|
                        0 <= j < i + 1 && (#[trigger] entry_views(picked@)[a]).id == (
                        #[trigger] iv[j]).secret_id by {
                        if a < pre_picked.len() {
                            let j = choose|j: int|
                                0 <= j < i && (#[trigger] pre_picked[a]).id == (
                                #[trigger] iv[j]).secret_id;
                            assert(entry_views(picked@)[a] == pre_picked[a]);
                        } else {
                            assert(entry_views(picked@)[a] == se@);
                            assert(se@.id == iv[i as int].secret_id);
                        }
                    }
                    assert forall|a: int, b: int| 0 <= a < b < picked@.len() implies (
                    #[trigger] entry_views(picked@)[a]).id != (
                    #[trigger] entry_views(picked@)[b]).id by {
                        if b == picked@.len() - 1 {
                            assert(entry_views(picked@)[a] == pre_picked[a]);
                            assert(entry_views(picked@)[b] == se@);
                            let j = choose|j: int|
                                0 <= j < i && (#[trigger] pre_picked[a]).id == (
                                #[trigger] iv[j]).secret_id;
                            assert(iv[j].secret_id != iv[i as int].secret_id);
                        } else {
                            assert(entry_views(picked@)[a] == pre_picked[a]);
                            assert(entry_views(picked@)[b] == pre_picked[b]);
                        }
                    }
                    assert forall|e: crate::api::SecretEntryView| list_has_entry(
                        entry_views(picked@),
                        e,
                    ) implies exists|m: VersionMetaView|
                        #[trigger] is_current_meta(iv, e.id, m) && spec_filter_matches(filter@, m)
                            && e == spec_entry_of(e.id, m) by {
                        let a = choose|a: int|
                            0 <= a < entry_views(picked@).len() && #[trigger] entry_views(
                                picked@,
                            )[a] == e;
                        if a < pre_picked.len() {
                            assert(list_has_entry(pre_picked, e)) by {
                                assert(pre_picked[a] == e);
                            }
                        } else {
                            assert(e == se@);
                            assert(is_current_meta(iv, e.id, cur_meta@));
                        }
                    }
                    assert forall|sid: Seq<char>, m: VersionMetaView|
                        is_current_meta(iv, sid, m) && spec_filter_matches(filter@, m) && (exists|
                            a: int,
                        |
                            0 <= a < i + 1 && (#[trigger] iv[a]).secret_id
                                == sid) implies list_has_entry(
                        entry_views(picked@),
                        spec_entry_of(sid, m),
                    ) by {
                        let a = choose|a: int|
                            0 <= a < i + 1 && (#[trigger] iv[a]).secret_id == sid;
                        if a < i {
                            assert(list_has_entry(pre_picked, spec_entry_of(sid, m)));
                            let b = choose|b: int|
                                0 <= b < pre_picked.len() && #[trigger] pre_picked[b]
                                    == spec_entry_of(sid, m);
                            assert(entry_views(picked@)[b] == spec_entry_of(sid, m));
                        } else {
                            assert(sid == iv[i as int].secret_id);
                            lemma_current_meta_unique(iv, sid, m, cur_meta@);
                            assert(entry_views(picked@)[pre_picked.len() as int] == spec_entry_of(
                                sid,
                                m,
                            ));
                        }
                    }
                }
            } else {
                proof {
                    assert forall|sid: Seq<char>, m: VersionMetaView|
                        is_current_meta(iv, sid, m) && spec_filter_matches(filter@, m) && (exists|
                            a: int,
                        |
                            0 <= a < i + 1 && (#[trigger] iv[a]).secret_id
                                == sid) implies list_has_entry(
                        entry_views(picked@),
                        spec_entry_of(sid, m),
                    ) by {
                        let a = choose|a: int|
                            0 <= a < i + 1 && (#[trigger] iv[a]).secret_id == sid;
                        if a == i {
                            lemma_current_meta_unique(iv, sid, m, cur_meta@);
                            assert(false);
                        } else {
                            assert(list_has_entry(pre_picked, spec_entry_of(sid, m)));
                        }
                    }
                }
            }
            i = i + 1;
        }
        let sorted = sort_entries(picked);
        Ok(SecretList { entries: sorted })
    }
}

/// The current version of an index entry is the current meta of its id
/// across the whole index.
proof fn lemma_entry_current_is_index_current(iv: Seq<IndexEntryView>, i: int, cur: int)
    requires
        index_wf(iv),
        0 <= i < iv.len(),
        spec_is_current(iv[i].versions, cur),
    ensures
        is_current_meta(iv, iv[i].secret_id, iv[i].versions[cur]),
{
    let sid = iv[i].secret_id;
    let m = iv[i].versions[cur];
    assert(index_has_meta(iv, sid, m)) by {
        assert(iv[i].versions[cur] == m);
    }
    assert forall|m2: VersionMetaView|
        #![trigger index_has_meta(iv, sid, m2)]
        index_has_meta(iv, sid, m2) && m2 != m implies spec_prefers(m, m2) by {
        let (a, b): (int, int) = choose|a: int, b: int|
            #![trigger iv[a].versions[b]]
            0 <= a < iv.len() && iv[a].secret_id == sid && 0 <= b < iv[a].versions.len()
                && iv[a].versions[b] == m2;
        assert(a == i);
        assert(b != cur);
    }
}

/// An id without an index entry has no indexed metas.
proof fn lemma_no_id_no_current(iv: Seq<IndexEntryView>, sid: Seq<char>)
    requires
        !index_has_id(iv, sid),
    ensures
        forall|m: VersionMetaView| !(#[trigger] index_has_meta(iv, sid, m)),
{
    assert forall|m: VersionMetaView| !(#[trigger] index_has_meta(iv, sid, m)) by {
        if index_has_meta(iv, sid, m) {
            let (a, b): (int, int) = choose|a: int, b: int|
                #![trigger iv[a].versions[b]]
                0 <= a < iv.len() && iv[a].secret_id == sid && 0 <= b < iv[a].versions.len()
                    && iv[a].versions[b] == m;
            assert(index_has_id(iv, sid));
        }
    }
}

/// Two current metas of the same id are equal.
proof fn lemma_current_meta_unique(
    iv: Seq<IndexEntryView>,
    sid: Seq<char>,
    m1: VersionMetaView,
    m2: VersionMetaView,
)
    requires
        is_current_meta(iv, sid, m1),
        is_current_meta(iv, sid, m2),
    ensures
        m1 == m2,
{
    if m1 != m2 {
        assert(spec_prefers(m1, m2));
        assert(spec_prefers(m2, m1));
        lemma_lex_less_connected(encode_utf8(m1.block_id), encode_utf8(m2.block_id));
        if m1.deleted == m2.deleted && m1.timestamp == m2.timestamp {
            lemma_lex_less_trans(encode_utf8(m1.block_id), encode_utf8(m2.block_id), encode_utf8(
                m1.block_id,
            ));
            lemma_lex_less_irrefl(encode_utf8(m1.block_id));
        }
    }
}

/// Nothing is lexicographically below itself.
proof fn lemma_lex_less_irrefl(a: Seq<u8>)
    ensures
        !spec_lex_less(a, a),
    decreases a.len(),
{
    if a.len() > 0 {
        lemma_lex_less_irrefl(a.drop_first());
    }
}

/// After a version is stored and indexed, a listing whose filter matches
/// it contains its secret id: when the new version's meta is the current
/// one of its secret and the filter accepts it, the listing (as `list`
/// promises it) has the derived entry, which carries the secret id.
pub proof fn lemma_added_secret_listed(
    index: Seq<IndexEntryView>,
    v: SecretVersionView,
    block_id: Seq<char>,
    filter: crate::api::SecretListFilterView,
    listed: Seq<crate::api::SecretEntryView>,
)
    requires
        index_has_meta(index, v.secret_id, spec_meta_of(v, block_id)),
        forall|m2: VersionMetaView|
            #![trigger index_has_meta(index, v.secret_id, m2)]
            index_has_meta(index, v.secret_id, m2) && m2 != spec_meta_of(v, block_id)
                ==> spec_prefers(spec_meta_of(v, block_id), m2),
        spec_filter_matches(filter, spec_meta_of(v, block_id)),
        forall|sid: Seq<char>, m: VersionMetaView|
            #![trigger is_current_meta(index, sid, m)]
            is_current_meta(index, sid, m) && spec_filter_matches(filter, m) ==> list_has_entry(
                listed,
                spec_entry_of(sid, m),
            ),
    ensures
        exists|i: int| 0 <= i < listed.len() && (#[trigger] listed[i]).id == v.secret_id,
{
    let m = spec_meta_of(v, block_id);
    assert(is_current_meta(index, v.secret_id, m));
    assert(list_has_entry(listed, spec_entry_of(v.secret_id, m)));
    let i = choose|i: int|
        0 <= i < listed.len() && #[trigger] listed[i] == spec_entry_of(v.secret_id, m);
    assert(listed[i].id == v.secret_id);
}

/// The store is locked exactly when no private key is open in memory, and
/// exactly when no identity is recorded as having unlocked it.
pub proof fn lemma_status_reflects_key(v: SecretsStoreView)
    requires
        store_wf(v),
    ensures
        v.unlocked_by is None <==> v.key is None,
        v.unlocked_by is None <==> v.autolock_at is None,
{
}

/// A ring entry created from a passphrase can be unlocked with that
/// passphrase: the sealed private key it holds verifies under the seal key
/// derived with its own KDF parameters, which is the condition under which
/// `unlock_with_seal_key` promises success.
pub proof fn lemma_fresh_identity_unlocks(e: RingEntryView, passphrase: Seq<u8>)
    requires
        exists|k: Seq<u8>|
            e.public_key == #[trigger] x25519_public(k) && k.len() == 32
                && is_sealed_private_key(
                kdf_of(passphrase, e.kdf_salt, e.kdf_cost),
                e.private_key_nonce,
                k,
                e.sealed_private_key,
            ),
    ensures
        e.sealed_private_key.len() == 48,
        e.sealed_private_key.skip(32) == chacha_tag(
            kdf_of(passphrase, e.kdf_salt, e.kdf_cost),
            e.private_key_nonce,
            e.sealed_private_key.take(32),
        ),
{
    let k = choose|k: Seq<u8>|
        e.public_key == #[trigger] x25519_public(k) && k.len() == 32 && is_sealed_private_key(
            kdf_of(passphrase, e.kdf_salt, e.kdf_cost),
            e.private_key_nonce,
            k,
            e.sealed_private_key,
        );
    assert(e.sealed_private_key.len() == k.len() + 16);
}

/// Every ring entry read back from a blob carries well-formed key material.
fn ring_entries_ok(entries: &Vec<RingEntry>) -> (r: bool)
    ensures
        r <==> ring_wf(entry_seq_view(entries@)),
{
    let ghost es = entry_seq_view(entries@);
    let mut i: usize = 0;
    while i < entries.len()
        invariant
            i <= entries@.len(),
            es == entry_seq_view(entries@),
            es.len() == entries@.len(),
            forall|j: int|
                0 <= j < i ==> {
                    let e = #[trigger] es[j];
                    &&& e.public_key.len() == 32
                    &&& e.private_key_nonce.len() == 12
                    &&& e.sealed_private_key.len() == 48
                    &&& 1 <= e.kdf_cost <= 0x7fff_ffff
                    &&& e.kdf_salt.len() <= 0x7fff_ffff
                },
            forall|j: int, k: int|
                0 <= j < k < i ==> (#[trigger] es[j]).id != (#[trigger] es[k]).id,
        decreases entries@.len() - i,
    {
        let e = &entries[i];
        if e.public_key.len() != 32 || e.private_key_nonce.len() != 12
            || e.sealed_private_key.len() != 48 || e.kdf_cost < 1 || e.kdf_cost > 0x7fff_ffff || (
        e.kdf_salt.len() as u64) > 0x7fff_ffff {
            proof {
                assert(es[i as int] == entries@[i as int]@);
            }
            return false;
        }
        let mut j: usize = 0;
        while j < i
            invariant
                j <= i < entries@.len(),
                es == entry_seq_view(entries@),
                es.len() == entries@.len(),
                forall|k: int| 0 <= k < j ==> (#[trigger] es[k]).id != es[i as int].id,
            decreases i - j,
        {
            if str_eq(entries[j].id.as_str(), entries[i].id.as_str()) {
                proof {
                    assert(es[j as int].id == es[i as int].id);
                }
                return false;
            }
            proof {
                assert(es[j as int].id != es[i as int].id);
            }
            j = j + 1;
        }
        proof {
            assert(es[i as int] == entries@[i as int]@);
            assert forall|k2: int, k3: int| 0 <= k2 < k3 < i + 1 implies (#[trigger] es[k2]).id != (
            #[trigger] es[k3]).id by {
                if k3 == i {
                    assert(es[k2].id != es[i as int].id);
                }
            }
        }
        i = i + 1;
    }
    true
}

/// The metas that blocks before `upto` contribute to the index for `user`
/// holding `key`.
pub open spec fn spec_rebuilt(
    entries: Seq<(Seq<char>, Seq<u8>)>,
    user: Seq<char>,
    key: Seq<u8>,
    upto: int,
    sid: Seq<char>,
    m: VersionMetaView,
) -> bool {
    exists|bi: int, w: SecretVersionView|
        #![trigger spec_block_yields(entries[bi].1, user, key, w)]
        0 <= bi < upto && spec_block_yields(entries[bi].1, user, key, w) && w.secret_id == sid && m
            == spec_meta_of(w, entries[bi].0)
}

/// Clone a vector of strings.
fn clone_strings(items: &Vec<String>) -> (r: Vec<String>)
    ensures
        crate::api::str_seq_view(r@) == crate::api::str_seq_view(items@),
{
    let mut out: Vec<String> = Vec::new();
    let mut i: usize = 0;
    while i < items.len()
        invariant
            i <= items@.len(),
            out@.len() == i,
            forall|j: int| 0 <= j < i ==> (#[trigger] out@[j])@ == items@[j]@,
        decreases items@.len() - i,
    {
        out.push(items[i].clone());
        i = i + 1;
    }
    proof {
        assert(crate::api::str_seq_view(out@) =~= crate::api::str_seq_view(items@));
    }
    out
}

/// The cached fields of a version, under the block that stores it.
fn version_meta(v: &SecretVersion, block_id: String) -> (r: VersionMeta)
    ensures
        r@ == spec_meta_of(v@, block_id@),
{
    let r = VersionMeta {
        timestamp: v.timestamp,
        block_id,
        name: v.name.clone(),
        secret_type: v.secret_type.clone(),
        tags: clone_strings(&v.tags),
        deleted: v.deleted,
    };
    proof {
        assert(r@ =~= spec_meta_of(v@, r@.block_id));
    }
    r
}

/// Insert a version meta under its secret id: extend the secret's entry, or
/// open a new one. The meta's block must be new to the index.
fn insert_meta(index: &mut Vec<IndexEntry>, secret_id: &String, m: VersionMeta)
    requires
        index_wf(index_view(old(index)@)),
        forall|sid2: Seq<char>, m2: VersionMetaView|
            index_has_meta(index_view(old(index)@), sid2, m2) ==> m2.block_id != m@.block_id,
        forall|i: int|
            0 <= i < old(index)@.len() ==> (#[trigger] index_view(old(index)@)[i]).versions.len()
                > 0,
    ensures
        index_wf(index_view(final(index)@)),
        forall|i: int|
            0 <= i < final(index)@.len() ==> (#[trigger] index_view(final(index)@)[i]).versions.len()
                > 0,
        forall|sid2: Seq<char>, m2: VersionMetaView|
            #![trigger index_has_meta(index_view(final(index)@), sid2, m2)]
            index_has_meta(index_view(final(index)@), sid2, m2) <==> (index_has_meta(
                index_view(old(index)@),
                sid2,
                m2,
            ) || (sid2 == secret_id@ && m2 == m@)),
        forall|sid2: Seq<char>|
            #![trigger index_has_id(index_view(final(index)@), sid2)]
            index_has_id(index_view(final(index)@), sid2) <==> (index_has_id(
                index_view(old(index)@),
                sid2,
            ) || sid2 == secret_id@),
{
    let ghost pre = index_view(old(index)@);
    let ghost mv = m@;
    let mut i: usize = 0;
    while i < index.len()
        invariant
            i <= index@.len(),
            index@ == old(index)@,
            forall|j: int| 0 <= j < i ==> (#[trigger] pre[j]).secret_id != secret_id@,
            pre == index_view(index@),
            mv == m@,
            index_wf(pre),
            forall|sid2: Seq<char>, m2: VersionMetaView|
                index_has_meta(pre, sid2, m2) ==> m2.block_id != mv.block_id,
            forall|i2: int| 0 <= i2 < pre.len() ==> (#[trigger] pre[i2]).versions.len() > 0,
        decreases index@.len() - i,
    {
        if str_eq(index[i].secret_id.as_str(), secret_id.as_str()) {
            proof {
                assert(pre[i as int].secret_id == secret_id@);
            }
            let mut e = index.swap_remove(i);
            let ghost evs = e@.versions;
            let ghost evs_exec = e.versions@;
            e.versions.push(m);
            proof {
                assert(e.versions@ == evs_exec.push(m));
                assert(e@.versions =~= evs.push(mv)) by {
                    assert forall|j3: int| 0 <= j3 < e@.versions.len() implies e@.versions[j3]
                        == evs.push(mv)[j3] by {
                        assert(e@.versions[j3] == e.versions@[j3]@);
                        if j3 < evs.len() {
                            assert(e.versions@[j3] == evs_exec[j3]);
                            assert(evs[j3] == evs_exec[j3]@);
                            assert(evs.push(mv)[j3] == evs[j3]);
                        } else {
                            assert(e.versions@[j3] == m);
                            assert(evs.push(mv)[j3] == mv);
                        }
                    }
                }
                assert forall|j2: int, k2: int| 0 <= j2 < k2 < e@.versions.len() implies (
                #[trigger] e@.versions[j2]).block_id != (#[trigger] e@.versions[k2]).block_id by {
                    if k2 == e@.versions.len() - 1 {
                        assert(index_has_meta(pre, secret_id@, evs[j2])) by {
                            assert(pre[i as int].versions[j2] == evs[j2]);
                        }
                    } else {
                        assert(pre[i as int].versions[j2] == evs[j2]);
                        assert(pre[i as int].versions[k2] == evs[k2]);
                    }
                }
            }
            index.push(e);
            proof {
                let post = index_view(index@);
                let n = pre.len();
                assert(post.len() == n);
                assert(post[n - 1].secret_id == secret_id@);
                assert(post[n - 1].versions == evs.push(mv));
                assert forall|a: int| 0 <= a < n - 1 implies post[a] == (if a == i {
                    pre[n - 1]
                } else {
                    pre[a]
                }) by {
                    assert(post[a] == index@[a]@);
                    if a == i {
                        assert(index@[a] == old(index)@[n - 1]);
                    } else {
                        assert(index@[a] == old(index)@[a]);
                    }
                }
                assert forall|sid2: Seq<char>, m2: VersionMetaView| index_has_meta(
                    post,
                    sid2,
                    m2,
                ) implies (index_has_meta(pre, sid2, m2) || (sid2 == secret_id@ && m2 == mv)) by {
                    let (a, b): (int, int) = choose|a: int, b: int|
                        #![trigger post[a].versions[b]]
                        0 <= a < post.len() && post[a].secret_id == sid2 && 0 <= b
                            < post[a].versions.len() && post[a].versions[b] == m2;
                    if a == n - 1 {
                        if b < evs.len() {
                            assert(pre[i as int].versions[b] == evs[b]);
                            assert(index_has_meta(pre, sid2, m2));
                        }
                    } else if a == i {
                        assert(pre[n - 1].versions[b] == m2);
                        assert(index_has_meta(pre, sid2, m2));
                    } else {
                        assert(pre[a].versions[b] == m2);
                        assert(index_has_meta(pre, sid2, m2));
                    }
                }
                assert forall|sid2: Seq<char>, m2: VersionMetaView| (index_has_meta(pre, sid2, m2)
                    || (sid2 == secret_id@ && m2 == mv)) implies index_has_meta(
                    post,
                    sid2,
                    m2,
                ) by {
                    if index_has_meta(pre, sid2, m2) {
                        let (a, b): (int, int) = choose|a: int, b: int|
                            #![trigger pre[a].versions[b]]
                            0 <= a < pre.len() && pre[a].secret_id == sid2 && 0 <= b
                                < pre[a].versions.len() && pre[a].versions[b] == m2;
                        if a == i {
                            assert(evs.push(mv)[b] == m2);
                            assert(post[n - 1].versions[b] == m2);
                        } else if a == n - 1 && i < n - 1 {
                            assert(post[i as int].versions[b] == m2);
                        } else {
                            assert(post[a].versions[b] == m2);
                        }
                    } else {
                        assert(post[n - 1].versions[evs.len() as int] == mv);
                    }
                }
                assert forall|sid2: Seq<char>| index_has_id(post, sid2) <==> (index_has_id(
                    pre,
                    sid2,
                ) || sid2 == secret_id@) by {
                    if index_has_id(pre, sid2) {
                        let a = choose|a: int|
                            0 <= a < pre.len() && (#[trigger] pre[a]).secret_id == sid2;
                        if a == i {
                            assert(post[n - 1].secret_id == sid2);
                        } else if a == n - 1 && i < n - 1 {
                            assert(post[i as int].secret_id == sid2);
                        } else {
                            assert(post[a].secret_id == sid2);
                        }
                    }
                    if index_has_id(post, sid2) {
                        let a = choose|a: int|
                            0 <= a < post.len() && (#[trigger] post[a]).secret_id == sid2;
                        if a == n - 1 {
                            assert(pre[i as int].secret_id == sid2);
                        } else if a == i {
                            assert(pre[n - 1].secret_id == sid2);
                        } else {
                            assert(pre[a].secret_id == sid2);
                        }
                    }
                    if sid2 == secret_id@ {
                        assert(post[n - 1].secret_id == sid2);
                    }
                }
                assert forall|j2: int, k2: int| 0 <= j2 < k2 < post.len() implies (
                #[trigger] post[j2]).secret_id != (#[trigger] post[k2]).secret_id by {
                    if k2 == n - 1 {
                        if j2 == i {
                            assert(post[j2].secret_id == pre[n - 1].secret_id);
                            assert(pre[i as int].secret_id != pre[n - 1].secret_id);
                        } else {
                            assert(post[j2].secret_id == pre[j2].secret_id);
                        }
                    } else if j2 == i {
                        assert(post[j2].secret_id == pre[n - 1].secret_id);
                        assert(post[k2].secret_id == pre[k2].secret_id);
                        assert(k2 < n - 1);
                    } else if k2 == i {
                        assert(post[j2].secret_id == pre[j2].secret_id);
                        assert(post[k2].secret_id == pre[n - 1].secret_id);
                    } else {
                        assert(post[j2].secret_id == pre[j2].secret_id);
                        assert(post[k2].secret_id == pre[k2].secret_id);
                    }
                }
                assert forall|i2: int| 0 <= i2 < post.len() implies (
                #[trigger] post[i2]).versions.len() > 0 by {
                    if i2 == n - 1 {
                    } else if i2 == i {
                        assert(post[i2] == pre[n - 1]);
                    } else {
                        assert(post[i2] == pre[i2]);
                    }
                }
            }
            return ;
        }
        proof {
            assert(pre[i as int].secret_id != secret_id@);
        }
        i = i + 1;
    }
    let mut versions: Vec<VersionMeta> = Vec::new();
    versions.push(m);
    let e = IndexEntry { secret_id: secret_id.clone(), versions };
    index.push(e);
    proof {
        let post = index_view(index@);
        assert(post =~= pre.push(index@[index@.len() - 1]@));
        assert(post[post.len() - 1].versions =~= seq![mv]);
        assert forall|sid2: Seq<char>, m2: VersionMetaView| index_has_meta(
            post,
            sid2,
            m2,
        ) implies (index_has_meta(pre, sid2, m2) || (sid2 == secret_id@ && m2 == mv)) by {
            let (a, b): (int, int) = choose|a: int, b: int|
                #![trigger post[a].versions[b]]
                0 <= a < post.len() && post[a].secret_id == sid2 && 0 <= b < post[a].versions.len()
                    && post[a].versions[b] == m2;
            if a < post.len() - 1 {
                assert(pre[a].versions[b] == m2);
                assert(index_has_meta(pre, sid2, m2));
            }
        }
        assert forall|sid2: Seq<char>, m2: VersionMetaView| (index_has_meta(pre, sid2, m2) || (sid2
            == secret_id@ && m2 == mv)) implies index_has_meta(post, sid2, m2) by {
            if index_has_meta(pre, sid2, m2) {
                let (a, b): (int, int) = choose|a: int, b: int|
                    #![trigger pre[a].versions[b]]
                    0 <= a < pre.len() && pre[a].secret_id == sid2 && 0 <= b
                        < pre[a].versions.len() && pre[a].versions[b] == m2;
                assert(post[a].versions[b] == m2);
            } else {
                assert(post[post.len() - 1].versions[0] == mv);
            }
        }
        assert forall|sid2: Seq<char>| index_has_id(post, sid2) <==> (index_has_id(pre, sid2)
            || sid2 == secret_id@) by {
            if index_has_id(pre, sid2) {
                let a = choose|a: int| 0 <= a < pre.len() && (#[trigger] pre[a]).secret_id == sid2;
                assert(post[a].secret_id == sid2);
            }
            if index_has_id(post, sid2) {
                let a = choose|a: int| 0 <= a < post.len() && (#[trigger] post[a]).secret_id
                    == sid2;
                if a < post.len() - 1 {
                    assert(pre[a].secret_id == sid2);
                }
            }
            if sid2 == secret_id@ {
                assert(post[post.len() - 1].secret_id == sid2);
            }
        }
        assert forall|j2: int, k2: int| 0 <= j2 < k2 < post.len() implies (
        #[trigger] post[j2]).secret_id != (#[trigger] post[k2]).secret_id by {
            if k2 == post.len() - 1 {
                assert(pre[j2].secret_id != secret_id@);
            } else {
                assert(pre[j2].secret_id == post[j2].secret_id);
                assert(pre[k2].secret_id == post[k2].secret_id);
            }
        }
        assert forall|i2: int| 0 <= i2 < post.len() implies (
        #[trigger] post[i2]).versions.len() > 0 by {
            if i2 < post.len() - 1 {
                assert(post[i2] == pre[i2]);
            }
        }
    }
}

} // verus!
