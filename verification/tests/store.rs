use t_rust_less::api::{Identity, Property, SecretListFilter, SecretVersion};
use t_rust_less::block_store::BlockStore;
use t_rust_less::memguard::SecretBytes;
use t_rust_less::cipher::RustX25519ChaCha20Poly1305Cipher as Cipher;
use t_rust_less::secrets_store::SecretsStore;

fn identity(id: &str, name: &str, email: &str) -> Identity {
    Identity {
        id: id.to_string(),
        name: name.to_string(),
        email: email.to_string(),
    }
}

fn passphrase(text: &str) -> SecretBytes {
    SecretBytes::from_vec(text.as_bytes().to_vec())
}

fn version(secret_id: &str, timestamp: u64, name: &str) -> SecretVersion {
    SecretVersion {
        secret_id: secret_id.to_string(),
        timestamp,
        name: name.to_string(),
        secret_type: "login".to_string(),
        tags: vec!["work".to_string()],
        urls: vec!["https://example.test".to_string()],
        properties: vec![
            Property {
                name: "username".to_string(),
                value: "alice@example.test".to_string(),
            },
            Property {
                name: "password".to_string(),
                value: "s3cr3t".to_string(),
            },
        ],
        attachments: vec![],
        deleted: false,
    }
}

fn fresh_store() -> SecretsStore {
    SecretsStore::open(1000, BlockStore::new()).expect("open store")
}

#[test]
fn fresh_store_is_locked() {
    let store = fresh_store();
    let status = store.status();
    assert!(status.locked);
    assert!(status.unlocked_by.is_none());
    assert!(status.autolock_at.is_none());
}

#[test]
fn unlock_with_right_passphrase_succeeds() {
    let mut store = fresh_store();
    store
        .add_identity(&identity("alice", "Alice", "alice@example.test"), &passphrase("pw1"))
        .expect("add identity");
    store.unlock("alice", &passphrase("pw1"), 10).expect("unlock");
    let status = store.status();
    assert!(!status.locked);
    assert_eq!(status.unlocked_by.as_deref(), Some("alice"));
    assert_eq!(status.autolock_at, Some(1010));
}

#[test]
fn unlock_with_wrong_passphrase_fails_and_stays_locked() {
    let mut store = fresh_store();
    store
        .add_identity(&identity("alice", "Alice", "alice@example.test"), &passphrase("pw1"))
        .expect("add identity");
    let r = store.unlock("alice", &passphrase("pw2"), 10);
    assert!(matches!(
        r,
        Err(t_rust_less::error::SecretStoreError::InvalidPassphrase)
    ));
    assert!(store.status().locked);
}

#[test]
fn unlock_unknown_identity_fails() {
    let mut store = fresh_store();
    store
        .add_identity(&identity("alice", "Alice", "alice@example.test"), &passphrase("pw1"))
        .expect("add identity");
    let r = store.unlock("bob", &passphrase("pw1"), 10);
    assert!(matches!(r, Err(t_rust_less::error::SecretStoreError::NotFound)));
}

#[test]
fn duplicate_identity_is_rejected() {
    let mut store = fresh_store();
    store
        .add_identity(&identity("alice", "Alice", "alice@example.test"), &passphrase("pw1"))
        .expect("add identity");
    let r = store.add_identity(&identity("alice", "Alice II", "a2@example.test"), &passphrase("pw2"));
    assert!(matches!(r, Err(t_rust_less::error::SecretStoreError::Conflict)));
    assert_eq!(store.identities().len(), 1);
}

#[test]
fn lock_is_idempotent_and_wipes_state() {
    let mut store = fresh_store();
    store
        .add_identity(&identity("alice", "Alice", "alice@example.test"), &passphrase("pw1"))
        .expect("add identity");
    store.unlock("alice", &passphrase("pw1"), 0).expect("unlock");
    assert!(!store.status().locked);
    store.lock();
    assert!(store.status().locked);
    assert!(store.status().autolock_at.is_none());
    store.lock();
    assert!(store.status().locked);
}

#[test]
fn add_then_list_contains_the_secret() {
    let mut store = fresh_store();
    store
        .add_identity(&identity("alice", "Alice", "alice@example.test"), &passphrase("pw1"))
        .expect("add identity");
    store.unlock("alice", &passphrase("pw1"), 0).expect("unlock");
    store.add(&version("mail", 5, "Mail account"), 1).expect("add");
    let filter = SecretListFilter {
        name: Some("Mail".to_string()),
        tag: None,
        secret_type: None,
        deleted: false,
    };
    let list = store.list(&filter, 2).expect("list");
    assert_eq!(list.entries.len(), 1);
    assert_eq!(list.entries[0].id, "mail");
    assert_eq!(list.entries[0].name, "Mail account");
}

#[test]
fn list_filters_by_tag_type_and_deleted() {
    let mut store = fresh_store();
    store
        .add_identity(&identity("alice", "Alice", "alice@example.test"), &passphrase("pw1"))
        .expect("add identity");
    store.unlock("alice", &passphrase("pw1"), 0).expect("unlock");
    store.add(&version("mail", 5, "Mail account"), 1).expect("add");
    let mut other = version("note", 6, "A note");
    other.secret_type = "note".to_string();
    other.tags = vec!["private".to_string()];
    store.add(&other, 1).expect("add");

    let by_tag = SecretListFilter {
        name: None,
        tag: Some("work".to_string()),
        secret_type: None,
        deleted: false,
    };
    let list = store.list(&by_tag, 2).expect("list");
    assert_eq!(list.entries.len(), 1);
    assert_eq!(list.entries[0].id, "mail");

    let by_type = SecretListFilter {
        name: None,
        tag: None,
        secret_type: Some("note".to_string()),
        deleted: false,
    };
    let list = store.list(&by_type, 2).expect("list");
    assert_eq!(list.entries.len(), 1);
    assert_eq!(list.entries[0].id, "note");

    let deleted_only = SecretListFilter {
        name: None,
        tag: None,
        secret_type: None,
        deleted: true,
    };
    let list = store.list(&deleted_only, 2).expect("list");
    assert_eq!(list.entries.len(), 0);
}

#[test]
fn list_is_sorted_by_name() {
    let mut store = fresh_store();
    store
        .add_identity(&identity("alice", "Alice", "alice@example.test"), &passphrase("pw1"))
        .expect("add identity");
    store.unlock("alice", &passphrase("pw1"), 0).expect("unlock");
    store.add(&version("b", 5, "Zebra"), 1).expect("add");
    store.add(&version("a", 5, "Apple"), 1).expect("add");
    store.add(&version("c", 5, "Mango"), 1).expect("add");
    let list = store.list(&SecretListFilter::all(), 2).expect("list");
    let names: Vec<&str> = list.entries.iter().map(|e| e.name.as_str()).collect();
    assert_eq!(names, vec!["Apple", "Mango", "Zebra"]);
}

#[test]
fn every_identity_can_decrypt_what_one_added() {
    // Scenario: two identities; a secret stored under one is read under the
    // other after a lock round.
    let mut store = fresh_store();
    store
        .add_identity(&identity("alice", "Alice", "alice@example.test"), &passphrase("pw1"))
        .expect("add alice");
    store
        .add_identity(&identity("bob", "Bob", "bob@example.test"), &passphrase("pw2"))
        .expect("add bob");
    store.unlock("alice", &passphrase("pw1"), 0).expect("unlock alice");
    store.add(&version("mail", 5, "Mail account"), 1).expect("add");
    store.lock();
    store.unlock("bob", &passphrase("pw2"), 2).expect("unlock bob");
    let secret = store.get("mail", 3).expect("get");
    assert_eq!(secret.id, "mail");
    assert_eq!(secret.current.name, "Mail account");
    assert_eq!(secret.current.properties[1].value, "s3cr3t");
    assert_eq!(secret.versions.len(), 1);
}

#[test]
fn newest_version_wins() {
    let mut store = fresh_store();
    store
        .add_identity(&identity("alice", "Alice", "alice@example.test"), &passphrase("pw1"))
        .expect("add identity");
    store.unlock("alice", &passphrase("pw1"), 0).expect("unlock");
    store.add(&version("mail", 5, "Old name"), 1).expect("add");
    store.add(&version("mail", 9, "New name"), 1).expect("add");
    let secret = store.get("mail", 2).expect("get");
    assert_eq!(secret.current.name, "New name");
    assert_eq!(secret.versions.len(), 2);
}

#[test]
fn get_unknown_secret_reports_not_found() {
    let mut store = fresh_store();
    store
        .add_identity(&identity("alice", "Alice", "alice@example.test"), &passphrase("pw1"))
        .expect("add identity");
    store.unlock("alice", &passphrase("pw1"), 0).expect("unlock");
    assert!(matches!(
        store.get("missing", 1),
        Err(t_rust_less::error::SecretStoreError::NotFound)
    ));
}

#[test]
fn index_is_rebuilt_on_unlock() {
    let mut store = fresh_store();
    store
        .add_identity(&identity("alice", "Alice", "alice@example.test"), &passphrase("pw1"))
        .expect("add identity");
    store.unlock("alice", &passphrase("pw1"), 0).expect("unlock");
    store.add(&version("mail", 5, "Mail account"), 1).expect("add");
    store.lock();
    assert!(matches!(
        store.list(&SecretListFilter::all(), 2),
        Err(t_rust_less::error::SecretStoreError::Locked)
    ));
    store.unlock("alice", &passphrase("pw1"), 3).expect("unlock again");
    let list = store.list(&SecretListFilter::all(), 4).expect("list");
    assert_eq!(list.entries.len(), 1);
}

#[test]
fn get_version_roundtrip_and_tamper_detection() {
    // Scenario: one byte of a stored block flipped on disk makes the read
    // fail with a cipher error.
    let mut store = fresh_store();
    store
        .add_identity(&identity("alice", "Alice", "alice@example.test"), &passphrase("pw1"))
        .expect("add identity");
    store.unlock("alice", &passphrase("pw1"), 0).expect("unlock");
    let block_id = store.add(&version("mail", 5, "Mail account"), 1).expect("add");
    let fetched = store.get_version(block_id.as_str(), 2).expect("get_version");
    assert_eq!(fetched.name, "Mail account");

    let mut tampered = store.export_block(block_id.as_str()).expect("export");
    let last = tampered.len() - 1;
    tampered[last] ^= 0x01;
    let ring = store.export_ring().expect("ring blob");

    let mut disk = BlockStore::new();
    disk.store_ring(ring);
    disk.load_block(block_id.clone(), tampered).expect("load");
    let mut reopened = SecretsStore::open(1000, disk).expect("reopen");
    reopened.unlock("alice", &passphrase("pw1"), 0).expect("unlock");
    let r = reopened.get_version(block_id.as_str(), 1);
    assert!(matches!(
        r,
        Err(t_rust_less::error::SecretStoreError::Cipher(_))
    ));
}

#[test]
fn persisted_store_reopens_from_exported_parts() {
    let mut store = fresh_store();
    store
        .add_identity(&identity("alice", "Alice", "alice@example.test"), &passphrase("pw1"))
        .expect("add identity");
    store.unlock("alice", &passphrase("pw1"), 0).expect("unlock");
    let block_id = store.add(&version("mail", 5, "Mail account"), 1).expect("add");

    let mut disk = BlockStore::new();
    disk.store_ring(store.export_ring().expect("ring"));
    let bytes = store.export_block(block_id.as_str()).expect("bytes");
    disk.load_block(block_id.clone(), bytes).expect("load");

    let mut reopened = SecretsStore::open(1000, disk).expect("reopen");
    reopened.unlock("alice", &passphrase("pw1"), 0).expect("unlock");
    let secret = reopened.get("mail", 1).expect("get");
    assert_eq!(secret.current.properties[0].value, "alice@example.test");
}

#[test]
fn content_addressing_is_idempotent() {
    // Scenario: storing the same bytes twice yields the same id and a
    // single entry.
    let mut blocks = BlockStore::new();
    let id1 = blocks.store_block(vec![1, 2, 3, 4]);
    let id2 = blocks.store_block(vec![1, 2, 3, 4]);
    assert_eq!(id1, id2);
    assert_eq!(id1.len(), 64);
    assert_eq!(blocks.list_blocks().len(), 1);
    let id3 = blocks.store_block(vec![1, 2, 3, 5]);
    assert_ne!(id1, id3);
    assert_eq!(blocks.list_blocks().len(), 2);
    assert_eq!(blocks.get_block(id1.as_str()).expect("get"), vec![1, 2, 3, 4]);
    assert!(matches!(
        blocks.get_block("00"),
        Err(t_rust_less::error::SecretStoreError::NotFound)
    ));
}

#[test]
fn secret_memory_wipes_its_source() {
    // Scenario: moving bytes into secret memory leaves only zeros behind,
    // and an explicit wipe zeroes the buffer itself.
    let mut source = vec![0x41u8, 0x42, 0x43];
    let mut secret = SecretBytes::from_mut(&mut source);
    assert!(source.is_empty());
    assert_eq!(secret.borrow(), &[0x41, 0x42, 0x43]);
    secret.wipe();
    assert!(secret.is_empty());
}

#[test]
fn envelope_encryption_differs_between_runs() {
    // Scenario: encrypting the same plaintext twice uses a fresh seal key
    // and nonce, so the ciphertexts differ.
    let (public_key, _private_key) = Cipher::generate_key_pair().expect("key pair");
    let recipients = vec![("alice".to_string(), public_key)];
    let data = SecretBytes::from_vec(b"attack at dawn".to_vec());
    let one = Cipher::encrypt(&recipients, &data).expect("encrypt");
    let two = Cipher::encrypt(&recipients, &data).expect("encrypt");
    assert_ne!(one.ciphertext, two.ciphertext);
    assert_ne!(
        one.header.recipients[0].crypted_key,
        two.header.recipients[0].crypted_key
    );
}

#[test]
fn envelope_roundtrip_and_bit_flips() {
    // Scenario: every recipient can decrypt; a single flipped bit in the
    // ciphertext or in a wrapped key surfaces as a cipher error.
    let (alice_public, alice_private) = Cipher::generate_key_pair().expect("alice");
    let (bob_public, bob_private) = Cipher::generate_key_pair().expect("bob");
    let recipients = vec![
        ("alice".to_string(), alice_public),
        ("bob".to_string(), bob_public),
    ];
    let data = SecretBytes::from_vec(b"attack at dawn".to_vec());
    let block = Cipher::encrypt(&recipients, &data).expect("encrypt");

    let alice_plain = Cipher::decrypt("alice", &alice_private, &block.header, &block.ciphertext)
        .expect("alice decrypts");
    assert_eq!(alice_plain.borrow(), b"attack at dawn");
    let bob_plain = Cipher::decrypt("bob", &bob_private, &block.header, &block.ciphertext)
        .expect("bob decrypts");
    assert_eq!(bob_plain.borrow(), b"attack at dawn");

    let r = Cipher::decrypt("carol", &alice_private, &block.header, &block.ciphertext);
    assert!(matches!(
        r,
        Err(t_rust_less::error::SecretStoreError::NoRecipient)
    ));

    let mut flipped = block.ciphertext.clone();
    flipped[0] ^= 0x80;
    let r = Cipher::decrypt("alice", &alice_private, &block.header, &flipped);
    assert!(matches!(
        r,
        Err(t_rust_less::error::SecretStoreError::Cipher(_))
    ));

    let mut bad_header = t_rust_less::block::BlockHeader {
        block_type: block.header.block_type,
        common_key: block.header.common_key.clone(),
        recipients: Vec::new(),
    };
    for rec in &block.header.recipients {
        bad_header.recipients.push(t_rust_less::block::Recipient {
            id: rec.id.clone(),
            crypted_key: rec.crypted_key.clone(),
        });
    }
    bad_header.recipients[0].crypted_key[40] ^= 0x01;
    let r = Cipher::decrypt("alice", &alice_private, &bad_header, &block.ciphertext);
    assert!(matches!(
        r,
        Err(t_rust_less::error::SecretStoreError::Cipher(_))
    ));
}

#[test]
fn seal_and_open_private_key_roundtrip() {
    // Scenario: opening a sealed private key under the same seal key and
    // nonce recovers it; a wrong seal key fails.
    let seal_key = SecretBytes::from_vec(vec![7u8; 32]);
    let nonce = vec![9u8; 12];
    let key = SecretBytes::from_vec(vec![3u8; 32]);
    let sealed = Cipher::seal_private_key(&seal_key, &nonce, &key).expect("seal");
    assert_eq!(sealed.len(), 48);
    let opened = Cipher::open_private_key(&seal_key, &nonce, &sealed).expect("open");
    assert_eq!(opened.borrow(), &[3u8; 32]);

    let wrong = SecretBytes::from_vec(vec![8u8; 32]);
    assert!(Cipher::open_private_key(&wrong, &nonce, &sealed).is_err());
    assert!(matches!(
        Cipher::open_private_key(&seal_key, &nonce, &sealed[0..8]),
        Err(t_rust_less::error::SecretStoreError::Cipher(_))
    ));
}
