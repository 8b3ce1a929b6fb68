use t_rust_less::api::{property_label, Attachment, Property, SecretVersion};
use t_rust_less::block::{Block, BlockHeader, Recipient};
use t_rust_less::block_store::to_hex;
use t_rust_less::util::{
    bytes_contains_sub, bytes_eq, clone_into_array, str_eq, u16_as_usize, u32_as_usize,
    u8_as_usize, xorbytes,
};
use t_rust_less::wire::{
    parse_block, parse_ring, parse_version, serialize_block, serialize_ring, serialize_version,
    RingEntry,
};

fn rich_version() -> SecretVersion {
    SecretVersion {
        secret_id: "mail".to_string(),
        timestamp: 1234567890123,
        name: "Mail account".to_string(),
        secret_type: "login".to_string(),
        tags: vec!["work".to_string(), "email".to_string()],
        urls: vec!["https://mail.example.test".to_string()],
        properties: vec![
            Property {
                name: "username".to_string(),
                value: "alice".to_string(),
            },
            Property {
                name: "password".to_string(),
                value: "s3cr3t".to_string(),
            },
        ],
        attachments: vec![Attachment {
            name: "key.bin".to_string(),
            content: vec![0, 1, 2, 254, 255],
        }],
        deleted: true,
    }
}

#[test]
fn version_codec_roundtrip() {
    let v = rich_version();
    let bytes = serialize_version(&v);
    let parsed = parse_version(&bytes).expect("parse");
    assert_eq!(parsed.secret_id, v.secret_id);
    assert_eq!(parsed.timestamp, v.timestamp);
    assert_eq!(parsed.name, v.name);
    assert_eq!(parsed.secret_type, v.secret_type);
    assert_eq!(parsed.tags, v.tags);
    assert_eq!(parsed.urls, v.urls);
    assert_eq!(parsed.properties.len(), 2);
    assert_eq!(parsed.properties[1].value, "s3cr3t");
    assert_eq!(parsed.attachments.len(), 1);
    assert_eq!(parsed.attachments[0].content, vec![0, 1, 2, 254, 255]);
    assert!(parsed.deleted);
}

#[test]
fn version_parse_rejects_truncation_and_trailing_bytes() {
    let v = rich_version();
    let mut bytes = serialize_version(&v);
    assert!(parse_version(&bytes[0..bytes.len() - 1]).is_none());
    bytes.push(0);
    assert!(parse_version(&bytes).is_none());
}

#[test]
fn ring_codec_roundtrip() {
    let entries = vec![
        RingEntry {
            id: "alice".to_string(),
            name: "Alice".to_string(),
            email: "alice@example.test".to_string(),
            public_key: vec![1u8; 32],
            private_key_nonce: vec![2u8; 12],
            sealed_private_key: vec![3u8; 48],
            kdf_algorithm: 1,
            kdf_salt: vec![4u8; 16],
            kdf_cost: 4096,
        },
        RingEntry {
            id: "bob".to_string(),
            name: "Bob".to_string(),
            email: "bob@example.test".to_string(),
            public_key: vec![5u8; 32],
            private_key_nonce: vec![6u8; 12],
            sealed_private_key: vec![7u8; 48],
            kdf_algorithm: 1,
            kdf_salt: vec![8u8; 16],
            kdf_cost: 4096,
        },
    ];
    let bytes = serialize_ring(&entries);
    let parsed = parse_ring(&bytes).expect("parse");
    assert_eq!(parsed.len(), 2);
    assert_eq!(parsed[0].id, "alice");
    assert_eq!(parsed[1].email, "bob@example.test");
    assert_eq!(parsed[1].sealed_private_key, vec![7u8; 48]);
    assert_eq!(parsed[0].kdf_cost, 4096);
    assert!(parse_ring(&bytes[1..]).is_none());
}

#[test]
fn block_codec_roundtrip() {
    let block = Block {
        header: BlockHeader {
            block_type: 1,
            common_key: vec![9u8; 12],
            recipients: vec![Recipient {
                id: b"alice".to_vec(),
                crypted_key: vec![7u8; 64],
            }],
        },
        ciphertext: vec![1, 2, 3, 4, 5],
    };
    let bytes = serialize_block(&block);
    let parsed = parse_block(&bytes).expect("parse");
    assert_eq!(parsed.header.block_type, 1);
    assert_eq!(parsed.header.common_key, vec![9u8; 12]);
    assert_eq!(parsed.header.recipients.len(), 1);
    assert_eq!(parsed.header.recipients[0].id, b"alice".to_vec());
    assert_eq!(parsed.ciphertext, vec![1, 2, 3, 4, 5]);
    assert!(parse_block(&bytes[0..2]).is_none());
}

#[test]
fn hex_rendering() {
    assert_eq!(to_hex(&[]), "");
    assert_eq!(to_hex(&[0x00, 0xff, 0x10, 0xab]), "00ff10ab");
}

#[test]
fn integer_widening_helpers() {
    assert_eq!(u8_as_usize(0xff), 255);
    assert_eq!(u16_as_usize(0xffff), 65535);
    assert_eq!(u32_as_usize(0x1_0000), 65536);
}

#[test]
fn byte_helpers() {
    let a = [1u8, 2, 3];
    let b = [255u8, 0, 1];
    assert_eq!(xorbytes(&a, &b), vec![254, 2, 2]);
    assert_eq!(xorbytes(&xorbytes(&a, &b), &b), vec![1, 2, 3]);
    assert!(bytes_eq(&a, &[1, 2, 3]));
    assert!(!bytes_eq(&a, &b));
    assert!(bytes_contains_sub(b"hello world", b"lo wo"));
    assert!(!bytes_contains_sub(b"hello world", b"worlds"));
    assert!(bytes_contains_sub(b"abc", b""));
    let arr = clone_into_array(&[9u8; 32]);
    assert_eq!(arr, [9u8; 32]);
}

#[test]
fn string_helpers() {
    assert!(str_eq("abc", "abc"));
    assert!(!str_eq("abc", "abd"));
    assert_eq!(property_label("password"), "Password");
    assert_eq!(property_label("username"), "Username");
    assert_eq!(property_label("totpUrl"), "OTP");
    assert_eq!(property_label("notes"), "Notes");
    assert_eq!(property_label("sid"), "SID");
    assert_eq!(property_label("custom"), "custom");
}
