//! End-to-end tests of the vault: seal/open round trips, credential and
//! integrity failures, tree queries and mutations.

use mypass::body::{decrypt_body, encrypt_body};
use mypass::document::InnerHeader;
use mypass::error::Error;
use mypass::header::{parse_header, write_header, CipherId, Compression, Header, KdfParams};
use mypass::keepass::{collect_ids, Database, KpDb, Tree};
use mypass::model::{Entry, Field, Group, Node, NodeRef, Uuid};

fn titled_entry(uuid: u128, title: &str, user: &str, pass: &str) -> Entry {
    Entry {
        uuid: Uuid(uuid),
        fields: vec![
            Field { name: b"Title".to_vec(), protected: false, value: title.as_bytes().to_vec() },
            Field {
                name: b"UserName".to_vec(),
                protected: false,
                value: user.as_bytes().to_vec(),
            },
            Field {
                name: b"Password".to_vec(),
                protected: true,
                value: pass.as_bytes().to_vec(),
            },
        ],
    }
}

/// A tree three levels deep: root > A > B, with entries scattered in.
fn fixture_root() -> Group {
    let b_group = Group {
        uuid: Uuid(4),
        name: b"B".to_vec(),
        children: vec![Node::Entry(titled_entry(5, "deep", "carol", "s3cret"))],
    };
    let a_group = Group {
        uuid: Uuid(2),
        name: b"A".to_vec(),
        children: vec![
            Node::Group(b_group),
            Node::Entry(titled_entry(3, "mail", "alice", "hunter2")),
        ],
    };
    Group {
        uuid: Uuid(1),
        name: b"root".to_vec(),
        children: vec![
            Node::Group(a_group),
            Node::Entry(titled_entry(6, "bank", "bob", "pa55w0rd")),
        ],
    }
}

fn fixture_header(cipher: CipherId, compression: Compression, major: u16) -> Header {
    let iv_len = match cipher {
        CipherId::Aes256 => 16,
        CipherId::ChaCha20 => 12,
    };
    Header {
        version_major: major,
        version_minor: 1,
        cipher,
        compression,
        master_seed: vec![7u8; 32],
        iv: vec![9u8; iv_len],
        kdf: KdfParams::Aes { rounds: 64, seed: vec![3u8; 32] },
    }
}

fn fixture_db(cipher: CipherId, compression: Compression, major: u16) -> KpDb {
    KpDb {
        db: Some(Database {
            header: fixture_header(cipher, compression, major),
            inner: InnerHeader { stream_key: vec![5u8; 32] },
            root: fixture_root(),
        }),
    }
}

/// Counts every node of the open tree by collecting its identifiers.
fn entry_count(kp: &KpDb) -> usize {
    let mut ids = Vec::new();
    if let Some(d) = &kp.db {
        let node = clone_group_as_node(&d.root);
        collect_ids(&node, &mut ids);
    }
    ids.len()
}

fn clone_field(f: &Field) -> Field {
    Field { name: f.name.clone(), protected: f.protected, value: f.value.clone() }
}

fn clone_node(n: &Node) -> Node {
    match n {
        Node::Group(g) => clone_group_as_node(g),
        Node::Entry(e) => Node::Entry(Entry {
            uuid: e.uuid,
            fields: e.fields.iter().map(clone_field).collect(),
        }),
    }
}

fn clone_group_as_node(g: &Group) -> Node {
    Node::Group(Group {
        uuid: g.uuid,
        name: g.name.clone(),
        children: g.children.iter().map(clone_node).collect(),
    })
}

fn seal_fixture(cipher: CipherId, compression: Compression, major: u16) -> Vec<u8> {
    let kp = fixture_db(cipher, compression, major);
    kp.seal(Some("open sesame"), None).expect("seal fixture")
}

#[test]
fn open_then_root_counts_match() {
    for (cipher, major) in [
        (CipherId::Aes256, 3),
        (CipherId::Aes256, 4),
        (CipherId::ChaCha20, 3),
        (CipherId::ChaCha20, 4),
    ] {
        let data = seal_fixture(cipher, Compression::Plain, major);
        let kp = KpDb::open(&data, Some("open sesame"), None).expect("open fixture");
        // The fixture holds six nodes: three groups and three entries.
        assert_eq!(entry_count(&kp), 6);
        let root = kp.get_root().expect("root present");
        let tree = Tree;
        assert!(tree.is_group(&root));
        match root {
            NodeRef::Group(g) => assert_eq!(g.name, b"root".to_vec()),
            NodeRef::Entry(_) => panic!("root must be a group"),
        }
    }
}

#[test]
fn open_gzip_compressed() {
    let data = seal_fixture(CipherId::Aes256, Compression::Gzip, 4);
    let kp = KpDb::open(&data, Some("open sesame"), None).expect("open gzip fixture");
    assert_eq!(entry_count(&kp), 6);
}

#[test]
fn open_with_argon2_kdf() {
    let mut kp = fixture_db(CipherId::ChaCha20, Compression::Plain, 4);
    if let Some(d) = &mut kp.db {
        d.header.kdf = KdfParams::Argon2 {
            memory_kib: 64,
            iterations: 1,
            parallelism: 2,
            salt: vec![11u8; 32],
        };
    }
    let data = kp.seal(Some("open sesame"), None).expect("seal argon2 fixture");
    let kp2 = KpDb::open(&data, Some("open sesame"), None).expect("open argon2 fixture");
    assert_eq!(entry_count(&kp2), 6);
}

#[test]
fn wrong_password_fails_with_integrity() {
    let data = seal_fixture(CipherId::Aes256, Compression::Plain, 4);
    let r = KpDb::open(&data, Some("not the password"), None);
    assert_eq!(r.err(), Some(Error::Integrity));
    let r3 = KpDb::open(&seal_fixture(CipherId::Aes256, Compression::Plain, 3), Some("x"), None);
    assert_eq!(r3.err(), Some(Error::Integrity));
}

#[test]
fn wrong_keyfile_fails_with_integrity() {
    let kp = fixture_db(CipherId::Aes256, Compression::Plain, 4);
    let keyfile = vec![0x41u8; 32];
    let data = kp.seal(None, Some(&keyfile)).expect("seal with key file");
    let other = vec![0x42u8; 32];
    assert_eq!(KpDb::open(&data, None, Some(&other)).err(), Some(Error::Integrity));
    assert!(KpDb::open(&data, None, Some(&keyfile)).is_ok());
}

#[test]
fn missing_credential_is_rejected() {
    let data = seal_fixture(CipherId::Aes256, Compression::Plain, 4);
    assert_eq!(KpDb::open(&data, None, None).err(), Some(Error::NoCredential));
    // An empty password counts as absent.
    assert_eq!(KpDb::open(&data, Some(""), None).err(), Some(Error::NoCredential));
}

#[test]
fn malformed_keyfile_is_rejected() {
    let data = seal_fixture(CipherId::Aes256, Compression::Plain, 4);
    let bad = vec![1u8, 2, 3];
    assert_eq!(KpDb::open(&data, None, Some(&bad)).err(), Some(Error::InvalidKeyFile));
}

#[test]
fn keyfile_shapes_are_equivalent() {
    let kp = fixture_db(CipherId::Aes256, Compression::Plain, 4);
    let raw: Vec<u8> = (0u8..32).collect();
    let data = kp.seal(None, Some(&raw)).expect("seal with raw key file");

    // The same key as 64 hexadecimal digits.
    let hex: Vec<u8> = raw.iter().flat_map(|b| format!("{:02x}", b).into_bytes()).collect();
    assert_eq!(hex.len(), 64);
    assert!(KpDb::open(&data, None, Some(&hex)).is_ok());

    // The same key in an XML wrapper, base64-encoded.
    let b64 = base64_of(&raw);
    let mut xml = Vec::new();
    xml.extend_from_slice(b"<KeyFile><Key><Data>");
    xml.extend_from_slice(b64.as_bytes());
    xml.extend_from_slice(b"</Data></Key></KeyFile>");
    assert!(KpDb::open(&data, None, Some(&xml)).is_ok());
}

fn base64_of(data: &[u8]) -> String {
    const ALPHABET: &[u8] = b"ABCDEFGHIJKLMNOPQRSTUVWXYZabcdefghijklmnopqrstuvwxyz0123456789+/";
    let mut out = String::new();
    for chunk in data.chunks(3) {
        let b = [
            chunk[0],
            if chunk.len() > 1 { chunk[1] } else { 0 },
            if chunk.len() > 2 { chunk[2] } else { 0 },
        ];
        let idx = [
            (b[0] >> 2) as usize,
            (((b[0] & 0x03) << 4) | (b[1] >> 4)) as usize,
            (((b[1] & 0x0f) << 2) | (b[2] >> 6)) as usize,
            (b[2] & 0x3f) as usize,
        ];
        out.push(ALPHABET[idx[0]] as char);
        out.push(ALPHABET[idx[1]] as char);
        out.push(if chunk.len() > 1 { ALPHABET[idx[2]] as char } else { '=' });
        out.push(if chunk.len() > 2 { ALPHABET[idx[3]] as char } else { '=' });
    }
    out
}

#[test]
fn bad_signature_is_rejected() {
    let mut data = seal_fixture(CipherId::Aes256, Compression::Plain, 4);
    data[0] ^= 0xff;
    assert_eq!(
        KpDb::open(&data, Some("open sesame"), None).err(),
        Some(Error::BadSignature)
    );
    assert_eq!(KpDb::open(&[], Some("p"), None).err(), Some(Error::BadSignature));
}

#[test]
fn unsupported_version_is_rejected() {
    let mut data = seal_fixture(CipherId::Aes256, Compression::Plain, 4);
    // The major version lives at offset 10.
    data[10] = 9;
    data[11] = 0;
    assert_eq!(
        KpDb::open(&data, Some("open sesame"), None).err(),
        Some(Error::UnsupportedVersion)
    );
}

#[test]
fn truncated_header_is_rejected() {
    let data = seal_fixture(CipherId::Aes256, Compression::Plain, 4);
    assert_eq!(
        KpDb::open(&data[..10], Some("open sesame"), None).err(),
        Some(Error::Format)
    );
}

#[test]
fn corrupting_any_body_byte_fails_with_integrity() {
    let data = seal_fixture(CipherId::Aes256, Compression::Plain, 3);
    let (_, off) = parse_header(&data).expect("fixture header parses");
    for i in off..data.len() {
        let mut tampered = data.clone();
        tampered[i] ^= 0x01;
        let r = KpDb::open(&tampered, Some("open sesame"), None);
        assert_eq!(r.err(), Some(Error::Integrity), "byte {} went unnoticed", i);
    }
    let data4 = seal_fixture(CipherId::ChaCha20, Compression::Plain, 4);
    let (_, off4) = parse_header(&data4).expect("fixture header parses");
    for i in off4..data4.len() {
        let mut tampered = data4.clone();
        tampered[i] ^= 0x01;
        let r = KpDb::open(&tampered, Some("open sesame"), None);
        assert_eq!(r.err(), Some(Error::Integrity), "byte {} went unnoticed", i);
    }
}

#[test]
fn decrypt_then_reencrypt_is_byte_identical() {
    // Fixed keys and IV: decrypting an accepted body and encrypting the
    // plaintext again reproduces the ciphertext exactly.
    for (cipher, major) in [
        (CipherId::Aes256, 3),
        (CipherId::Aes256, 4),
        (CipherId::ChaCha20, 3),
        (CipherId::ChaCha20, 4),
    ] {
        let h = fixture_header(cipher, Compression::Plain, major);
        let hraw = write_header(&h);
        let ck = vec![0x21u8; 32];
        let hk = vec![0x42u8; 32];
        let pt: Vec<u8> = (0u8..=255).cycle().take(70000).collect();
        let body = encrypt_body(&h, &hraw, &pt, &ck, &hk).expect("encrypt");
        let pt2 = decrypt_body(&h, &hraw, &body, &ck, &hk).expect("decrypt");
        assert_eq!(pt, pt2);
        let body2 = encrypt_body(&h, &hraw, &pt2, &ck, &hk).expect("re-encrypt");
        assert_eq!(body, body2);
    }
}

#[test]
fn find_by_id_exact() {
    let data = seal_fixture(CipherId::Aes256, Compression::Plain, 4);
    let kp = KpDb::open(&data, Some("open sesame"), None).expect("open fixture");
    // A random identifier not present in the fixture tree.
    assert!(kp.get_node_by_id(Uuid(0x8f3a_c2d4_9b1e_7765_0011_2233_4455_6677)).is_none());
    // Every identifier enumerated by a full traversal is found, and the
    // found node carries it.
    let mut ids = Vec::new();
    if let Some(d) = &kp.db {
        let node = clone_group_as_node(&d.root);
        collect_ids(&node, &mut ids);
    }
    assert_eq!(ids.len(), 6);
    for id in ids {
        let nr = kp.get_node_by_id(id).expect("present identifier is found");
        assert_eq!(nr.uuid(), id);
    }
}

#[test]
fn create_then_find_then_delete() {
    let data = seal_fixture(CipherId::Aes256, Compression::Plain, 4);
    let mut kp = KpDb::open(&data, Some("open sesame"), None).expect("open fixture");
    let nid = kp.create_new_group(Uuid(2)).expect("parent group exists");
    match kp.get_node_by_id(nid) {
        Some(NodeRef::Group(g)) => {
            assert_eq!(g.uuid, nid);
            assert_eq!(g.children.len(), 0);
        }
        _ => panic!("fresh group must be found"),
    }
    let eid = kp.create_new_entry(nid).expect("fresh group is a parent");
    match kp.get_node_by_id(eid) {
        Some(NodeRef::Entry(e)) => {
            assert_eq!(e.uuid, eid);
            assert_eq!(e.fields.len(), 0);
        }
        _ => panic!("fresh entry must be found"),
    }
    kp.delete_node(eid).expect("delete fresh entry");
    assert!(kp.get_node_by_id(eid).is_none());
    kp.delete_node(nid).expect("delete fresh group");
    assert!(kp.get_node_by_id(nid).is_none());
}

#[test]
fn create_under_missing_parent_fails() {
    let mut kp = fixture_db(CipherId::Aes256, Compression::Plain, 4);
    assert_eq!(
        kp.create_new_group(Uuid(0xdead_beef)).err(),
        Some(Error::NotFound)
    );
    // An entry is not a parent either.
    assert_eq!(kp.create_new_entry(Uuid(3)).err(), Some(Error::NotFound));
}

#[test]
fn delete_absent_or_root_fails() {
    let mut kp = fixture_db(CipherId::Aes256, Compression::Plain, 4);
    assert_eq!(kp.delete_node(Uuid(0xdead_beef)).err(), Some(Error::NotFound));
    // The root itself cannot be removed.
    assert_eq!(kp.delete_node(Uuid(1)).err(), Some(Error::NotFound));
}

#[test]
fn delete_removes_whole_subtree() {
    let mut kp = fixture_db(CipherId::Aes256, Compression::Plain, 4);
    kp.delete_node(Uuid(2)).expect("group A exists");
    assert!(kp.get_node_by_id(Uuid(2)).is_none());
    // Its descendants are gone with it.
    assert!(kp.get_node_by_id(Uuid(4)).is_none());
    assert!(kp.get_node_by_id(Uuid(5)).is_none());
    assert!(kp.get_node_by_id(Uuid(3)).is_none());
    // Unrelated nodes stay.
    assert!(kp.get_node_by_id(Uuid(6)).is_some());
}

#[test]
fn get_by_path_three_levels() {
    let data = seal_fixture(CipherId::Aes256, Compression::Plain, 4);
    let kp = KpDb::open(&data, Some("open sesame"), None).expect("open fixture");
    match kp.get_item(&["root", "A", "B"]) {
        Some(NodeRef::Group(g)) => assert_eq!(g.uuid, Uuid(4)),
        _ => panic!("path to B must resolve"),
    }
    match kp.get_item(&["root", "A", "B", "deep"]) {
        Some(NodeRef::Entry(e)) => assert_eq!(e.uuid, Uuid(5)),
        _ => panic!("path to the deep entry must resolve"),
    }
    assert!(kp.get_item(&["root", "X"]).is_none());
    assert!(kp.get_item(&["wrong"]).is_none());
    assert!(kp.get_item(&[]).is_none());
}

#[test]
fn children_listing_keeps_order_and_kind() {
    let kp = fixture_db(CipherId::Aes256, Compression::Plain, 4);
    let root = kp.get_root().expect("root present");
    let groups = kp.get_groups(&root);
    let entries = kp.get_entries(&root);
    assert_eq!(groups.len(), 1);
    assert_eq!(entries.len(), 1);
    match groups[0] {
        NodeRef::Group(g) => assert_eq!(g.name, b"A".to_vec()),
        _ => panic!("group expected"),
    }
    match entries[0] {
        NodeRef::Entry(e) => assert_eq!(e.uuid, Uuid(6)),
        _ => panic!("entry expected"),
    }
    let tree = Tree;
    assert!(tree.is_group(&groups[0]));
    assert!(!tree.is_group(&entries[0]));
}

#[test]
fn new_database_is_empty() {
    let kp = KpDb::new();
    let root = kp.get_root().expect("fresh database has a root");
    match root {
        NodeRef::Group(g) => {
            assert_eq!(g.children.len(), 0);
            assert_eq!(g.name, b"Root".to_vec());
        }
        _ => panic!("root must be a group"),
    }
}

#[test]
fn new_database_seals_and_reopens() {
    let mut kp = KpDb::new();
    let root_id = match kp.get_root().expect("root") {
        NodeRef::Group(g) => g.uuid,
        _ => panic!("root must be a group"),
    };
    let gid = kp.create_new_group(root_id).expect("create under root");
    let data = kp.seal(Some("pw"), None).expect("seal");
    let kp2 = KpDb::open(&data, Some("pw"), None).expect("reopen");
    assert!(kp2.get_node_by_id(gid).is_some());
}

#[test]
fn protected_fields_survive_the_round_trip() {
    let data = seal_fixture(CipherId::ChaCha20, Compression::Gzip, 4);
    let kp = KpDb::open(&data, Some("open sesame"), None).expect("open fixture");
    match kp.get_item(&["root", "A", "mail"]) {
        Some(NodeRef::Entry(e)) => {
            let pw = e
                .fields
                .iter()
                .find(|f| f.name == b"Password".to_vec())
                .expect("password field");
            assert!(pw.protected);
            assert_eq!(pw.value, b"hunter2".to_vec());
        }
        _ => panic!("mail entry must resolve"),
    }
}

#[test]
fn header_write_then_parse_round_trips() {
    for (cipher, major) in [
        (CipherId::Aes256, 3),
        (CipherId::ChaCha20, 4),
    ] {
        let h = fixture_header(cipher, Compression::Gzip, major);
        let bytes = write_header(&h);
        let (h2, off) = parse_header(&bytes).expect("own encoding parses");
        assert_eq!(off, bytes.len());
        assert_eq!(h, h2);
    }
}

#[test]
fn sha256_wrapper_computes_the_real_digest() {
    // The digest of "abc", straight from the function's specification.
    let d = mypass::crypto::sha256(b"abc");
    let expected: [u8; 32] = [
        0xba, 0x78, 0x16, 0xbf, 0x8f, 0x01, 0xcf, 0xea, 0x41, 0x41, 0x40, 0xde, 0x5d, 0xae,
        0x22, 0x23, 0xb0, 0x03, 0x61, 0xa3, 0x96, 0x17, 0x7a, 0x9c, 0xb4, 0x10, 0xff, 0x61,
        0xf2, 0x00, 0x15, 0xad,
    ];
    assert_eq!(d, expected.to_vec());
}

#[test]
fn hex_and_base64_decode_exact_values() {
    let hx = mypass::kdf::hex_decode(b"00ff10Ab").expect("valid hex");
    assert_eq!(hx, vec![0x00, 0xff, 0x10, 0xab]);
    assert!(mypass::kdf::hex_decode(b"0g").is_none());
    assert!(mypass::kdf::hex_decode(b"0").is_none());
    let b = mypass::kdf::b64_decode(b"TWFu").expect("valid base64");
    assert_eq!(b, b"Man".to_vec());
    let b2 = mypass::kdf::b64_decode(b"TWE=").expect("valid base64 with padding");
    assert_eq!(b2, b"Ma".to_vec());
    let b3 = mypass::kdf::b64_decode(b"TQ==").expect("valid base64 with double padding");
    assert_eq!(b3, b"M".to_vec());
    assert!(mypass::kdf::b64_decode(b"T!==").is_none());
    assert!(mypass::kdf::b64_decode(b"TWFues").is_none());
}

#[test]
fn gzip_wrappers_round_trip() {
    let data: Vec<u8> = (0u8..=255).cycle().take(5000).collect();
    let packed = mypass::crypto::gzip_compress(&data);
    assert_ne!(packed, data);
    let unpacked = mypass::crypto::gzip_decompress(&packed).expect("decompress");
    assert_eq!(unpacked, data);
    assert!(mypass::crypto::gzip_decompress(b"not a gzip stream").is_none());
}

#[test]
fn aes_block_wrappers_invert() {
    let key = vec![0x55u8; 32];
    let block: Vec<u8> = (0u8..16).collect();
    let enc = mypass::crypto::aes256_encrypt_block(&key, &block);
    assert_ne!(enc, block);
    let dec = mypass::crypto::aes256_decrypt_block(&key, &enc);
    assert_eq!(dec, block);
}

#[test]
fn garbage_plaintext_is_a_parse_error() {
    // A correctly authenticated body whose plaintext is not a document.
    let h = fixture_header(CipherId::Aes256, Compression::Plain, 4);
    let hraw = write_header(&h);
    let kp = fixture_db(CipherId::Aes256, Compression::Plain, 4);
    let sealed = kp.seal(Some("open sesame"), None).expect("seal");
    // Derive the same keys by re-using the library's own pipeline on a
    // fresh body built from garbage plaintext.
    let _ = sealed;
    let ck = mypass::crypto::sha256(b"probe cipher key");
    let hk = mypass::crypto::sha256(b"probe chain key");
    let body = encrypt_body(&h, &hraw, b"not a document at all", &ck, &hk).expect("encrypt");
    let mut data = hraw.clone();
    data.extend_from_slice(&body);
    // Decrypting succeeds under the same keys, so only decoding can
    // object; that is not reachable through `open` without knowing the
    // key schedule, so probe the decoder directly.
    let pt = decrypt_body(&h, &hraw, &body, &ck, &hk).expect("decrypt");
    assert_eq!(
        mypass::document::decode_document(&pt).err(),
        Some(Error::Parse)
    );
}

#[test]
fn misaligned_ciphertext_is_a_cipher_error() {
    // A chained body whose authenticated ciphertext is not block-aligned
    // cannot be an AES encryption.
    let h = fixture_header(CipherId::Aes256, Compression::Plain, 3);
    let hraw = write_header(&h);
    let ck = vec![1u8; 32];
    let hk = vec![2u8; 32];
    let body = mypass::body::chain_encode(&hk, &[0u8; 17]);
    assert_eq!(
        decrypt_body(&h, &hraw, &body, &ck, &hk).err(),
        Some(Error::Cipher)
    );
}

#[test]
fn duplicate_identifiers_are_rejected() {
    let mut kp = fixture_db(CipherId::Aes256, Compression::Plain, 4);
    if let Some(d) = &mut kp.db {
        // Give an entry the same identifier as the root.
        d.root
            .children
            .push(Node::Entry(titled_entry(1, "twin", "x", "y")));
    }
    let data = kp.seal(Some("open sesame"), None).expect("seal");
    assert_eq!(
        KpDb::open(&data, Some("open sesame"), None).err(),
        Some(Error::Parse)
    );
}

#[test]
fn raw_64_byte_keyfile_is_accepted() {
    // A 64-byte key file that is not hexadecimal must still be accepted,
    // its key derived from the file's bytes.
    let kp = fixture_db(CipherId::Aes256, Compression::Plain, 4);
    let mut keyfile = vec![0u8; 64];
    keyfile[0] = 0xff;
    let data = kp.seal(None, Some(&keyfile)).expect("seal with 64-byte key file");
    assert!(KpDb::open(&data, None, Some(&keyfile)).is_ok());
    // It is a different key than the same bytes read as hexadecimal
    // digits would give; a digit-only 64-byte file keeps its hex reading.
    let hexfile = vec![b'a'; 64];
    let data2 = kp.seal(None, Some(&hexfile)).expect("seal with hex key file");
    assert!(KpDb::open(&data2, None, Some(&hexfile)).is_ok());
    assert_eq!(KpDb::open(&data2, None, Some(&keyfile)).err(), Some(Error::Integrity));
}

#[test]
fn unknown_cipher_code_is_a_cipher_error() {
    let h = fixture_header(CipherId::Aes256, Compression::Plain, 4);
    let mut bytes = write_header(&h);
    // The cipher field is the first one after magic and version: its
    // four-byte value starts past one identifier byte and a four-byte
    // length.
    bytes[17] = 99;
    assert_eq!(parse_header(&bytes).err(), Some(Error::Cipher));
}

#[test]
fn short_master_seed_is_accepted() {
    let mut kp = fixture_db(CipherId::Aes256, Compression::Plain, 4);
    if let Some(d) = &mut kp.db {
        d.header.master_seed = vec![13u8; 16];
    }
    let data = kp.seal(Some("open sesame"), None).expect("seal with 16-byte seed");
    let kp2 = KpDb::open(&data, Some("open sesame"), None).expect("open with 16-byte seed");
    assert_eq!(entry_count(&kp2), 6);
}

#[test]
fn path_descent_skips_entries_with_matching_titles() {
    // An entry titled like a sibling group must not block descent: inner
    // segments match group names only.
    let inner = Group {
        uuid: Uuid(21),
        name: b"B".to_vec(),
        children: vec![Node::Entry(titled_entry(22, "leaf", "u", "p"))],
    };
    let a_group = Group { uuid: Uuid(23), name: b"A".to_vec(), children: vec![Node::Group(inner)] };
    let root = Group {
        uuid: Uuid(20),
        name: b"root".to_vec(),
        children: vec![
            Node::Entry(titled_entry(24, "A", "decoy", "x")),
            Node::Group(a_group),
        ],
    };
    let kp = KpDb {
        db: Some(Database {
            header: fixture_header(CipherId::Aes256, Compression::Plain, 4),
            inner: InnerHeader { stream_key: vec![5u8; 32] },
            root,
        }),
    };
    match kp.get_item(&["root", "A", "B"]) {
        Some(NodeRef::Group(g)) => assert_eq!(g.uuid, Uuid(21)),
        _ => panic!("the group path must resolve past the decoy entry"),
    }
    // The final segment may match any node: the decoy entry comes first.
    match kp.get_item(&["root", "A"]) {
        Some(NodeRef::Entry(e)) => assert_eq!(e.uuid, Uuid(24)),
        _ => panic!("the final segment matches the first title of any kind"),
    }
}
