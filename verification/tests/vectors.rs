//! Published test vectors, through the functions that make the calls.

use loot::attestation::{self, Attestation};
use loot::engine::change_graph::{compute_change_id, is_working_change, ChangeNode};
use loot::hex;
use loot::identity::{
    generate_and_save, load_or_missing, unwrap_envelope, x25519_pubkey_from_ed25519_bytes, Identity, IdentityError,
};
use loot::sealed::{open, seal_with, Keyring, SealedObject};
use loot::store::Disk;
use loot::types::{Change, Oid, RepoError, Tree, Visibility};

fn bytes<const N: usize>(s: &str) -> [u8; N] {
    hex::decode_array::<N>(s).unwrap()
}

#[test]
fn aes_gcm_seals_as_published() {
    let (addr, o) = seal_with(&[0u8; 16], &Visibility::Public, &[0u8; 32], [0u8; 12]).unwrap();
    assert_eq!(hex::encode(&o.ciphertext), "cea7403d4d606b6e074ec5d3baf39d18d0d1c8a799996bf0265b98b5d48ab919");
    assert_eq!(addr, o.address());
    assert_eq!(o.grant_ids, vec!["*".to_string()]);

    let mut kr = Keyring::new();
    kr.insert(addr, [0u8; 32]);
    assert_eq!(open(&o, &addr, "anyone", &kr, 0).unwrap(), vec![0u8; 16]);
}

#[test]
fn a_changed_ciphertext_does_not_open() {
    let (addr, mut o) = seal_with(b"x", &Visibility::Public, &[7u8; 32], [1u8; 12]).unwrap();
    o.ciphertext[0] ^= 1;
    let mut kr = Keyring::new();
    kr.insert(addr, [7u8; 32]);
    assert_eq!(open(&o, &addr, "anyone", &kr, 0).unwrap_err(), RepoError::Backend("decrypt: aead::Error".into()));
}

#[test]
fn blake3_hashes_as_published() {
    // The address of an object is the hash of its nonce and ciphertext.
    let o = SealedObject {
        nonce: [0, 1, 2, 3, 4, 5, 6, 7, 8, 9, 10, 11],
        ciphertext: (12u8..251).collect::<Vec<u8>>().into_iter().take(51).collect(),
        vis: Visibility::Public,
        grant_ids: vec![],
        compressed: false,
    };
    // 63 bytes 0, 1, 2, ...
    assert_eq!(hex::encode(&o.address().0), "e9bc37a594daad83be9470df7f7b3798297c3d834ce80ba85d6e207627b7db7b");
}

#[test]
fn ed25519_signs_as_published() {
    let id = Identity::from_seed(bytes("9d61b19deffd5a60ba844af492ec2cc44449c5697b326919703bac031cae7f60"));
    assert_eq!(
        hex::encode(&id.public_key_bytes()),
        "d75a980182b10ab7d54bfed3c964073a0ee172f3daa62325af021a68f707511a"
    );
    assert_eq!(
        hex::encode(&id.sign(b"")),
        "e5564300c360ac729086e2cc806e828a84877f1eb8e5d974d873e065224901555fb8821590a33bacc61e39701cf9b46bd25bf5f0595bbe24655141438e7a100b"
    );
}

#[test]
fn an_attestation_stands_only_for_what_was_signed() {
    let id = Identity::from_seed([3; 32]);
    let key = id.public_key_bytes();
    let change = Oid([9; 32]);
    let signature = id.sign(&attestation::signing_bytes(&change, &key, "reviewed"));
    let good = Attestation { change_id: change, attester: key, role: "reviewed".into(), signature };
    assert!(good.verify());
    let other = Attestation { change_id: Oid([8; 32]), attester: key, role: "reviewed".into(), signature };
    assert!(!other.verify());
}

#[test]
fn bytes_that_are_no_key_have_no_x25519_form() {
    let mut off = [0u8; 32];
    off[0] = 2;
    assert!(matches!(x25519_pubkey_from_ed25519_bytes(&off), Err(IdentityError::Format(_))));
}

#[test]
fn envelopes_are_refused_with_reason() {
    let id = Identity::from_seed([5; 32]);
    assert!(matches!(unwrap_envelope(&[1u8; 96], &[]), Err(IdentityError::EnvelopeTooShort)));
    let mut env = id.wrap_envelope(b"x");
    env[0] = 2;
    assert!(matches!(unwrap_envelope(&env, &[]), Err(IdentityError::UnknownVersion(2))));
    assert_eq!(IdentityError::UnknownVersion(2).text(), "envelope version 2 not supported");
    assert_eq!(IdentityError::EnvelopeTooShort.text(), "envelope too short: need at least 97 bytes");
    assert_eq!(IdentityError::BadSignature.text(), "signature verification failed");
    assert_eq!(
        IdentityError::NoKeypair.text(),
        "no identity keypair found — run `loot keygen` to generate one"
    );
    assert_eq!(IdentityError::Io("x".into()).text(), "io error: x");
    assert_eq!(IdentityError::Format("x".into()).text(), "key format error: x");
}

#[test]
fn a_key_file_is_made_once_and_found_again() {
    let mut disk = Disk::new();
    assert!(matches!(load_or_missing(&disk, ".loot"), Err(IdentityError::NoKeypair)));
    let id = generate_and_save(&mut disk, ".loot", "a@b").unwrap();
    let again = load_or_missing(&disk, ".loot").unwrap();
    assert_eq!(again.public_key_bytes(), id.public_key_bytes());
    assert_eq!(again.sign(b"m"), id.sign(b"m"));
    let files = (disk.read(&".loot/id".into()), disk.read(&".loot/id.pub".into()));
    assert!(matches!(generate_and_save(&mut disk, ".loot", "c@d"), Err(IdentityError::Io(_))));
    assert_eq!((disk.read(&".loot/id".into()), disk.read(&".loot/id.pub".into())), files);
    assert!(files.0.is_some() && files.1.is_some());
    disk.put_file(".loot/id".into(), Some(b"nonsense".to_vec()));
    assert!(matches!(load_or_missing(&disk, ".loot"), Err(IdentityError::Format(_))));
}

#[test]
fn a_public_line_carries_the_comment() {
    let id = Identity::from_seed([6; 32]);
    let line = id.public_key_openssh("a@b").unwrap();
    assert!(line.starts_with("ssh-ed25519 ") && line.ends_with(" a@b"), "{line}");
}

#[test]
fn a_change_id_covers_author_and_message() {
    let change = |m: &str| Change { id: Oid([0; 32]), parents: vec![], message: m.into(), tree: Tree::new() };
    let plain = compute_change_id(None, &change("m"));
    assert_eq!(plain, compute_change_id(None, &change("m")));
    assert_ne!(plain, compute_change_id(None, &change("n")));
    assert_ne!(plain, compute_change_id(Some(&[1; 32]), &change("m")));
}

#[test]
fn only_authored_unsigned_changes_are_being_worked_on() {
    let node = |author: Option<[u8; 32]>, signature: Option<[u8; 64]>| ChangeNode {
        id: Oid([1; 32]),
        parents: vec![],
        message: "m".into(),
        tree: Tree::new(),
        author,
        signature,
        change_id: None,
        predecessors: vec![],
    };
    assert!(is_working_change(&node(Some([1; 32]), None)));
    assert!(!is_working_change(&node(Some([1; 32]), Some([0; 64]))));
    assert!(!is_working_change(&node(None, None)));
}
