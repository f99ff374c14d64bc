use loot::sealed::{open, seal, ContentKey, Keyring};
use loot::types::{Oid, RepoError, Visibility};

fn keyring_with(oid: Oid, key: ContentKey) -> Keyring {
    let mut k = Keyring::new();
    k.insert(oid, key);
    k
}

#[test]
fn public_round_trips_for_any_reader() {
    let (oid, sealed, key) = seal(b"hello", &Visibility::Public).unwrap();
    let kr = keyring_with(oid.clone(), key);
    assert_eq!(open(&sealed, &oid, "anyone", &kr, 0).unwrap(), b"hello");
}

#[test]
fn restricted_denies_unlisted_reader_before_touching_key() {
    let (oid, sealed, key) =
        seal(b"secret", &Visibility::Restricted(vec!["alice".into()])).unwrap();
    // Even a keyring holding the key must not help an unauthorized reader.
    let kr = keyring_with(oid.clone(), key);
    assert!(matches!(
        open(&sealed, &oid, "mallory", &kr, 0),
        Err(RepoError::Unauthorized(_))
    ));
    assert_eq!(open(&sealed, &oid, "alice", &kr, 0).unwrap(), b"secret");
}

#[test]
fn authorized_reader_without_key_is_unauthorized_not_decrypt_error() {
    let (oid, sealed, _key) =
        seal(b"secret", &Visibility::Restricted(vec!["alice".into()])).unwrap();
    let empty = Keyring::new();
    assert!(matches!(
        open(&sealed, &oid, "alice", &empty, 0),
        Err(RepoError::Unauthorized(_))
    ));
}

#[test]
fn embargo_seals_before_reveal_then_opens() {
    let (oid, sealed, key) = seal(b"cve fix", &Visibility::Embargoed { reveal_at: 100 }).unwrap();
    let kr = keyring_with(oid.clone(), key);
    assert!(matches!(
        open(&sealed, &oid, "anyone", &kr, 99),
        Err(RepoError::Embargoed(100))
    ));
    assert_eq!(open(&sealed, &oid, "anyone", &kr, 100).unwrap(), b"cve fix");
}

#[test]
fn sealed_object_holds_no_key_material() {
    // Nothing in a SealedObject is the content key. We assert the key is unequal to every field's bytes.
    let (_oid, sealed, key) = seal(b"x", &Visibility::Public).unwrap();
    assert_ne!(&sealed.ciphertext[..], &key[..]);
    assert_ne!(&sealed.nonce[..], &key[..12]);
}

#[test]
fn address_is_ciphertext_hash_identity_is_plaintext_hash() {
    let (oid, sealed, _) = seal(b"abc", &Visibility::Public).unwrap();
    assert_eq!(oid, sealed.address());
    let plaintext_hash = *blake3::hash(b"abc").as_bytes();
    assert_ne!(oid.0, plaintext_hash);
    let mut body = sealed.nonce.to_vec();
    body.extend_from_slice(&sealed.ciphertext);
    assert_eq!(oid.0, *blake3::hash(&body).as_bytes());
}
