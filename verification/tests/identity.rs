use loot::identity::{
    keypair_exists, unwrap_envelope, x25519_pubkey_from_ed25519_bytes, Identity, IdentityError, ENVELOPE_HEADER,
};
use loot::store::Disk;

#[test]
fn generate_save_load_round_trips() {
    let mut disk = Disk::new();
    let id = Identity::generate();
    let pubkey = id.public_key_bytes();
    id.save(&mut disk, ".loot", "test@loot").unwrap();

    let loaded = Identity::load(&disk, ".loot/id").unwrap();
    assert_eq!(loaded.public_key_bytes(), pubkey);
}

#[test]
fn envelope_sign_verify_round_trip() {
    let id = Identity::generate();
    let bundle = b"some sealed bytes";
    let env = id.wrap_envelope(bundle);
    assert_eq!(env.len(), ENVELOPE_HEADER + bundle.len());
    let (pubkey, inner) = unwrap_envelope(&env, &[]).unwrap();
    assert_eq!(pubkey, id.public_key_bytes());
    assert_eq!(inner, bundle);
}

#[test]
fn allowlist_rejects_unknown_key() {
    let id = Identity::generate();
    let other = Identity::generate();
    let env = id.wrap_envelope(b"bundle");
    let allowed = [other.public_key_bytes()];
    assert!(matches!(unwrap_envelope(&env, &allowed), Err(IdentityError::BadSignature)));
}

#[test]
fn allowlist_accepts_known_key() {
    let id = Identity::generate();
    let env = id.wrap_envelope(b"bundle");
    let allowed = [id.public_key_bytes()];
    assert!(unwrap_envelope(&env, &allowed).is_ok());
}

#[test]
fn tampered_bundle_fails_verify() {
    let id = Identity::generate();
    let mut env = id.wrap_envelope(b"bundle");
    // Flip a byte in the bundle portion
    let last = env.len() - 1;
    env[last] ^= 0xff;
    assert!(matches!(unwrap_envelope(&env, &[]), Err(IdentityError::BadSignature)));
}

#[test]
fn id_pub_is_written_as_openssh_line() {
    let mut disk = Disk::new();
    let id = Identity::generate();
    id.save(&mut disk, ".loot", "alice@loot").unwrap();
    let pub_line = String::from_utf8(disk.read(&".loot/id.pub".to_string()).unwrap()).unwrap();
    assert!(pub_line.starts_with("ssh-ed25519 "), "expected openssh pubkey, got: {pub_line}");
}

#[test]
fn keypair_exists_detects_presence() {
    let mut disk = Disk::new();
    assert!(!keypair_exists(&disk, ".loot"));
    let id = Identity::generate();
    id.save(&mut disk, ".loot", "test").unwrap();
    assert!(keypair_exists(&disk, ".loot"));
}

#[test]
fn x25519_from_bytes_round_trips() {
    let id = Identity::generate();
    let pub_bytes = id.public_key_bytes();
    let x25519 = x25519_pubkey_from_ed25519_bytes(&pub_bytes).unwrap();
    assert_eq!(x25519, id.x25519_pubkey_bytes());
    assert_ne!(x25519, pub_bytes);
}
