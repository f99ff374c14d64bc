use loot::identity::{Identity, IdentityError};
use loot::peers::PeerRegistry;
use loot::store::Disk;

fn saved_line(comment: &str) -> (Identity, String) {
    let mut disk = Disk::new();
    let id = Identity::generate();
    id.save(&mut disk, ".loot", comment).unwrap();
    let line = String::from_utf8(disk.read(&".loot/id.pub".to_string()).unwrap()).unwrap();
    (id, line.trim().to_string())
}

#[test]
fn add_list_remove_round_trips() {
    let mut disk = Disk::new();
    let mut reg = PeerRegistry::load(&disk, ".loot");
    assert!(reg.list().is_empty());

    let (_, line) = saved_line("test@loot");
    reg.add("alice", &line);
    reg.save(&mut disk);

    let loaded = PeerRegistry::load(&disk, ".loot");
    assert_eq!(loaded.get("alice"), Some(line.as_str()));
    assert_eq!(loaded.list().len(), 1);

    let mut loaded2 = PeerRegistry::load(&disk, ".loot");
    loaded2.remove("alice");
    loaded2.save(&mut disk);
    let loaded3 = PeerRegistry::load(&disk, ".loot");
    assert!(loaded3.get("alice").is_none());
}

#[test]
fn pubkey_bytes_extracts_ed25519() {
    let disk = Disk::new();
    let (id, line) = saved_line("bob@loot");

    let mut reg = PeerRegistry::load(&disk, ".loot");
    reg.add("bob", line.trim());
    let bytes = reg.pubkey_bytes("bob").unwrap().unwrap();
    assert_eq!(bytes, id.public_key_bytes());
}

#[test]
fn peers_are_kept_in_order_of_name() {
    let mut disk = Disk::new();
    let mut reg = PeerRegistry::load(&disk, ".loot");
    reg.add("zoe", "ssh-ed25519 AAAA zoe");
    reg.add("amy", "ssh-ed25519 BBBB amy");
    reg.save(&mut disk);
    assert_eq!(
        disk.read(&".loot/peers".to_string()).unwrap(),
        b"amy = ssh-ed25519 BBBB amy\nzoe = ssh-ed25519 AAAA zoe\n"
    );
}

#[test]
fn an_unreadable_key_line_is_a_format_error() {
    let disk = Disk::new();
    let mut reg = PeerRegistry::load(&disk, ".loot");
    reg.add("bob", "not a key");
    assert!(matches!(reg.pubkey_bytes("bob"), Err(IdentityError::Format(_))));
    assert!(matches!(reg.pubkey_bytes("nobody"), Ok(None)));
}

#[test]
fn a_key_of_another_kind_is_none() {
    let disk = Disk::new();
    let mut reg = PeerRegistry::load(&disk, ".loot");
    let line = "ssh-rsa AAAAB3NzaC1yc2EAAAADAQABAAAAIQDBAQIDBAUGBwgJCgsMDQ4PEBESExQVFhcYGRobHB0eHw==";
    reg.add("bob", line);
    assert!(matches!(reg.pubkey_bytes("bob"), Ok(None)));
    match PeerRegistry::parse_pubkey_bytes_from_line(line) {
        Err(IdentityError::Format(t)) => assert_eq!(t, "key is not ed25519"),
        other => panic!("expected a format error, got {other:?}"),
    }
}
