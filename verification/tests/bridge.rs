use loot::bridge::{
    append_trailers, commit_timestamp, parse_trailer, strip_trailers, FerryState, MarkMap, MarkOrigin, BASE_EPOCH,
    TRAILER_AUTHOR, TRAILER_CHANGE_ID, TRAILER_GIT_AUTHOR, TRAILER_PREDECESSORS, TRAILER_SIGNATURE,
};
use loot::types::Oid;

#[test]
fn trailers_round_trip() {
    let msg = "fix the flux capacitor\n\nlonger body text";
    let id_hex = "ab".repeat(32);
    let out = append_trailers(msg, &[
        (TRAILER_CHANGE_ID, id_hex.clone()),
        (TRAILER_AUTHOR, "cd".repeat(32)),
    ]);
    assert_eq!(parse_trailer(&out, TRAILER_CHANGE_ID), Some(id_hex));
    assert_eq!(parse_trailer(&out, TRAILER_AUTHOR), Some("cd".repeat(32)));
    assert_eq!(parse_trailer(&out, TRAILER_SIGNATURE), None);
    assert_eq!(strip_trailers(&out), msg);
}

#[test]
fn predecessors_trailer_round_trips_space_separated() {
    let msg = "amend the flux capacitor\n\nbody";
    let preds = format!("{} {}", "12".repeat(32), "34".repeat(32));
    let out = append_trailers(msg, &[
        (TRAILER_CHANGE_ID, "ab".repeat(32)),
        (TRAILER_SIGNATURE, "cd".repeat(64)),
        (TRAILER_PREDECESSORS, preds.clone()),
    ]);
    assert_eq!(parse_trailer(&out, TRAILER_PREDECESSORS), Some(preds));
    // A space-separated value does not disturb the neighbouring trailers.
    assert_eq!(parse_trailer(&out, TRAILER_CHANGE_ID), Some("ab".repeat(32)));
    assert_eq!(strip_trailers(&out), msg);
}

#[test]
fn subject_only_message_gains_and_sheds_trailers() {
    let out = append_trailers("subject", &[(TRAILER_CHANGE_ID, "ef".repeat(32))]);
    assert_eq!(out, format!("subject\n\n{}: {}", TRAILER_CHANGE_ID, "ef".repeat(32)));
    assert_eq!(strip_trailers(&out), "subject");
}

#[test]
fn subject_with_colon_is_not_a_trailer() {
    // A lone-paragraph message never parses as a trailer block.
    let msg = "fix: the thing";
    assert_eq!(parse_trailer(msg, "fix"), None);
    assert_eq!(strip_trailers(msg), msg);
}

#[test]
fn appending_to_an_existing_block_extends_it() {
    let one = append_trailers("subject", &[(TRAILER_CHANGE_ID, "11".repeat(32))]);
    let two = append_trailers(&one, &[(TRAILER_GIT_AUTHOR, "Ada <ada@x>".into())]);
    assert_eq!(parse_trailer(&two, TRAILER_CHANGE_ID), Some("11".repeat(32)));
    assert_eq!(parse_trailer(&two, TRAILER_GIT_AUTHOR), Some("Ada <ada@x>".into()));
    assert_eq!(strip_trailers(&two), "subject");
}

#[test]
fn commit_dates_are_deterministic_and_ancestry_respecting() {
    assert_eq!(commit_timestamp(0), BASE_EPOCH);
    assert!(commit_timestamp(3) > commit_timestamp(2));
}

#[test]
fn mark_map_round_trips() {
    let mut map = MarkMap::new();
    map.insert("a".repeat(40), Oid([1; 32]), MarkOrigin::Loot);
    map.insert("b".repeat(40), Oid([2; 32]), MarkOrigin::Git);
    let parsed = MarkMap::parse(&map.encode()).unwrap();
    assert_eq!(parsed.len(), 2);
    assert_eq!(parsed.change_for(&"a".repeat(40)), Some(&(Oid([1; 32]), MarkOrigin::Loot)));
    assert_eq!(parsed.change_for(&"b".repeat(40)), Some(&(Oid([2; 32]), MarkOrigin::Git)));
    assert_eq!(parsed.sha_for(&Oid([1; 32])), Some("a".repeat(40).as_str()));
}

#[test]
fn mark_map_rejects_malformed_lines() {
    assert!(MarkMap::parse("justonesha\n").is_err());
    assert!(MarkMap::parse(&format!("{} {} elsewhere\n", "a".repeat(40), "11".repeat(32))).is_err());
    assert!(MarkMap::parse(&format!("{} nothex loot\n", "a".repeat(40))).is_err());
}

#[test]
fn ferry_state_round_trips() {
    let state = FerryState {
        git_main: Some("c".repeat(40)),
        loot_heads: vec![Oid([3; 32]), Oid([4; 32])],
    };
    let parsed = FerryState::parse(&state.encode()).unwrap();
    assert_eq!(parsed.git_main, Some("c".repeat(40)));
    assert_eq!(parsed.loot_heads, vec![Oid([3; 32]), Oid([4; 32])]);
    let empty = FerryState::parse("").unwrap();
    assert_eq!(empty.git_main, None);
    assert!(empty.loot_heads.is_empty());
}
