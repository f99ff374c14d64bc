use loot::hex;
use loot::types::{MergeOutcome, Oid, RepoPath, Visibility};
use loot::verdict::{
    json, lanes_json, lanes_porcelain, porcelain, status_char, status_json, status_porcelain, BuoyVerdict, LaneRow,
    PathVerdict, VERDICT_CONTRACT,
};

fn oid(byte: u8) -> Oid {
    Oid([byte; 32])
}

#[test]
fn status_chars_are_the_frozen_contract() {
    assert_eq!(status_char(&MergeOutcome::Converged), '=');
    assert_eq!(status_char(&MergeOutcome::Merged), 'M');
    assert_eq!(status_char(&MergeOutcome::RelayedUnmerged), 'R');
    assert_eq!(
        status_char(&MergeOutcome::Conflict { ours: oid(0), theirs: oid(1) }),
        'C'
    );
}

#[test]
fn porcelain_columns_and_scoped_addrs() {
    let verdicts = vec![
        PathVerdict::new(RepoPath::new("README.md"), MergeOutcome::Converged),
        PathVerdict::new(RepoPath::new("src/util.rs"), MergeOutcome::Merged),
        PathVerdict::new(RepoPath::new("relayed.bin"), MergeOutcome::RelayedUnmerged),
        PathVerdict::new(
            RepoPath::new("src/auth.rs"),
            MergeOutcome::Conflict { ours: oid(0xab), theirs: oid(0xcd) },
        ),
    ];
    let out = porcelain(&verdicts);
    let lines: Vec<&str> = out.lines().collect();
    // Non-conflict rows carry `-` in both address columns (CA3 scope).
    assert_eq!(lines[0], "=\tREADME.md\t-\t-");
    assert_eq!(lines[1], "M\tsrc/util.rs\t-\t-");
    assert_eq!(lines[2], "R\trelayed.bin\t-\t-");
    // A conflict carries ours -> base, theirs -> incoming (full hex).
    assert_eq!(
        lines[3],
        format!("C\tsrc/auth.rs\t{}\t{}", hex::encode(&[0xab; 32]), hex::encode(&[0xcd; 32]))
    );
    // Exactly four tab-separated columns per row.
    for line in &lines {
        assert_eq!(line.split('\t').count(), 4);
    }
}

#[test]
fn json_escapes_paths_with_tab_or_newline() {
    let verdicts = vec![PathVerdict::new(
        RepoPath::new("weird\tname\nfile.rs"),
        MergeOutcome::Converged,
    )];
    let out = json(&verdicts);
    assert!(out.contains("\\t"), "tab escaped: {out}");
    assert!(out.contains("\\n"), "newline escaped: {out}");
    // No raw control byte leaks into the JSON.
    assert!(!out.contains('\t'));
    assert!(!out.contains('\n'));
    assert!(out.starts_with(&format!("{{\"contract\":{VERDICT_CONTRACT},")));
}

#[test]
fn porcelain_does_not_escape_tabs_columns_break_for_adversarial_paths() {
    // porcelain writes path bytes verbatim; a tab in the path overflows into
    // the address columns. This is the known limitation documented in
    // status_porcelain's doc comment — agents MUST use --json for such paths.
    let verdicts = vec![PathVerdict::new(
        RepoPath::new("weird\tname"),
        MergeOutcome::Converged,
    )];
    let out = porcelain(&verdicts);
    let line = out.lines().next().unwrap();
    // Five tab-separated tokens instead of four confirms corruption.
    assert_ne!(line.split('\t').count(), 4, "path tab corrupts column count: {line}");
}

#[test]
fn json_carries_conflict_addrs_and_null_elsewhere() {
    let verdicts = vec![
        PathVerdict::new(RepoPath::new("a"), MergeOutcome::Converged),
        PathVerdict::new(RepoPath::new("b"), MergeOutcome::Conflict { ours: oid(1), theirs: oid(2) }),
    ];
    let out = json(&verdicts);
    assert!(out.contains("\"base\":null"), "converged has null base: {out}");
    assert!(
        out.contains(&format!("\"incoming\":\"{}\"", hex::encode(&[2u8; 32]))),
        "conflict carries incoming: {out}"
    );
}

#[test]
fn empty_input_is_empty_output() {
    assert_eq!(porcelain(&[]), "");
    assert_eq!(json(&[]), format!("{{\"contract\":{VERDICT_CONTRACT},\"verdicts\":[]}}"));
    // status always emits the `@` change header, even with no path rows; an
    // absent change id and version render `-`.
    assert_eq!(status_porcelain(None, None, &[]), "@\t-\t-\n");
    assert_eq!(
        status_json(None, None, &[]),
        format!("{{\"contract\":{VERDICT_CONTRACT},\"change\":null,\"version\":null,\"working\":[]}}")
    );
}

#[test]
fn status_has_its_own_shape() {
    let entries = vec![
        (RepoPath::new("README.md"), Visibility::Public),
        (RepoPath::new(".env"), Visibility::Restricted(vec!["alice".into(), "bob".into()])),
        (RepoPath::new("fix.patch"), Visibility::Embargoed { reveal_at: 42 }),
    ];
    let out = status_porcelain(Some([0xAB; 16]), Some(&oid(0x3f)), &entries);
    let lines: Vec<&str> = out.lines().collect();
    // The `@` header carries the change id (hex) and live version id (hex).
    assert_eq!(lines[0], format!("@\t{}\t{}", hex::encode(&[0xAB; 16]), hex::encode(&[0x3f; 32])));
    assert_eq!(lines[1], "~\tREADME.md\tpublic");
    assert_eq!(lines[2], "~\t.env\trestricted=alice,bob");
    assert_eq!(lines[3], "~\tfix.patch\tembargoed@42");
}

#[test]
fn status_json_escapes_and_tags_contract() {
    let entries = vec![(RepoPath::new("a\tb"), Visibility::Public)];
    let out = status_json(Some([0xAB; 16]), Some(&oid(0x3f)), &entries);
    assert!(out.contains("\\t"), "path tab escaped: {out}");
    assert!(out.contains(&format!("\"contract\":{VERDICT_CONTRACT}")));
    assert!(out.contains("\"visibility\":\"public\""));
    assert!(out.contains(&format!("\"change\":\"{}\"", hex::encode(&[0xAB; 16]))));
    assert!(out.contains(&format!("\"version\":\"{}\"", hex::encode(&[0x3f; 32]))));
}

fn lane_row(id: &str) -> LaneRow {
    LaneRow {
        id: id.into(),
        name: None,
        path: RepoPath::new(&format!("/repo-lanes/{id}")),
        tip: None,
        change: None,
        pr: None,
        dirty: None,
        heartbeat_age: 0,
        landed: false,
        stale: false,
    }
}

#[test]
fn lanes_porcelain_rows_are_the_frozen_contract() {
    // `L` rows, ten tab-separated columns, `-` for every absent value.
    let bare = lane_row("t7");
    assert_eq!(lanes_porcelain(&[bare]), "L\tt7\t-\t/repo-lanes/t7\t-\t-\t-\t-\t0\t-\n");

    let full = LaneRow {
        id: "t232".into(),
        name: Some("spawn-devx".into()),
        path: RepoPath::new("/repo-lanes/t232"),
        tip: Some(oid(0x3f)),
        change: Some(hex::encode(&[0xAB; 16])),
        pr: Some(235),
        dirty: Some(true),
        heartbeat_age: 90,
        landed: true,
        stale: true,
    };
    assert_eq!(
        lanes_porcelain(&[full]),
        format!(
            "L\tt232\tspawn-devx\t/repo-lanes/t232\t{}\t{}\t235\tdirty\t90\tlanded,stale\n",
            hex::encode(&[0x3f; 32]),
            hex::encode(&[0xAB; 16])
        )
    );

    let mut clean = lane_row("t8");
    clean.dirty = Some(false);
    let out = lanes_porcelain(&[clean]);
    assert!(out.contains("\tclean\t"), "clean state token: {out}");
    for line in out.lines() {
        assert_eq!(line.split('\t').count(), 10);
    }
    assert_eq!(lanes_porcelain(&[]), "");
}

#[test]
fn lanes_json_nullables_and_contract() {
    let out = lanes_json(&[lane_row("t7")]);
    assert!(out.starts_with(&format!("{{\"contract\":{VERDICT_CONTRACT},\"lanes\":[")));
    for key in ["\"name\":null", "\"tip\":null", "\"change\":null", "\"pr\":null", "\"dirty\":null"] {
        assert!(out.contains(key), "{key} in {out}");
    }
    assert!(out.contains("\"landed\":false"));

    let mut full = lane_row("t9");
    full.pr = Some(12);
    full.dirty = Some(false);
    full.stale = true;
    let out = lanes_json(&[full]);
    assert!(out.contains("\"pr\":12"), "{out}");
    assert!(out.contains("\"dirty\":false"), "{out}");
    assert!(out.contains("\"stale\":true"), "{out}");
    assert_eq!(lanes_json(&[]), format!("{{\"contract\":{VERDICT_CONTRACT},\"lanes\":[]}}"));
}

#[test]
fn buoy_porcelain_rows_are_the_frozen_contract() {
    // `B`/`A` rows, tab-separated, change id as full hex; no rows
    // for `None` (the exit code carries that outcome).
    let resolved = BuoyVerdict::Resolved {
        role: "reviewed".into(),
        change: oid(0xab),
        attesters: vec![[1; 32]],
    };
    assert_eq!(resolved.porcelain(), format!("B\t{}\treviewed\n", hex::encode(&[0xab; 32])));

    let ambiguous = BuoyVerdict::Ambiguous {
        role: "base".into(),
        candidates: vec![(oid(1), vec![[1; 32]]), (oid(2), vec![[2; 32]])],
    };
    assert_eq!(
        ambiguous.porcelain(),
        format!("A\t{}\tbase\nA\t{}\tbase\n", hex::encode(&[1u8; 32]), hex::encode(&[2u8; 32]))
    );

    assert_eq!(BuoyVerdict::Nowhere { role: "reviewed".into() }.porcelain(), "");
}

#[test]
fn buoy_json_shapes_and_contract_tag() {
    let resolved = BuoyVerdict::Resolved {
        role: "reviewed".into(),
        change: oid(0xab),
        attesters: vec![[1; 32], [2; 32]],
    };
    assert_eq!(
        resolved.json(),
        format!(
            "{{\"contract\":{VERDICT_CONTRACT},\"role\":\"reviewed\",\"status\":\"resolved\",\"buoy\":\"{}\",\"attesters\":[\"{}\",\"{}\"]}}",
            hex::encode(&[0xab; 32]),
            hex::encode(&[1u8; 32]),
            hex::encode(&[2u8; 32])
        )
    );

    let ambiguous = BuoyVerdict::Ambiguous {
        role: "base".into(),
        candidates: vec![(oid(1), vec![[1; 32]])],
    };
    assert_eq!(
        ambiguous.json(),
        format!(
            "{{\"contract\":{VERDICT_CONTRACT},\"role\":\"base\",\"status\":\"ambiguous\",\"candidates\":[{{\"change\":\"{}\",\"attesters\":[\"{}\"]}}]}}",
            hex::encode(&[1u8; 32]),
            hex::encode(&[1u8; 32])
        )
    );

    assert_eq!(
        BuoyVerdict::Nowhere { role: "reviewed".into() }.json(),
        format!("{{\"contract\":{VERDICT_CONTRACT},\"role\":\"reviewed\",\"status\":\"none\"}}")
    );
}

#[test]
fn buoy_json_escapes_adversarial_roles() {
    // Roles are free-form Strings; quotes and control chars must
    // not corrupt the JSON envelope.
    let v = BuoyVerdict::Nowhere { role: "re\"view\ned".into() };
    let j = v.json();
    assert!(j.contains("re\\\"view\\ned"), "escaped role: {j}");
    assert!(!j.contains('\n'), "no raw control bytes: {j}");
}

#[test]
fn status_empty_change_has_null_version() {
    // An empty working change (no delta) renders `-`/null for the version.
    let out = status_porcelain(Some([0xAB; 16]), None, &[]);
    assert_eq!(out, format!("@\t{}\t-\n", hex::encode(&[0xAB; 16])));
    let j = status_json(Some([0xAB; 16]), None, &[]);
    assert!(j.contains("\"version\":null"), "empty version is null: {j}");
}
