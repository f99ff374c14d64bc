use loot::ledger::{PrLane, PrMap};

#[test]
fn pr_map_round_trips() {
    let text = "aabb ferry 201\nccdd list 202\n";
    let map = PrMap::parse(text);
    assert_eq!(map.lanes.len(), 2);
    assert_eq!(map.lanes[0], PrLane { change: "aabb".into(), dock: "ferry".into(), pr: 201, owner: String::new() });
    assert_eq!(map.encode(), text);
}

#[test]
fn pr_map_empty_and_whitespace_are_empty() {
    // The live ledger's "empty" state is a whitespace-only file.
    assert_eq!(PrMap::parse("").lanes.len(), 0);
    assert_eq!(PrMap::parse("  \n\n").lanes.len(), 0);
    assert_eq!(PrMap::default().encode(), "");
}

#[test]
fn pr_map_skips_malformed_lines() {
    let map = PrMap::parse("aabb ferry 201\ngarbage line here now\naabb ferry notanumber\n");
    assert_eq!(map.lanes.len(), 1);
    assert_eq!(map.lanes[0].pr, 201);
}

#[test]
fn pr_map_lookup_and_mutation() {
    let mut map = PrMap::parse("aabb ferry 201\nccdd list 202\n");
    assert_eq!(map.lane_for_pr(202).unwrap().dock, "list");
    assert_eq!(map.lane_for("aabb", "ferry").unwrap().pr, 201);
    assert!(map.lane_for("aabb", "wrong-dock").is_none());
    map.remove_pr(201);
    assert_eq!(map.lanes.len(), 1);
    assert_eq!(map.lanes[0].pr, 202);
    map.push(PrLane { change: "eeff".into(), dock: "x".into(), pr: 203, owner: String::new() });
    assert_eq!(map.encode(), "ccdd list 202\neeff x 203\n");
}
