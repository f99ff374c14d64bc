use loot::liveness::Liveness;
use loot::sorted::SortedSet;
use loot::types::Oid;

fn oid(n: u8) -> Oid {
    Oid([n; 32])
}
fn none() -> SortedSet<Oid> {
    SortedSet::new()
}
fn only(o: Oid) -> SortedSet<Oid> {
    let mut s = SortedSet::new();
    s.insert(o);
    s
}
const CID: [u8; 16] = [7; 16];
const CID2: [u8; 16] = [9; 16];

/// X superseded by X′ (solo amend): X is stale, X′ live, no divergence.
#[test]
fn solo_amend_is_stale_never_divergent() {
    let lv = Liveness::compute(
        &vec![
            (oid(1), Some(CID), vec![]),          // X
            (oid(2), Some(CID), vec![oid(1)]),    // X' supersedes X
        ],
        none(),
        none(),
    );
    assert!(!lv.is_live(&oid(1)), "X is superseded");
    assert!(lv.is_live(&oid(2)));
    assert_eq!(lv.live_of(&CID), vec![oid(2)]);
    assert!(lv.divergent().is_empty(), "a solo amend is never divergence");

    let p = lv.partition(&vec![oid(1), oid(2)], Some(&oid(2)), None);
    assert_eq!(p.stale, vec![oid(1)], "the superseded head drops");
    assert_eq!(p.ours, Some(oid(2)));
    assert!(p.flat.is_empty() && p.fold.is_empty());
}

/// Two live versions of one change id: divergent, and both stay FLAT —
/// converge mints no merge.
#[test]
fn co_versions_are_divergent_and_stay_flat() {
    let lv = Liveness::compute(
        &vec![
            (oid(1), Some(CID), vec![]),          // X
            (oid(2), Some(CID), vec![oid(1)]),    // ours' amend
            (oid(3), Some(CID), vec![oid(1)]),    // their amend
        ],
        none(),
        none(),
    );
    assert!(lv.divergent().contains(&CID));
    assert_eq!(lv.live_of(&CID).len(), 2);

    let p = lv.partition(&vec![oid(2), oid(3)], Some(&oid(2)), None);
    assert_eq!(p.ours, Some(oid(2)), "tip stays on ours");
    assert_eq!(p.flat, vec![oid(3)], "the co-version stays a live head");
    assert!(p.fold.is_empty(), "divergence is never content-merged");
}

/// A cross-change predecessors claim is meaningless and supersedes nothing.
#[test]
fn cross_change_claim_is_ignored() {
    let lv = Liveness::compute(
        &vec![
            (oid(1), Some(CID), vec![]),
            (oid(2), Some(CID2), vec![oid(1)]), // wrong cid names X
        ],
        none(),
        none(),
    );
    assert!(lv.is_live(&oid(1)), "a cross-change claim supersedes nothing");
}

/// An abandoned co-version leaves the live view: the survivor is sole and
/// the change is not divergent.
#[test]
fn abandoned_versions_leave_the_live_view() {
    let lv = Liveness::compute(
        &vec![
            (oid(2), Some(CID), vec![]),
            (oid(3), Some(CID), vec![]),
        ],
        only(oid(3)),
        none(),
    );
    assert!(!lv.is_live(&oid(3)));
    assert_eq!(lv.live_of(&CID), vec![oid(2)]);
    assert!(lv.divergent().is_empty());
}

/// Parked WIP stays flat, and can NEVER be ours — not even when the caller
/// passes it as the base (the live pull footgun).
#[test]
fn parked_wip_is_flat_and_never_ours() {
    let lv = Liveness::compute(
        &vec![
            (oid(1), Some(CID), vec![]),   // main's tip
            (oid(4), Some(CID2), vec![]),  // sibling dock's parked WIP
        ],
        none(),
        only(oid(4)),
    );
    let heads = vec![oid(4), oid(1)]; // parked sorts first — the footgun shape

    // Caller passes the parked head as base: rejected, anchor wins.
    let p = lv.partition(&heads, Some(&oid(4)), Some(&oid(1)));
    assert_eq!(p.ours, Some(oid(1)), "a parked base never becomes ours");
    assert_eq!(p.flat, vec![oid(4)], "parked WIP is not a line to converge");
    assert!(p.fold.is_empty());

    // No base, no anchor: first NON-parked head wins.
    let p = lv.partition(&heads, None, None);
    assert_eq!(p.ours, Some(oid(1)));
}

/// Genuinely independent concurrent lines fold; legacy nodes (no change
/// id) are ordinary foldable lines.
#[test]
fn independent_lines_fold() {
    let lv = Liveness::compute(
        &vec![
            (oid(1), Some(CID), vec![]),
            (oid(5), Some(CID2), vec![]), // independent line
            (oid(6), None, vec![]),       // legacy node
        ],
        none(),
        none(),
    );
    let p = lv.partition(&vec![oid(1), oid(5), oid(6)], Some(&oid(1)), None);
    assert_eq!(p.ours, Some(oid(1)));
    assert!(p.flat.is_empty());
    assert_eq!(p.fold, vec![oid(5), oid(6)], "independent lines merge as today");
}

/// Selection order: base beats anchor beats first-non-parked.
#[test]
fn ours_selection_order() {
    let lv = Liveness::compute(
        &vec![
            (oid(1), Some(CID), vec![]),
            (oid(2), Some(CID2), vec![]),
        ],
        none(),
        none(),
    );
    let heads = vec![oid(1), oid(2)];
    assert_eq!(lv.partition(&heads, Some(&oid(2)), Some(&oid(1))).ours, Some(oid(2)));
    assert_eq!(lv.partition(&heads, None, Some(&oid(2))).ours, Some(oid(2)));
    assert_eq!(lv.partition(&heads, None, None).ours, Some(oid(1)));
    // A base that is not a head at all falls through to the anchor.
    assert_eq!(lv.partition(&heads, Some(&oid(9)), Some(&oid(2))).ours, Some(oid(2)));
}
