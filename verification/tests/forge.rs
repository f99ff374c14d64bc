use loot::forge::{parse_pr_number, PrState, ReviewDecision};

#[test]
fn parses_review_decisions() {
    assert_eq!(ReviewDecision::parse("APPROVED"), ReviewDecision::Approved);
    assert_eq!(ReviewDecision::parse("CHANGES_REQUESTED"), ReviewDecision::ChangesRequested);
    assert_eq!(ReviewDecision::parse(""), ReviewDecision::Other);
    assert_eq!(ReviewDecision::parse("REVIEW_REQUIRED"), ReviewDecision::Other);
}

#[test]
fn parses_pr_states() {
    assert_eq!(PrState::parse("OPEN"), Some(PrState::Open));
    assert_eq!(PrState::parse("MERGED"), Some(PrState::Merged));
    assert_eq!(PrState::parse("CLOSED"), Some(PrState::Closed));
    assert_eq!(PrState::parse("weird"), None);
}

#[test]
fn parses_pr_number_from_url() {
    assert_eq!(parse_pr_number("https://github.com/o/r/pull/218"), Some(218));
    assert_eq!(parse_pr_number("https://github.com/o/r/pull/218\n"), Some(218));
    assert_eq!(parse_pr_number("no url here"), None);
}
