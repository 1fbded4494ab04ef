use anc::encode::{build_field_str, encode_tags};
use anc::outcome::{conclude, summary, DeckLog, ReconcileError};
use anc::plan::{first_identifier, plan_inserts, plan_updates};
use anc::cards::Card;
use anc::stamp::{stamp_of, Stamp};
use anc::store::{ChangedRecord, ExistingNote, NewRecord};

fn fields(values: &[&str]) -> Vec<String> {
    values.iter().map(|f| f.to_string()).collect()
}

fn card(values: &[&str], tags: Option<&str>) -> Card {
    Card { model: "m".to_string(), fields: fields(values), tags: tags.map(|t| t.to_string()) }
}

#[test]
fn fewer_fields_are_padded() {
    let f = fields(&["id", "front"]);
    assert_eq!(build_field_str(&f, 4, f.len()), "id\u{1f}front\u{1f}\u{1f}");
    assert_eq!(build_field_str(&f, 2, f.len()), "id\u{1f}front");
    let one = fields(&["id"]);
    assert_eq!(build_field_str(&one, 3, 1), "id\u{1f}\u{1f}");
}

#[test]
fn more_fields_are_kept_uncut() {
    let f = fields(&["id", "a", "b", "c"]);
    assert_eq!(build_field_str(&f, 2, f.len()), "id\u{1f}a\u{1f}b\u{1f}c");
    assert_eq!(build_field_str(&f, 0, f.len()), "id\u{1f}a\u{1f}b\u{1f}c");
}

#[test]
fn tags_stand_between_spaces() {
    assert_eq!(encode_tags(&Some(" a b  ".to_string())), " a b ");
    assert_eq!(encode_tags(&Some("".to_string())), "  ");
    assert_eq!(encode_tags(&None), " ");
}

#[test]
fn identifiers_start_after_the_clock_and_the_store() {
    assert_eq!(first_identifier(10, 500, 3), Some(500));
    assert_eq!(first_identifier(500, 500, 3), Some(500));
    assert_eq!(first_identifier(501, 500, 3), Some(502));
    assert_eq!(first_identifier(0, 0, 0), Some(0));
    assert_eq!(first_identifier(i64::MAX, 0, 0), None);
    assert_eq!(first_identifier(i64::MAX - 1, 0, 0), Some(i64::MAX));
    assert_eq!(first_identifier(i64::MAX - 1, 0, 1), None);
    assert_eq!(first_identifier(0, i64::MAX - 2, 2), Some(i64::MAX - 2));
    assert_eq!(first_identifier(0, i64::MAX - 2, 3), None);
    assert_eq!(first_identifier(-5, -9, 2), Some(-4));
}

#[test]
fn new_cards_are_numbered_in_their_order() {
    let cards = vec![card(&["a", "1"], None), card(&["b", "2"], Some("t")), card(&["c"], None)];
    let held = ExistingNote { id: 77, fields: "b\u{1f}2\u{1f}".to_string(), tags: " t ".to_string() };
    let probes = vec![None, Some(held), None];
    let inserts = plan_inserts(&cards, &probes, 3, 1000);
    assert_eq!(
        inserts,
        vec![
            NewRecord {
                id: 1000,
                tags: " ".to_string(),
                fields: "a\u{1f}1\u{1f}".to_string(),
                identity: "a".to_string()
            },
            NewRecord {
                id: 1001,
                tags: " ".to_string(),
                fields: "c\u{1f}\u{1f}".to_string(),
                identity: "c".to_string()
            },
        ]
    );
    assert_eq!(plan_updates(&cards, &probes, 3), vec![]);
}

#[test]
fn only_changed_cards_are_updated() {
    let cards = vec![card(&["a", "1"], Some("x")), card(&["b", "2"], None), card(&["c", "3"], None)];
    let probes = vec![
        Some(ExistingNote { id: 5, fields: "a\u{1f}1".to_string(), tags: " x ".to_string() }),
        Some(ExistingNote { id: 6, fields: "b\u{1f}old".to_string(), tags: " ".to_string() }),
        Some(ExistingNote { id: 7, fields: "c\u{1f}3".to_string(), tags: " old ".to_string() }),
    ];
    assert_eq!(
        plan_updates(&cards, &probes, 2),
        vec![
            ChangedRecord {
                record_id: 6,
                tags: " ".to_string(),
                fields: "b\u{1f}2".to_string(),
                identity: "b".to_string()
            },
            ChangedRecord {
                record_id: 7,
                tags: " ".to_string(),
                fields: "c\u{1f}3".to_string(),
                identity: "c".to_string()
            },
        ]
    );
    assert_eq!(plan_inserts(&cards, &probes, 2, 0), vec![]);
}

#[test]
fn padding_counts_when_cards_are_compared() {
    let cards = vec![card(&["a", "1"], None)];
    let padded = vec![Some(ExistingNote { id: 1, fields: "a\u{1f}1\u{1f}".to_string(), tags: " ".to_string() })];
    assert_eq!(plan_updates(&cards, &padded, 3), vec![]);
    assert_eq!(plan_updates(&cards, &padded, 2).len(), 1);
}

#[test]
fn errors_have_messages() {
    assert_eq!(
        ReconcileError::UnknownModel { model: "odd".to_string(), card: Some("bad.qz#1".to_string()) }
            .message(),
        "unknown model odd for card bad.qz#1"
    );
    assert_eq!(
        ReconcileError::UnknownModel { model: "odd".to_string(), card: None }.message(),
        "unknown model odd"
    );
    assert_eq!(ReconcileError::UnknownDeck("nope".to_string()).message(), "Deck nope does not exist");
    assert_eq!(ReconcileError::Store("broken".to_string()).message(), "broken");
    assert_eq!(ReconcileError::OutOfIdentifiers.message(), "no record identifiers left");
}

fn log(name: &str, added: i32, updated: i32, failure: Option<&str>) -> DeckLog {
    DeckLog { name: name.to_string(), added, updated, failure: failure.map(|f| f.to_string()) }
}

#[test]
fn a_run_is_kept_whole_or_not_at_all() {
    let fine = vec![log("a", 1, 2, None), log("b", 0, 0, None)];
    assert_eq!(conclude(&fine), Ok(vec![("a".to_string(), 1, 2), ("b".to_string(), 0, 0)]));
    let mixed = vec![log("a", 1, 2, None), log("b", 3, 0, Some("bad")), log("c", 0, 0, Some("worse"))];
    assert_eq!(conclude(&mixed), Err(vec!["bad".to_string(), "worse".to_string()]));
    assert_eq!(conclude(&vec![]), Ok(vec![]));
}

#[test]
fn the_summary_lines_up_its_numbers() {
    let counts = vec![("one".to_string(), 5, 120), ("none".to_string(), 0, 0), ("two".to_string(), 12, 3)];
    assert_eq!(
        summary(&counts),
        vec![" 5 added and 120 updated to one".to_string(), "12 added and   3 updated to two".to_string()]
    );
    assert_eq!(summary(&vec![("d".to_string(), 1, 0)]), vec!["1 added and 0 updated to d".to_string()]);
}

#[test]
fn the_summary_says_when_nothing_changed() {
    assert_eq!(summary(&vec![]), vec!["Nothing was added or updated".to_string()]);
    assert_eq!(
        summary(&vec![("d".to_string(), 0, 0)]),
        vec!["Nothing was added or updated".to_string()]
    );
}

#[test]
fn stamps_hold_the_time_in_two_units() {
    let stamp = stamp_of("t".to_string(), 1_700_000_000_123_456_789);
    assert_eq!(stamp.millis, 1_700_000_000_123);
    assert_eq!(stamp.nanos, 1_700_000_000_123_456_789);
    assert_eq!(stamp.token, "t");
    let late = stamp_of("t".to_string(), u128::MAX);
    assert_eq!(late.nanos, i64::MAX);
    assert_eq!(late.millis, i64::MAX);
}

#[test]
fn fresh_stamps_differ() {
    let a = Stamp::now();
    let b = Stamp::now();
    assert_eq!(a.token.len(), 32);
    assert!(a.token.chars().all(|c| c.is_ascii_digit() || ('a'..='f').contains(&c)));
    assert_ne!(a.token, b.token);
    assert!(a.millis > 1_600_000_000_000);
    assert!(a.nanos / 1_000_000 == a.millis);
    assert!(b.nanos >= a.nanos);
}
