use anc::cards::{Card, Deck, TypeGroup};
use anc::engine::{valid_decks, Engine, Phase};
use anc::outcome::summary;
use anc::parsing::BatchReader;
use anc::stamp::Stamp;
use anc::store::{Action, DeckKind, Event, ExistingNote};

#[derive(Clone, Debug, PartialEq)]
struct Note {
    id: i64,
    token: String,
    model_id: i64,
    modified: i64,
    usn: i64,
    tags: String,
    fields: String,
    identity: String,
}

#[derive(Clone, Debug)]
struct Store {
    models: Vec<(String, i64, usize)>,
    decks: Vec<(String, i64, DeckKind)>,
    notes: Vec<Note>,
    usn: i64,
    last_writers: Vec<(i64, i64)>,
    notified: Vec<Vec<i64>>,
    resorted: Vec<i64>,
    refuse_notify: bool,
    saved: Option<Vec<Note>>,
    committed: bool,
    rolled_back: bool,
    asked: Vec<String>,
}

impl Store {
    fn new() -> Store {
        Store {
            models: vec![("basic".to_string(), 11, 3), ("cloze".to_string(), 12, 2)],
            decks: vec![
                ("example".to_string(), 1, DeckKind::Ordered),
                ("shuffled".to_string(), 2, DeckKind::Random),
            ],
            notes: vec![],
            usn: -1,
            last_writers: vec![],
            notified: vec![],
            resorted: vec![],
            refuse_notify: false,
            saved: None,
            committed: false,
            rolled_back: false,
            asked: vec![],
        }
    }

    fn perform(&mut self, action: Action) -> Event {
        match action {
            Action::BeginSavepoint => {
                self.saved = Some(self.notes.clone());
                Event::Done
            }
            Action::ResolveModel { name } => {
                self.asked.push(format!("model {}", name));
                Event::Model(self.models.iter().find(|m| m.0 == name).map(|m| (m.1, m.2)))
            }
            Action::FindByIdentity { key } => Event::Existing(
                self.notes.iter().find(|n| n.identity == key).map(|n| ExistingNote {
                    id: n.id,
                    fields: n.fields.clone(),
                    tags: n.tags.clone(),
                }),
            ),
            Action::MaxRecordId => Event::Number(self.notes.iter().map(|n| n.id).max().unwrap_or(0)),
            Action::Usn => Event::Number(self.usn),
            Action::InsertRecord { id, token, model_id, timestamp, usn, tags, fields, identity } => {
                self.notes.retain(|n| n.id != id);
                self.notes.push(Note { id, token, model_id, modified: timestamp, usn, tags, fields, identity });
                Event::Affected(1)
            }
            Action::UpdateRecord { timestamp, usn, tags, fields, identity, record_id } => {
                let mut touched = 0;
                for note in self.notes.iter_mut().filter(|n| n.id == record_id) {
                    note.modified = timestamp;
                    note.usn = usn;
                    note.tags = tags.clone();
                    note.fields = fields.clone();
                    note.identity = identity.clone();
                    touched += 1;
                }
                Event::Affected(touched)
            }
            Action::ResolveDeck { name } => {
                Event::Deck(self.decks.iter().find(|d| d.0 == name).map(|d| d.1))
            }
            Action::SetLastWriter { model_id, deck_id } => {
                self.last_writers.push((model_id, deck_id));
                Event::Done
            }
            Action::DeckKind { deck_id } => {
                Event::Kind(self.decks.iter().find(|d| d.1 == deck_id).map(|d| d.2).unwrap())
            }
            Action::NotifyChanged { record_ids } => {
                if self.refuse_notify {
                    Event::Notified(Some("the store is broken".to_string()))
                } else {
                    self.notified.push(record_ids);
                    Event::Notified(None)
                }
            }
            Action::ResortIfRandom { deck_id } => {
                self.resorted.push(deck_id);
                Event::Done
            }
            Action::Commit => {
                self.saved = None;
                self.committed = true;
                Event::Done
            }
            Action::Rollback => {
                self.notes = self.saved.take().unwrap();
                self.rolled_back = true;
                Event::Done
            }
            Action::Report(_) => unreachable!(),
        }
    }
}

fn run(store: &mut Store, decks: Vec<Deck>) -> Result<Vec<(String, i32, i32)>, Vec<String>> {
    assert!(valid_decks(&decks));
    let (mut engine, mut action) = Engine::begin(decks);
    loop {
        if let Action::Report(result) = action {
            assert_eq!(engine.phase(), Phase::Finished);
            return result;
        }
        let event = store.perform(action);
        assert!(engine.expects(&event));
        action = engine.step(event);
    }
}

fn sync(store: &mut Store, sources: Vec<(String, &str)>) -> Result<Vec<(String, i32, i32)>, Vec<String>> {
    run(store, BatchReader::from_string(sources).parse().unwrap())
}

const CARD: &str = "---\ndeck: example\ntype: basic\n---\nQuestion\n---\nAnswer";

fn card(model: &str, fields: &[&str], tags: Option<&str>) -> Card {
    Card {
        model: model.to_string(),
        fields: fields.iter().map(|f| f.to_string()).collect(),
        tags: tags.map(|t| t.to_string()),
    }
}

fn deck(name: &str, groups: Vec<(&str, Vec<Card>)>) -> Deck {
    Deck::new(
        name.to_string(),
        groups.into_iter().map(|(model, cards)| TypeGroup { model: model.to_string(), cards }).collect(),
    )
}

#[test]
fn one_new_card_is_added() {
    let mut store = Store::new();
    let result = sync(&mut store, vec![("basic.qz".to_string(), CARD)]);
    assert_eq!(result, Ok(vec![("example".to_string(), 1, 0)]));
    assert_eq!(store.notes.len(), 1);
    let note = &store.notes[0];
    assert_eq!(note.fields, "basic.qz#1\u{1f}Question\u{1f}Answer");
    assert_eq!(note.identity, "basic.qz#1");
    assert_eq!(note.tags, " ");
    assert_eq!(note.model_id, 11);
    assert_eq!(note.usn, -1);
    assert_eq!(note.token.len(), 32);
    assert!(note.id > 1_600_000_000_000);
    assert!(store.committed && !store.rolled_back);
    assert_eq!(store.last_writers, vec![(11, 1)]);
    assert_eq!(store.notified, vec![vec![note.id]]);
    assert_eq!(store.resorted, Vec::<i64>::new());
    assert_eq!(summary(&result.unwrap()), vec!["1 added and 0 updated to example".to_string()]);
}

#[test]
fn an_unchanged_rerun_writes_nothing() {
    let mut store = Store::new();
    sync(&mut store, vec![("basic.qz".to_string(), CARD)]).unwrap();
    let before = store.notes.clone();
    let result = sync(&mut store, vec![("basic.qz".to_string(), CARD)]);
    assert_eq!(result, Ok(vec![("example".to_string(), 0, 0)]));
    assert_eq!(store.notes, before);
    assert_eq!(summary(&result.unwrap()), vec!["Nothing was added or updated".to_string()]);
}

#[test]
fn a_changed_card_is_updated_in_place() {
    let mut store = Store::new();
    sync(&mut store, vec![("basic.qz".to_string(), CARD)]).unwrap();
    let before = store.notes[0].clone();
    store.usn = 40;
    let changed = "---\ndeck: example\ntype: basic\n---\nQuestion\n---\nAnswer!";
    let result = sync(&mut store, vec![("basic.qz".to_string(), changed)]);
    assert_eq!(result, Ok(vec![("example".to_string(), 0, 1)]));
    assert_eq!(store.notes.len(), 1);
    assert_eq!(store.notes[0].id, before.id);
    assert_eq!(store.notes[0].token, before.token);
    assert_eq!(store.notes[0].fields, "basic.qz#1\u{1f}Question\u{1f}Answer!");
    assert_eq!(store.notes[0].usn, 40);
    assert!(store.notes[0].modified >= before.modified);
}

#[test]
fn one_bad() {
    let mut store = Store::new();
    let bad = "---\ndeck: example\ntype: essay\n---\nBad Question\n---\nEmpty Answer";
    let result = sync(&mut store, vec![("good.qz".to_string(), CARD), ("bad.qz".to_string(), bad)]);
    let errors = result.unwrap_err();
    assert_eq!(errors, vec!["unknown model essay for card bad.qz#1".to_string()]);
    assert!(errors[0].contains("bad.qz"));
    assert_eq!(store.notes.len(), 0);
    assert!(store.rolled_back && !store.committed);
}

#[test]
fn an_unknown_model_fails_the_whole_batch() {
    let mut store = Store::new();
    sync(&mut store, vec![("kept.qz".to_string(), CARD)]).unwrap();
    let kept = store.notes.clone();
    let decks = vec![
        deck("example", vec![("basic", vec![card("basic", &["new", "q", "a"], None)])]),
        deck("shuffled", vec![("ghost", vec![card("ghost", &["x"], None)])]),
    ];
    let errors = run(&mut store, decks).unwrap_err();
    assert_eq!(errors, vec!["unknown model ghost for card x".to_string()]);
    assert!(errors[0].contains("unknown model"));
    assert_eq!(store.notes, kept);
}

#[test]
fn an_unknown_deck_fails_after_its_writes_and_rolls_back() {
    let mut store = Store::new();
    let decks = vec![
        deck("nowhere", vec![("basic", vec![card("basic", &["n", "q", "a"], None)])]),
        deck("example", vec![("basic", vec![card("basic", &["e", "q", "a"], None)])]),
    ];
    let errors = run(&mut store, decks).unwrap_err();
    assert_eq!(errors, vec!["Deck nowhere does not exist".to_string()]);
    assert_eq!(store.notes.len(), 0);
    assert_eq!(store.last_writers, vec![(11, 1)]);
    assert!(store.rolled_back);
}

#[test]
fn a_store_that_refuses_the_changes_fails_the_deck() {
    let mut store = Store::new();
    store.refuse_notify = true;
    let decks = vec![deck(
        "shuffled",
        vec![
            ("basic", vec![card("basic", &["a", "q"], None)]),
            ("cloze", vec![card("cloze", &["b", "c"], None)]),
        ],
    )];
    let errors = run(&mut store, decks).unwrap_err();
    assert_eq!(errors, vec!["the store is brokenthe store is broken".to_string()]);
    assert_eq!(store.resorted, Vec::<i64>::new());
    assert_eq!(store.notes.len(), 0);
}

#[test]
fn identifiers_rise_by_one_in_card_order() {
    let mut store = Store::new();
    store.notes.push(Note {
        id: i64::MAX / 2,
        token: "t".to_string(),
        model_id: 11,
        modified: 0,
        usn: 0,
        tags: " ".to_string(),
        fields: "old\u{1f}\u{1f}".to_string(),
        identity: "old".to_string(),
    });
    let cards = vec![
        card("basic", &["c1", "q"], None),
        card("basic", &["old"], None),
        card("basic", &["c2", "q"], None),
        card("basic", &["c3", "q"], None),
    ];
    let result = run(&mut store, vec![deck("example", vec![("basic", cards)])]);
    assert_eq!(result, Ok(vec![("example".to_string(), 3, 0)]));
    let base = i64::MAX / 2 + 1;
    let added: Vec<(i64, &str)> = store.notes[1..].iter().map(|n| (n.id, n.identity.as_str())).collect();
    assert_eq!(added, vec![(base, "c1"), (base + 1, "c2"), (base + 2, "c3")]);
    assert_eq!(store.notified, vec![vec![base, base + 1, base + 2]]);
}

#[test]
fn identifiers_start_at_the_clock_in_a_fresh_store() {
    let mut store = Store::new();
    let (mut engine, mut action) = Engine::begin(vec![deck(
        "example",
        vec![("basic", vec![card("basic", &["a"], None), card("basic", &["b"], None)])],
    )]);
    let mut ids = vec![];
    let mut stamps = vec![];
    let mut clock = 5_000_000_000;
    loop {
        if let Action::Report(result) = action {
            assert_eq!(result, Ok(vec![("example".to_string(), 2, 0)]));
            break;
        }
        if let Action::InsertRecord { id, token, timestamp, .. } = &action {
            ids.push(*id);
            stamps.push((token.clone(), *timestamp));
        }
        let event = store.perform(action);
        clock += 1_000_000;
        let stamp = Stamp { token: format!("token{}", clock), millis: clock / 1_000_000, nanos: clock };
        action = engine.step_with(event, stamp);
    }
    assert_eq!(ids.len(), 2);
    assert_eq!(ids[1], ids[0] + 1);
    assert_eq!(ids[0], 5006);
    assert_eq!(
        stamps,
        vec![("token5006000000".to_string(), 5_006_000_000), ("token5007000000".to_string(), 5_007_000_000)]
    );
}

#[test]
fn padded_fields_are_stored_and_met_again() {
    let mut store = Store::new();
    let short = vec![deck("example", vec![("basic", vec![card("basic", &["k"], Some(" t "))])])];
    assert_eq!(run(&mut store, short), Ok(vec![("example".to_string(), 1, 0)]));
    assert_eq!(store.notes[0].fields, "k\u{1f}\u{1f}");
    assert_eq!(store.notes[0].tags, " t ");
    let usn_before = store.notes[0].usn;
    store.usn = 99;
    let again = vec![deck("example", vec![("basic", vec![card("basic", &["k"], Some("t"))])])];
    assert_eq!(run(&mut store, again), Ok(vec![("example".to_string(), 0, 0)]));
    assert_eq!(store.notes[0].usn, usn_before);
    let long = vec![deck("example", vec![("basic", vec![card("basic", &["k", "1", "2", "3"], Some("t"))])])];
    assert_eq!(run(&mut store, long), Ok(vec![("example".to_string(), 0, 1)]));
    assert_eq!(store.notes[0].fields, "k\u{1f}1\u{1f}2\u{1f}3");
    assert_eq!(store.notes[0].usn, 99);
}

#[test]
fn a_random_deck_is_sorted_again() {
    let mut store = Store::new();
    let decks = vec![deck("shuffled", vec![("cloze", vec![card("cloze", &["a", "c"], None)])])];
    assert_eq!(run(&mut store, decks), Ok(vec![("shuffled".to_string(), 1, 0)]));
    assert_eq!(store.resorted, vec![2]);
    assert_eq!(store.last_writers, vec![(12, 2)]);
}

#[test]
fn a_model_is_resolved_once_in_a_run() {
    let mut store = Store::new();
    let decks = vec![
        deck("example", vec![("basic", vec![card("basic", &["a"], None)])]),
        deck("shuffled", vec![("basic", vec![card("basic", &["b"], None)]), ("cloze", vec![])]),
    ];
    assert_eq!(
        run(&mut store, decks),
        Ok(vec![("example".to_string(), 1, 0), ("shuffled".to_string(), 1, 0)])
    );
    assert_eq!(store.asked, vec!["model basic".to_string(), "model cloze".to_string()]);
    assert_eq!(store.last_writers, vec![(11, 1), (11, 2), (12, 2)]);
}

#[test]
fn decks_without_groups_report_nothing() {
    let mut store = Store::new();
    let decks = vec![deck("idle", vec![]), deck("example", vec![]), deck("last", vec![])];
    assert_eq!(
        run(&mut store, decks),
        Ok(vec![("idle".to_string(), 0, 0), ("example".to_string(), 0, 0), ("last".to_string(), 0, 0)])
    );
    assert!(store.committed);
    let mut store = Store::new();
    assert_eq!(run(&mut store, vec![]), Ok(vec![]));
    assert!(store.committed);
}

#[test]
fn an_event_out_of_turn_is_refused() {
    let (mut engine, action) = Engine::begin(vec![]);
    assert_eq!(action, Action::BeginSavepoint);
    assert_eq!(engine.phase(), Phase::Opening);
    assert!(!engine.expects(&Event::Number(1)));
    assert_eq!(engine.try_step(Event::Number(1)), None);
    assert_eq!(engine.phase(), Phase::Opening);
    assert_eq!(engine.try_step(Event::Done), Some(Action::Commit));
    assert_eq!(engine.try_step(Event::Done), Some(Action::Report(Ok(vec![]))));
    assert_eq!(engine.try_step(Event::Done), None);
}

#[test]
fn cards_without_fields_are_no_decks() {
    let whole = vec![deck("d", vec![("m", vec![card("m", &["k"], None)])])];
    assert!(valid_decks(&whole));
    let broken = vec![deck("d", vec![("m", vec![card("m", &["k"], None), card("m", &[], None)])])];
    assert!(!valid_decks(&broken));
}

#[test]
fn exhausted_identifiers_fail_the_group() {
    let mut store = Store::new();
    store.notes.push(Note {
        id: i64::MAX - 1,
        token: "t".to_string(),
        model_id: 11,
        modified: 0,
        usn: 0,
        tags: " ".to_string(),
        fields: "old".to_string(),
        identity: "old".to_string(),
    });
    let decks = vec![deck("example", vec![("basic", vec![card("basic", &["new"], None)])])];
    assert_eq!(run(&mut store, decks), Err(vec!["no record identifiers left".to_string()]));
    assert_eq!(store.notes.len(), 1);
}
