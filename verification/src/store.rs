//! What the engine asks of the collection store, and what the store answers.

use vstd::prelude::*;

verus! {

/// A record of the store that a card was matched with.
#[derive(Debug, PartialEq)]
pub struct ExistingNote {
    pub id: i64,
    pub fields: String,
    pub tags: String,
}

pub struct ExistingNoteView {
    pub id: i64,
    pub fields: Seq<char>,
    pub tags: Seq<char>,
}

impl View for ExistingNote {
    type V = ExistingNoteView;

    open spec fn view(&self) -> ExistingNoteView {
        ExistingNoteView { id: self.id, fields: self.fields@, tags: self.tags@ }
    }
}

impl DeepView for ExistingNote {
    type V = ExistingNoteView;

    open spec fn deep_view(&self) -> ExistingNoteView {
        self@
    }
}

/// How a deck places the cards that are new to it.
#[derive(Debug, PartialEq, Eq, Structural, Clone, Copy)]
pub enum DeckKind {
    Ordered,
    Random,
}

/// A record that the store does not hold yet.
#[derive(Debug, PartialEq)]
pub struct NewRecord {
    pub id: i64,
    pub tags: String,
    pub fields: String,
    pub identity: String,
}

pub struct NewRecordView {
    pub id: int,
    pub tags: Seq<char>,
    pub fields: Seq<char>,
    pub identity: Seq<char>,
}

impl View for NewRecord {
    type V = NewRecordView;

    open spec fn view(&self) -> NewRecordView {
        NewRecordView {
            id: self.id as int,
            tags: self.tags@,
            fields: self.fields@,
            identity: self.identity@,
        }
    }
}

impl DeepView for NewRecord {
    type V = NewRecordView;

    open spec fn deep_view(&self) -> NewRecordView {
        self@
    }
}

/// A record of the store whose content differs from its card.
#[derive(Debug, PartialEq)]
pub struct ChangedRecord {
    pub record_id: i64,
    pub tags: String,
    pub fields: String,
    pub identity: String,
}

pub struct ChangedRecordView {
    pub record_id: int,
    pub tags: Seq<char>,
    pub fields: Seq<char>,
    pub identity: Seq<char>,
}

impl View for ChangedRecord {
    type V = ChangedRecordView;

    open spec fn view(&self) -> ChangedRecordView {
        ChangedRecordView {
            record_id: self.record_id as int,
            tags: self.tags@,
            fields: self.fields@,
            identity: self.identity@,
        }
    }
}

impl DeepView for ChangedRecord {
    type V = ChangedRecordView;

    open spec fn deep_view(&self) -> ChangedRecordView {
        self@
    }
}

/// One deck's count of added and of updated records.
pub type DeckCount = (String, i32, i32);

/// What the store is to do next.
#[derive(Debug, PartialEq)]
pub enum Action {
    BeginSavepoint,
    ResolveModel { name: String },
    FindByIdentity { key: String },
    MaxRecordId,
    Usn,
    InsertRecord {
        id: i64,
        token: String,
        model_id: i64,
        timestamp: i64,
        usn: i64,
        tags: String,
        fields: String,
        identity: String,
    },
    UpdateRecord {
        timestamp: i64,
        usn: i64,
        tags: String,
        fields: String,
        identity: String,
        record_id: i64,
    },
    ResolveDeck { name: String },
    SetLastWriter { model_id: i64, deck_id: i64 },
    DeckKind { deck_id: i64 },
    NotifyChanged { record_ids: Vec<i64> },
    ResortIfRandom { deck_id: i64 },
    Commit,
    Rollback,
    /// Nothing is left to do: the run's result.
    Report(Result<Vec<DeckCount>, Vec<String>>),
}

pub enum ActionView {
    BeginSavepoint,
    ResolveModel { name: Seq<char> },
    FindByIdentity { key: Seq<char> },
    MaxRecordId,
    Usn,
    InsertRecord {
        id: int,
        token: Seq<char>,
        model_id: int,
        timestamp: int,
        usn: int,
        tags: Seq<char>,
        fields: Seq<char>,
        identity: Seq<char>,
    },
    UpdateRecord {
        timestamp: int,
        usn: int,
        tags: Seq<char>,
        fields: Seq<char>,
        identity: Seq<char>,
        record_id: int,
    },
    ResolveDeck { name: Seq<char> },
    SetLastWriter { model_id: int, deck_id: int },
    DeckKind { deck_id: int },
    NotifyChanged { record_ids: Seq<i64> },
    ResortIfRandom { deck_id: int },
    Commit,
    Rollback,
    Report(Result<Seq<(Seq<char>, i32, i32)>, Seq<Seq<char>>>),
}

impl View for Action {
    type V = ActionView;

    open spec fn view(&self) -> ActionView {
        match *self {
            Action::BeginSavepoint => ActionView::BeginSavepoint,
            Action::ResolveModel { name } => ActionView::ResolveModel { name: name@ },
            Action::FindByIdentity { key } => ActionView::FindByIdentity { key: key@ },
            Action::MaxRecordId => ActionView::MaxRecordId,
            Action::Usn => ActionView::Usn,
            Action::InsertRecord {
                id,
                token,
                model_id,
                timestamp,
                usn,
                tags,
                fields,
                identity,
            } => ActionView::InsertRecord {
                id: id as int,
                token: token@,
                model_id: model_id as int,
                timestamp: timestamp as int,
                usn: usn as int,
                tags: tags@,
                fields: fields@,
                identity: identity@,
            },
            Action::UpdateRecord { timestamp, usn, tags, fields, identity, record_id } => {
                ActionView::UpdateRecord {
                    timestamp: timestamp as int,
                    usn: usn as int,
                    tags: tags@,
                    fields: fields@,
                    identity: identity@,
                    record_id: record_id as int,
                }
            },
            Action::ResolveDeck { name } => ActionView::ResolveDeck { name: name@ },
            Action::SetLastWriter { model_id, deck_id } => ActionView::SetLastWriter {
                model_id: model_id as int,
                deck_id: deck_id as int,
            },
            Action::DeckKind { deck_id } => ActionView::DeckKind { deck_id: deck_id as int },
            Action::NotifyChanged { record_ids } => ActionView::NotifyChanged {
                record_ids: record_ids@,
            },
            Action::ResortIfRandom { deck_id } => ActionView::ResortIfRandom {
                deck_id: deck_id as int,
            },
            Action::Commit => ActionView::Commit,
            Action::Rollback => ActionView::Rollback,
            Action::Report(result) => ActionView::Report(
                match result {
                    Ok(counts) => Ok(counts.deep_view()),
                    Err(messages) => Err(messages.deep_view()),
                },
            ),
        }
    }
}

/// What the store answered to the last action.
#[derive(Debug, PartialEq)]
pub enum Event {
    /// The action was carried out; it has no answer.
    Done,
    /// The model's identifier and the number of fields it declares, if the
    /// store knows the model.
    Model(Option<(i64, usize)>),
    /// The record whose matching key is the one asked for, if there is one.
    Existing(Option<ExistingNote>),
    /// The largest record identifier, or the update sequence number.
    Number(i64),
    /// How many rows an insert or an update touched.
    Affected(usize),
    /// The deck's identifier, if the store knows the deck.
    Deck(Option<i64>),
    Kind(DeckKind),
    /// `None` where the store took the changed records in, else its message.
    Notified(Option<String>),
}

pub enum EventView {
    Done,
    Model(Option<(i64, usize)>),
    Existing(Option<ExistingNoteView>),
    Number(i64),
    Affected(usize),
    Deck(Option<i64>),
    Kind(DeckKind),
    Notified(Option<Seq<char>>),
}

impl View for Event {
    type V = EventView;

    open spec fn view(&self) -> EventView {
        match *self {
            Event::Done => EventView::Done,
            Event::Model(m) => EventView::Model(m),
            Event::Existing(e) => EventView::Existing(e.deep_view()),
            Event::Number(n) => EventView::Number(n),
            Event::Affected(n) => EventView::Affected(n),
            Event::Deck(d) => EventView::Deck(d),
            Event::Kind(k) => EventView::Kind(k),
            Event::Notified(m) => EventView::Notified(m.deep_view()),
        }
    }
}

} // verus!
