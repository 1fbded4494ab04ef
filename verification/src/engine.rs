//! The reconciliation engine: from the store's last answer to the next thing
//! that the store has to do.
//!
//! The engine never touches the store. Its caller carries out each
//! [`Action`] and hands the store's answer back as an [`Event`]; the engine
//! decides what comes next. One run goes through every group of every deck
//! inside one savepoint, which is released only if no deck failed.

use vstd::prelude::*;
use crate::cards::{CardView, Deck, DeckView};
use crate::outcome::{
    all_succeeded, conclude, deck_log, join_messages, lemma_failures, succeeded, verdict, DeckLog,
    DeckLogView, ReconcileError, ReconcileErrorView,
};
use crate::encode::{field_blob, tag_blob};
use crate::plan::{
    added_card, base_identifier, count_new, first_identifier, identifiers_fit,
    lemma_insert_stands_for_a_new_card, lemma_update_stands_for_a_change, new_count,
    plan_inserts, plan_updates, planned_inserts, planned_updates, unchanged, updated_card,
};
use crate::stamp::{Stamp, StampView};
use crate::store::{
    Action, ActionView, ChangedRecord, ChangedRecordView, DeckKind, Event, EventView,
    ExistingNote, ExistingNoteView, NewRecord, NewRecordView,
};

verus! {

/// Which answer the engine waits for.
#[derive(Debug, PartialEq, Eq, Structural, Clone, Copy)]
pub enum Phase {
    /// The savepoint is being opened.
    Opening,
    /// The group's model is being resolved.
    Model,
    /// The card at the cursor is being looked up.
    Probing,
    /// The store's largest record identifier is being read.
    MaxId,
    /// The store's update sequence number is being read.
    Usn,
    /// The new record at the cursor is being added.
    Inserting,
    /// The changed record at the cursor is being updated.
    Updating,
    /// The deck is being resolved.
    Deck,
    /// The deck's last writer is being recorded.
    LastWriter,
    /// The deck's kind is being read.
    Kind,
    /// The changed records are being handed to the store.
    Notify,
    /// The deck's new cards are being sorted again.
    Resort,
    /// The savepoint is being released or rolled back.
    Closing,
    /// The run is over.
    Finished,
}

/// The state of a run.
pub struct Engine {
    decks: Vec<Deck>,
    phase: Phase,
    deck: usize,
    group: usize,
    cursor: usize,
    models: Vec<(String, i64, usize)>,
    model_id: i64,
    field_count: usize,
    probes: Vec<Option<ExistingNote>>,
    max_id: i64,
    usn: i64,
    base: i64,
    inserts: Vec<NewRecord>,
    updates: Vec<ChangedRecord>,
    deck_id: i64,
    kind: DeckKind,
    added: i32,
    updated: i32,
    errors: Vec<ReconcileError>,
    changed: Vec<i64>,
    logs: Vec<DeckLog>,
}

/// What the state of a run is.
pub struct EngineView {
    /// The decks to go through.
    pub decks: Seq<DeckView>,
    pub phase: Phase,
    /// The deck and the group that are gone through, and how far.
    pub deck: nat,
    pub group: nat,
    pub cursor: nat,
    /// The models that were resolved in this run: name, identifier, fields.
    pub models: Seq<(Seq<char>, i64, usize)>,
    /// The model of the group.
    pub model_id: i64,
    pub field_count: usize,
    /// The store's answer for each card of the group that was looked up.
    pub probes: Seq<Option<ExistingNoteView>>,
    pub max_id: i64,
    pub usn: i64,
    /// The identifier of the group's first new record.
    pub base: i64,
    /// What the group adds and updates.
    pub inserts: Seq<NewRecordView>,
    pub updates: Seq<ChangedRecordView>,
    pub deck_id: i64,
    pub kind: DeckKind,
    /// What the deck has added and updated so far, and what went wrong.
    pub added: i32,
    pub updated: i32,
    pub errors: Seq<ReconcileErrorView>,
    /// The records that changed in this run.
    pub changed: Seq<i64>,
    /// What the decks that are done have to report.
    pub logs: Seq<DeckLogView>,
}

impl View for Engine {
    type V = EngineView;

    closed spec fn view(&self) -> EngineView {
        EngineView {
            decks: self.decks.deep_view(),
            phase: self.phase,
            deck: self.deck as nat,
            group: self.group as nat,
            cursor: self.cursor as nat,
            models: self.models.deep_view(),
            model_id: self.model_id,
            field_count: self.field_count,
            probes: self.probes.deep_view(),
            max_id: self.max_id,
            usn: self.usn,
            base: self.base,
            inserts: self.inserts.deep_view(),
            updates: self.updates.deep_view(),
            deck_id: self.deck_id,
            kind: self.kind,
            added: self.added,
            updated: self.updated,
            errors: self.errors.deep_view(),
            changed: self.changed@,
            logs: self.logs.deep_view(),
        }
    }
}

/// Whether every card of the decks carries its identifier.
pub open spec fn decks_wf(decks: Seq<DeckView>) -> bool {
    forall|i: int| 0 <= i < decks.len() ==> (#[trigger] decks[i]).wf()
}

/// The model of this name among those that were resolved, if it is there.
pub open spec fn known_model(models: Seq<(Seq<char>, i64, usize)>, name: Seq<char>) -> Option<
    (i64, usize),
>
    decreases models.len(),
{
    if models.len() == 0 {
        None
    } else if models[0].0 == name {
        Some((models[0].1, models[0].2))
    } else {
        known_model(models.drop_first(), name)
    }
}

/// One more, unless the count stands at its largest.
pub open spec fn counted(n: i32) -> i32 {
    if n < i32::MAX {
        (n + 1) as i32
    } else {
        n
    }
}

impl EngineView {
    /// Whether the phase belongs to the work on one group.
    pub open spec fn in_group(self) -> bool {
        !(self.phase is Opening || self.phase is Closing || self.phase is Finished)
    }

    /// The cards of the group.
    pub open spec fn cards(self) -> Seq<CardView> {
        self.decks[self.deck as int].groups[self.group as int].cards
    }

    /// The name of the group's model.
    pub open spec fn model(self) -> Seq<char> {
        self.decks[self.deck as int].groups[self.group as int].model
    }

    /// The name of the deck.
    pub open spec fn deck_name(self) -> Seq<char> {
        self.decks[self.deck as int].name
    }

    /// What holds of the state between two steps.
    pub open spec fn wf(self) -> bool {
        &&& decks_wf(self.decks)
        &&& self.deck <= self.decks.len()
        &&& self.in_group() ==> self.deck < self.decks.len() && self.group
            < self.decks[self.deck as int].groups.len()
        &&& self.phase is Model ==> self.cursor == 0 && self.probes.len() == 0
        &&& self.phase is Probing ==> self.cursor < self.cards().len() && self.probes.len()
            == self.cursor
        &&& self.phase is MaxId || self.phase is Usn ==> self.probes.len() == self.cards().len()
        &&& self.phase is Inserting ==> self.cursor < self.inserts.len()
        &&& self.phase is Updating ==> self.cursor < self.updates.len()
        &&& self.phase is Inserting || self.phase is Updating ==> self.follows_plan()
        &&& self.deck >= self.decks.len() ==> self.errors.len() == 0
    }

    /// Whether what the group adds and updates is what its cards and the
    /// store's answers ask for, numbered from the group's base on.
    pub open spec fn follows_plan(self) -> bool {
        &&& self.probes.len() == self.cards().len()
        &&& self.inserts == planned_inserts(
            self.cards(),
            self.probes,
            self.field_count as int,
            self.base as int,
        )
        &&& self.updates == planned_updates(self.cards(), self.probes, self.field_count as int)
    }

    /// The state in which a run over `decks` starts.
    pub open spec fn start(decks: Seq<DeckView>) -> EngineView {
        EngineView {
            decks,
            phase: Phase::Opening,
            deck: 0,
            group: 0,
            cursor: 0,
            models: Seq::empty(),
            model_id: 0,
            field_count: 0,
            probes: Seq::empty(),
            max_id: 0,
            usn: 0,
            base: 0,
            inserts: Seq::empty(),
            updates: Seq::empty(),
            deck_id: 0,
            kind: DeckKind::Ordered,
            added: 0,
            updated: 0,
            errors: Seq::empty(),
            changed: Seq::empty(),
            logs: Seq::empty(),
        }
    }

    /// Whether a group of the run has failed so far.
    pub open spec fn failed(self) -> bool {
        self.errors.len() > 0 || !all_succeeded(self.logs)
    }

    /// Whether `event` answers what the engine asked for last.
    pub open spec fn expects(self, event: EventView) -> bool {
        match self.phase {
            Phase::Opening | Phase::LastWriter | Phase::Resort | Phase::Closing => event is Done,
            Phase::Model => event is Model,
            Phase::Probing => event is Existing,
            Phase::MaxId | Phase::Usn => event is Number,
            Phase::Inserting | Phase::Updating => event is Affected,
            Phase::Deck => event is Deck,
            Phase::Kind => event is Kind,
            Phase::Notify => event is Notified,
            Phase::Finished => false,
        }
    }

    /// All decks are done: the savepoint is released if none of them
    /// failed, and rolled back if one did.
    pub open spec fn close(self) -> (EngineView, ActionView) {
        (
            EngineView { phase: Phase::Closing, ..self },
            if all_succeeded(self.logs) {
                ActionView::Commit
            } else {
                ActionView::Rollback
            },
        )
    }

    /// The deck is done: it reports, and the next deck starts afresh.
    pub open spec fn finish_deck(self) -> EngineView {
        EngineView {
            logs: self.logs.push(
                deck_log(self.deck_name(), self.added, self.updated, self.errors),
            ),
            deck: self.deck + 1,
            group: 0,
            added: 0,
            updated: 0,
            errors: Seq::empty(),
            ..self
        }
    }

    /// The cards of the group are looked up one by one, the first one
    /// first; a group without cards goes on to the store's counters.
    pub open spec fn probe(self) -> (EngineView, ActionView) {
        if self.cards().len() == 0 {
            (EngineView { phase: Phase::MaxId, ..self }, ActionView::MaxRecordId)
        } else {
            (
                EngineView { phase: Phase::Probing, ..self },
                ActionView::FindByIdentity { key: self.cards()[self.cursor as int].identity() },
            )
        }
    }

    /// A group starts with its model, which is asked of the store unless
    /// this run has resolved it before.
    pub open spec fn start_group(self) -> (EngineView, ActionView) {
        let fresh = EngineView {
            cursor: 0,
            probes: Seq::empty(),
            inserts: Seq::empty(),
            updates: Seq::empty(),
            ..self
        };
        match known_model(self.models, self.model()) {
            Some((id, count)) => EngineView { model_id: id, field_count: count, ..fresh }.probe(),
            None => (
                EngineView { phase: Phase::Model, ..fresh },
                ActionView::ResolveModel { name: self.model() },
            ),
        }
    }

    /// What comes when a group is done: the next group of the deck, or the
    /// first group of the next deck that has one, or the end of the run.
    pub open spec fn settle(self) -> (EngineView, ActionView)
        decreases self.decks.len() - self.deck,
    {
        if self.deck >= self.decks.len() {
            self.close()
        } else if self.group >= self.decks[self.deck as int].groups.len() {
            self.finish_deck().settle()
        } else {
            self.start_group()
        }
    }

    /// The group is given up for `error`; the run goes on after it.
    pub open spec fn fail_group(self, error: ReconcileErrorView) -> (EngineView, ActionView) {
        EngineView {
            errors: self.errors.push(error),
            group: self.group + 1,
            ..self
        }.settle()
    }

    /// The group is done.
    pub open spec fn leave_group(self) -> (EngineView, ActionView) {
        EngineView { group: self.group + 1, ..self }.settle()
    }

    /// The changed records are updated one by one; after the last one the
    /// deck is resolved.
    pub open spec fn emit_update(self, stamp: StampView) -> (EngineView, ActionView) {
        if self.cursor < self.updates.len() {
            let record = self.updates[self.cursor as int];
            (
                EngineView { phase: Phase::Updating, ..self },
                ActionView::UpdateRecord {
                    timestamp: stamp.nanos as int,
                    usn: self.usn as int,
                    tags: record.tags,
                    fields: record.fields,
                    identity: record.identity,
                    record_id: record.record_id,
                },
            )
        } else {
            (
                EngineView { phase: Phase::Deck, ..self },
                ActionView::ResolveDeck { name: self.deck_name() },
            )
        }
    }

    /// The new records are added one by one, each with the token of its
    /// step; after the last one the updates follow.
    pub open spec fn emit_insert(self, stamp: StampView) -> (EngineView, ActionView) {
        if self.cursor < self.inserts.len() {
            let record = self.inserts[self.cursor as int];
            (
                EngineView { phase: Phase::Inserting, ..self },
                ActionView::InsertRecord {
                    id: record.id,
                    token: stamp.token,
                    model_id: self.model_id as int,
                    timestamp: stamp.nanos as int,
                    usn: self.usn as int,
                    tags: record.tags,
                    fields: record.fields,
                    identity: record.identity,
                },
            )
        } else {
            EngineView { cursor: 0, ..self }.emit_update(stamp)
        }
    }

    /// With the cards looked up and the counters read, the group's new
    /// records are numbered from one past the store's largest identifier
    /// where that lies after the clock, else from the clock, and what the
    /// store holds unchanged is left alone.
    pub open spec fn write(self, stamp: StampView) -> (EngineView, ActionView) {
        if identifiers_fit(self.max_id as int, stamp.millis as int, new_count(self.probes) as int) {
            EngineView {
                base: base_identifier(self.max_id as int, stamp.millis as int) as i64,
                inserts: planned_inserts(
                    self.cards(),
                    self.probes,
                    self.field_count as int,
                    base_identifier(self.max_id as int, stamp.millis as int),
                ),
                updates: planned_updates(self.cards(), self.probes, self.field_count as int),
                cursor: 0,
                ..self
            }.emit_insert(stamp)
        } else {
            self.fail_group(ReconcileErrorView::OutOfIdentifiers)
        }
    }

    /// The state and the action that follow when `event` answers the last
    /// action and the step takes `stamp` from outside.
    pub open spec fn next(self, event: EventView, stamp: StampView) -> (EngineView, ActionView) {
        match (self.phase, event) {
            (Phase::Opening, EventView::Done) => self.settle(),
            (Phase::Model, EventView::Model(Some((id, count)))) => EngineView {
                models: self.models.push((self.model(), id, count)),
                model_id: id,
                field_count: count,
                ..self
            }.probe(),
            (Phase::Model, EventView::Model(None)) => self.fail_group(
                ReconcileErrorView::UnknownModel {
                    model: self.model(),
                    card: if self.cards().len() > 0 {
                        Some(self.cards()[0].identity())
                    } else {
                        None
                    },
                },
            ),
            (Phase::Probing, EventView::Existing(found)) => {
                let seen = EngineView {
                    probes: self.probes.push(found),
                    cursor: self.cursor + 1,
                    ..self
                };
                if seen.cursor < self.cards().len() {
                    seen.probe()
                } else {
                    (EngineView { phase: Phase::MaxId, ..seen }, ActionView::MaxRecordId)
                }
            },
            (Phase::MaxId, EventView::Number(n)) => (
                EngineView { max_id: n, phase: Phase::Usn, ..self },
                ActionView::Usn,
            ),
            (Phase::Usn, EventView::Number(n)) => EngineView { usn: n, ..self }.write(stamp),
            (Phase::Inserting, EventView::Affected(rows)) => {
                let counted = if rows > 0 {
                    EngineView {
                        changed: self.changed.push(self.inserts[self.cursor as int].id as i64),
                        added: counted(self.added),
                        ..self
                    }
                } else {
                    self
                };
                EngineView { cursor: self.cursor + 1, ..counted }.emit_insert(stamp)
            },
            (Phase::Updating, EventView::Affected(rows)) => {
                let counted = if rows > 0 {
                    EngineView {
                        changed: self.changed.push(
                            self.updates[self.cursor as int].record_id as i64,
                        ),
                        updated: counted(self.updated),
                        ..self
                    }
                } else {
                    self
                };
                EngineView { cursor: self.cursor + 1, ..counted }.emit_update(stamp)
            },
            (Phase::Deck, EventView::Deck(Some(id))) => (
                EngineView { deck_id: id, phase: Phase::LastWriter, ..self },
                ActionView::SetLastWriter { model_id: self.model_id as int, deck_id: id as int },
            ),
            (Phase::Deck, EventView::Deck(None)) => self.fail_group(
                ReconcileErrorView::UnknownDeck(self.deck_name()),
            ),
            (Phase::LastWriter, EventView::Done) => (
                EngineView { phase: Phase::Kind, ..self },
                ActionView::DeckKind { deck_id: self.deck_id as int },
            ),
            (Phase::Kind, EventView::Kind(kind)) => (
                EngineView { kind, phase: Phase::Notify, ..self },
                ActionView::NotifyChanged { record_ids: self.changed },
            ),
            (Phase::Notify, EventView::Notified(None)) => if self.kind is Random {
                (
                    EngineView { phase: Phase::Resort, ..self },
                    ActionView::ResortIfRandom { deck_id: self.deck_id as int },
                )
            } else {
                self.leave_group()
            },
            (Phase::Notify, EventView::Notified(Some(message))) => self.fail_group(
                ReconcileErrorView::Store(message),
            ),
            (Phase::Resort, EventView::Done) => self.leave_group(),
            (Phase::Closing, EventView::Done) => (
                EngineView { phase: Phase::Finished, ..self },
                ActionView::Report(verdict(self.logs)),
            ),
            _ => (self, ActionView::Report(verdict(self.logs))),
        }
    }
}

/// Whether every card of the decks carries its identifier.
pub fn valid_decks(decks: &Vec<Deck>) -> (ok: bool)
    ensures
        ok == decks_wf(decks.deep_view()),
{
    let ghost all = decks.deep_view();
    let mut d: usize = 0;
    while d < decks.len()
        invariant
            d <= decks.len(),
            all == decks.deep_view(),
            forall|i: int| 0 <= i < d ==> (#[trigger] all[i]).wf(),
        decreases decks.len() - d,
    {
        let groups = &decks[d].groups;
        let mut g: usize = 0;
        while g < groups.len()
            invariant
                g <= groups.len(),
                d < decks.len(),
                all == decks.deep_view(),
                groups == decks@[d as int].groups,
                forall|i: int| 0 <= i < g ==> (#[trigger] all[d as int].groups[i]).wf(),
            decreases groups.len() - g,
        {
            let cards = &groups[g].cards;
            let mut c: usize = 0;
            while c < cards.len()
                invariant
                    c <= cards.len(),
                    d < decks.len(),
                    g < groups.len(),
                    all == decks.deep_view(),
                    groups == decks@[d as int].groups,
                    cards == groups@[g as int].cards,
                    forall|i: int|
                        0 <= i < c ==> (#[trigger] all[d as int].groups[g as int].cards[i]).wf(),
                decreases cards.len() - c,
            {
                if cards[c].fields.len() == 0 {
                    assert(!all[d as int].groups[g as int].cards[c as int].wf());
                    assert(!all[d as int].groups[g as int].wf());
                    assert(!all[d as int].wf());
                    return false;
                }
                c += 1;
            }
            g += 1;
        }
        d += 1;
    }
    true
}

impl Engine {
    /// What holds of the engine between two steps.
    pub closed spec fn wf(&self) -> bool {
        self@.wf()
    }

    /// A run over `decks`, and its first action: the savepoint is opened.
    pub fn begin(decks: Vec<Deck>) -> (start: (Engine, Action))
        requires
            decks_wf(decks.deep_view()),
        ensures
            start.0.wf(),
            start.0@ == EngineView::start(decks.deep_view()),
            start.1@ == ActionView::BeginSavepoint,
    {
        let engine = Engine {
            decks,
            phase: Phase::Opening,
            deck: 0,
            group: 0,
            cursor: 0,
            models: Vec::new(),
            model_id: 0,
            field_count: 0,
            probes: Vec::new(),
            max_id: 0,
            usn: 0,
            base: 0,
            inserts: Vec::new(),
            updates: Vec::new(),
            deck_id: 0,
            kind: DeckKind::Ordered,
            added: 0,
            updated: 0,
            errors: Vec::new(),
            changed: Vec::new(),
            logs: Vec::new(),
        };
        proof {
            assert(engine@.models =~= Seq::empty());
            assert(engine@.probes =~= Seq::empty());
            assert(engine@.inserts =~= Seq::empty());
            assert(engine@.updates =~= Seq::empty());
            assert(engine@.errors =~= Seq::empty());
            assert(engine@.changed =~= Seq::empty());
            assert(engine@.logs =~= Seq::empty());
        }
        (engine, Action::BeginSavepoint)
    }

    /// Which answer the engine waits for.
    pub fn phase(&self) -> (phase: Phase)
        ensures
            phase == self@.phase,
    {
        self.phase
    }

    /// Whether `event` answers what the engine asked for last.
    pub fn expects(&self, event: &Event) -> (ok: bool)
        ensures
            ok == self@.expects(event@),
    {
        match self.phase {
            Phase::Opening | Phase::LastWriter | Phase::Resort | Phase::Closing => matches!(
                event,
                Event::Done
            ),
            Phase::Model => matches!(event, Event::Model(_)),
            Phase::Probing => matches!(event, Event::Existing(_)),
            Phase::MaxId | Phase::Usn => matches!(event, Event::Number(_)),
            Phase::Inserting | Phase::Updating => matches!(event, Event::Affected(_)),
            Phase::Deck => matches!(event, Event::Deck(_)),
            Phase::Kind => matches!(event, Event::Kind(_)),
            Phase::Notify => matches!(event, Event::Notified(_)),
            Phase::Finished => false,
        }
    }

    fn lookup_model(&self, name: &String) -> (found: Option<(i64, usize)>)
        ensures
            found == known_model(self@.models, name@),
    {
        let ghost all = self.models.deep_view();
        let mut i: usize = 0;
        assert(all.skip(0) =~= all);
        while i < self.models.len()
            invariant
                i <= self.models.len(),
                all == self.models.deep_view(),
                known_model(all, name@) == known_model(all.skip(i as int), name@),
            decreases self.models.len() - i,
        {
            proof {
                assert(all.skip(i as int).drop_first() =~= all.skip(i as int + 1));
                assert(all.skip(i as int)[0] == self.models@[i as int].deep_view());
            }
            let entry = &self.models[i];
            if entry.0 == *name {
                return Some((entry.1, entry.2));
            }
            i += 1;
        }
        None
    }

    fn close(&mut self) -> (action: Action)
        ensures
            (final(self)@, action@) == old(self)@.close(),
    {
        self.phase = Phase::Closing;
        if succeeded(&self.logs) {
            Action::Commit
        } else {
            Action::Rollback
        }
    }

    fn finish_deck(&mut self)
        requires
            old(self).deck < old(self).decks.len(),
        ensures
            final(self)@ == old(self)@.finish_deck(),
    {
        let failure = if self.errors.len() == 0 {
            None
        } else {
            Some(join_messages(&self.errors))
        };
        let log = DeckLog {
            name: self.decks[self.deck].name.clone(),
            added: self.added,
            updated: self.updated,
            failure,
        };
        let ghost before = self.logs.deep_view();
        self.logs.push(log);
        self.deck = self.deck + 1;
        self.group = 0;
        self.added = 0;
        self.updated = 0;
        self.errors = Vec::new();
        proof {
            assert(self.logs.deep_view() =~= before.push(log@));
            assert(self.errors.deep_view() =~= Seq::<ReconcileErrorView>::empty());
        }
    }

    fn probe(&mut self) -> (action: Action)
        requires
            decks_wf(old(self)@.decks),
            old(self).deck < old(self).decks.len(),
            old(self).group < old(self).decks@[old(self).deck as int].groups.len(),
            old(self)@.cards().len() > 0 ==> old(self).cursor < old(self)@.cards().len(),
        ensures
            (final(self)@, action@) == old(self)@.probe(),
    {
        let cards = &self.decks[self.deck].groups[self.group].cards;
        if cards.len() == 0 {
            self.phase = Phase::MaxId;
            Action::MaxRecordId
        } else {
            proof {
                let card = self@.cards()[self.cursor as int];
                assert(self@.decks[self.deck as int].wf());
                assert(self@.decks[self.deck as int].groups[self.group as int].wf());
                assert(card.wf());
            }
            let key = cards[self.cursor].fields[0].clone();
            self.phase = Phase::Probing;
            Action::FindByIdentity { key }
        }
    }

    fn start_group(&mut self) -> (action: Action)
        requires
            decks_wf(old(self)@.decks),
            old(self).deck < old(self).decks.len(),
            old(self).group < old(self).decks@[old(self).deck as int].groups.len(),
        ensures
            (final(self)@, action@) == old(self)@.start_group(),
    {
        self.cursor = 0;
        self.probes = Vec::new();
        self.inserts = Vec::new();
        self.updates = Vec::new();
        proof {
            assert(self.probes.deep_view() =~= Seq::<Option<ExistingNoteView>>::empty());
            assert(self.inserts.deep_view() =~= Seq::<NewRecordView>::empty());
            assert(self.updates.deep_view() =~= Seq::<ChangedRecordView>::empty());
        }
        let found = self.lookup_model(&self.decks[self.deck].groups[self.group].model);
        match found {
            Some((id, count)) => {
                self.model_id = id;
                self.field_count = count;
                self.probe()
            },
            None => {
                self.phase = Phase::Model;
                Action::ResolveModel {
                    name: self.decks[self.deck].groups[self.group].model.clone(),
                }
            },
        }
    }

    fn settle(&mut self) -> (action: Action)
        requires
            decks_wf(old(self)@.decks),
            old(self).deck <= old(self).decks.len(),
        ensures
            (final(self)@, action@) == old(self)@.settle(),
    {
        while self.deck < self.decks.len() && self.group >= self.decks[self.deck].groups.len()
            invariant
                decks_wf(self@.decks),
                self.deck <= self.decks.len(),
                self@.settle() == old(self)@.settle(),
            decreases self.decks.len() - self.deck,
        {
            self.finish_deck();
        }
        if self.deck >= self.decks.len() {
            self.close()
        } else {
            self.start_group()
        }
    }

    fn fail_group(&mut self, error: ReconcileError) -> (action: Action)
        requires
            decks_wf(old(self)@.decks),
            old(self).deck < old(self).decks.len(),
            old(self).group < old(self).decks@[old(self).deck as int].groups.len(),
        ensures
            (final(self)@, action@) == old(self)@.fail_group(error@),
    {
        let ghost before = self.errors.deep_view();
        self.errors.push(error);
        assert(self.errors.deep_view() =~= before.push(error@));
        self.group = self.group + 1;
        self.settle()
    }

    fn leave_group(&mut self) -> (action: Action)
        requires
            decks_wf(old(self)@.decks),
            old(self).deck < old(self).decks.len(),
            old(self).group < old(self).decks@[old(self).deck as int].groups.len(),
        ensures
            (final(self)@, action@) == old(self)@.leave_group(),
    {
        self.group = self.group + 1;
        self.settle()
    }

    fn emit_update(&mut self, stamp: &Stamp) -> (action: Action)
        requires
            old(self).deck < old(self).decks.len(),
        ensures
            (final(self)@, action@) == old(self)@.emit_update(stamp@),
    {
        if self.cursor < self.updates.len() {
            let record = &self.updates[self.cursor];
            let action = Action::UpdateRecord {
                timestamp: stamp.nanos,
                usn: self.usn,
                tags: record.tags.clone(),
                fields: record.fields.clone(),
                identity: record.identity.clone(),
                record_id: record.record_id,
            };
            self.phase = Phase::Updating;
            action
        } else {
            self.phase = Phase::Deck;
            Action::ResolveDeck { name: self.decks[self.deck].name.clone() }
        }
    }

    fn emit_insert(&mut self, stamp: &Stamp) -> (action: Action)
        requires
            old(self).deck < old(self).decks.len(),
        ensures
            (final(self)@, action@) == old(self)@.emit_insert(stamp@),
    {
        if self.cursor < self.inserts.len() {
            let record = &self.inserts[self.cursor];
            let action = Action::InsertRecord {
                id: record.id,
                token: stamp.token.clone(),
                model_id: self.model_id,
                timestamp: stamp.nanos,
                usn: self.usn,
                tags: record.tags.clone(),
                fields: record.fields.clone(),
                identity: record.identity.clone(),
            };
            self.phase = Phase::Inserting;
            action
        } else {
            self.cursor = 0;
            self.emit_update(stamp)
        }
    }

    fn write(&mut self, stamp: &Stamp) -> (action: Action)
        requires
            decks_wf(old(self)@.decks),
            old(self).deck < old(self).decks.len(),
            old(self).group < old(self).decks@[old(self).deck as int].groups.len(),
            old(self)@.probes.len() == old(self)@.cards().len(),
        ensures
            (final(self)@, action@) == old(self)@.write(stamp@),
    {
        let count = count_new(&self.probes);
        match first_identifier(self.max_id, stamp.millis, count) {
            Some(base) => {
                proof {
                    assert(self@.decks[self.deck as int].wf());
                    assert(self@.decks[self.deck as int].groups[self.group as int].wf());
                    assert forall|i: int|
                        0 <= i < self.decks@[self.deck as int].groups@[self.group as int].cards.len()
                        implies (
                    #[trigger] self.decks@[self.deck as int].groups@[self.group as int].cards@[i])@.wf() by {
                        assert(self@.cards()[i].wf());
                    }
                }
                let cards = &self.decks[self.deck].groups[self.group].cards;
                let inserts = plan_inserts(cards, &self.probes, self.field_count, base);
                let updates = plan_updates(cards, &self.probes, self.field_count);
                self.base = base;
                self.inserts = inserts;
                self.updates = updates;
                self.cursor = 0;
                self.emit_insert(stamp)
            },
            None => self.fail_group(ReconcileError::OutOfIdentifiers),
        }
    }

    /// One step of the run with what it takes from outside handed in: the
    /// engine takes the store's answer to its last action and says what the
    /// store has to do next.
    pub fn step_with(&mut self, event: Event, stamp: Stamp) -> (action: Action)
        requires
            old(self).wf(),
            old(self)@.expects(event@),
        ensures
            final(self).wf(),
            (final(self)@, action@) == old(self)@.next(event@, stamp@),
    {
        let action = self.advance(event, &stamp);
        proof {
            lemma_next_keeps_wf(old(self)@, event@, stamp@);
        }
        action
    }

    fn advance(&mut self, event: Event, stamp: &Stamp) -> (action: Action)
        requires
            old(self)@.wf(),
            old(self)@.expects(event@),
        ensures
            (final(self)@, action@) == old(self)@.next(event@, stamp@),
    {
        proof {
            if self@.in_group() {
                assert(self@.cards().len() == self.decks@[self.deck as int].groups@[self.group as int].cards.len());
            }
            assert(self@.inserts.len() == self.inserts.len());
            assert(self@.updates.len() == self.updates.len());
        }
        match event {
            Event::Done => match self.phase {
                Phase::Opening => self.settle(),
                Phase::LastWriter => {
                    self.phase = Phase::Kind;
                    Action::DeckKind { deck_id: self.deck_id }
                },
                Phase::Resort => self.leave_group(),
                _ => {
                    self.phase = Phase::Finished;
                    Action::Report(conclude(&self.logs))
                },
            },
            Event::Model(Some((id, count))) => {
                let ghost before = self.models.deep_view();
                let name = self.decks[self.deck].groups[self.group].model.clone();
                self.models.push((name, id, count));
                assert(self.models.deep_view() =~= before.push((name@, id, count)));
                self.model_id = id;
                self.field_count = count;
                self.probe()
            },
            Event::Model(None) => {
                let group = &self.decks[self.deck].groups[self.group];
                let card = if group.cards.len() > 0 {
                    proof {
                        assert(self@.decks[self.deck as int].wf());
                        assert(self@.decks[self.deck as int].groups[self.group as int].wf());
                        assert(self@.cards()[0].wf());
                    }
                    Some(group.cards[0].fields[0].clone())
                } else {
                    None
                };
                let error = ReconcileError::UnknownModel { model: group.model.clone(), card };
                self.fail_group(error)
            },
            Event::Existing(found) => {
                let ghost before = self.probes.deep_view();
                self.probes.push(found);
                assert(self.probes.deep_view() =~= before.push(found.deep_view()));
                self.cursor = self.cursor + 1;
                if self.cursor < self.decks[self.deck].groups[self.group].cards.len() {
                    self.probe()
                } else {
                    self.phase = Phase::MaxId;
                    Action::MaxRecordId
                }
            },
            Event::Number(n) => match self.phase {
                Phase::MaxId => {
                    self.max_id = n;
                    self.phase = Phase::Usn;
                    Action::Usn
                },
                _ => {
                    self.usn = n;
                    self.write(stamp)
                },
            },
            Event::Affected(rows) => match self.phase {
                Phase::Inserting => {
                    if rows > 0 {
                        self.changed.push(self.inserts[self.cursor].id);
                        self.added = if self.added < i32::MAX {
                            self.added + 1
                        } else {
                            self.added
                        };
                    }
                    self.cursor = self.cursor + 1;
                    self.emit_insert(stamp)
                },
                _ => {
                    if rows > 0 {
                        self.changed.push(self.updates[self.cursor].record_id);
                        self.updated = if self.updated < i32::MAX {
                            self.updated + 1
                        } else {
                            self.updated
                        };
                    }
                    self.cursor = self.cursor + 1;
                    self.emit_update(stamp)
                },
            },
            Event::Deck(Some(id)) => {
                self.deck_id = id;
                self.phase = Phase::LastWriter;
                Action::SetLastWriter { model_id: self.model_id, deck_id: id }
            },
            Event::Deck(None) => {
                let error = ReconcileError::UnknownDeck(self.decks[self.deck].name.clone());
                self.fail_group(error)
            },
            Event::Kind(kind) => {
                self.kind = kind;
                self.phase = Phase::Notify;
                Action::NotifyChanged { record_ids: self.changed.clone() }
            },
            Event::Notified(None) => match self.kind {
                DeckKind::Random => {
                    self.phase = Phase::Resort;
                    Action::ResortIfRandom { deck_id: self.deck_id }
                },
                DeckKind::Ordered => self.leave_group(),
            },
            Event::Notified(Some(message)) => self.fail_group(ReconcileError::Store(message)),
        }
    }

    /// One step of the run. The token and the time that the step may need
    /// are taken where the step is made, so nothing is known of them here
    /// but that they are what [`Engine::step_with`] was handed.
    pub fn step(&mut self, event: Event) -> (action: Action)
        requires
            old(self).wf(),
            old(self)@.expects(event@),
        ensures
            final(self).wf(),
            exists|stamp: StampView|
                (final(self)@, action@) == #[trigger] old(self)@.next(event@, stamp),
    {
        let stamp = Stamp::now();
        let ghost taken = stamp@;
        let action = self.step_with(event, stamp);
        assert((self@, action@) == old(self)@.next(event@, taken));
        action
    }

    /// One step of the run if `event` answers the last action; else nothing
    /// happens and nothing is to be done.
    pub fn try_step(&mut self, event: Event) -> (action: Option<Action>)
        requires
            old(self).wf(),
        ensures
            final(self).wf(),
            action is Some <==> old(self)@.expects(event@),
            action is None ==> final(self)@ == old(self)@,
            action matches Some(a) ==> exists|stamp: StampView|
                (final(self)@, a@) == #[trigger] old(self)@.next(event@, stamp),
    {
        if self.expects(&event) {
            Some(self.step(event))
        } else {
            None
        }
    }
}

/// A step leaves the engine in a state from which the run can go on, and a
/// failure is never forgotten: once a group of the run has failed, every
/// later state knows of it and no later step releases the savepoint, so the
/// run can only end in a rollback.
pub proof fn lemma_next_keeps_wf(s: EngineView, event: EventView, stamp: StampView)
    requires
        s.wf(),
        s.expects(event),
    ensures
        s.next(event, stamp).0.wf(),
        s.next(event, stamp).0.decks == s.decks,
        s.failed() ==> s.next(event, stamp).0.failed() && s.next(event, stamp).1
            != ActionView::Commit,
        s.next(event, stamp).1 matches ActionView::InsertRecord { id, tags, fields, identity, .. }
            ==> ({
            let t = s.next(event, stamp).0;
            &&& t.phase is Inserting
            &&& id == t.inserts[t.cursor as int].id
            &&& tags == t.inserts[t.cursor as int].tags
            &&& fields == t.inserts[t.cursor as int].fields
            &&& identity == t.inserts[t.cursor as int].identity
        }),
        s.next(event, stamp).1 matches ActionView::UpdateRecord {
            tags,
            fields,
            identity,
            record_id,
            ..
        } ==> ({
            let t = s.next(event, stamp).0;
            &&& t.phase is Updating
            &&& record_id == t.updates[t.cursor as int].record_id
            &&& tags == t.updates[t.cursor as int].tags
            &&& fields == t.updates[t.cursor as int].fields
            &&& identity == t.updates[t.cursor as int].identity
        }),
{
    let settled = EngineView { group: s.group + 1, ..s };
    match (s.phase, event) {
        (Phase::Opening, EventView::Done) => {
            lemma_settle_keeps_wf(s);
        },
        (Phase::Model, EventView::Model(Some((id, count)))) => {},
        (Phase::Model, EventView::Model(None)) => {
            lemma_fail_keeps_wf(
                s,
                ReconcileErrorView::UnknownModel {
                    model: s.model(),
                    card: if s.cards().len() > 0 {
                        Some(s.cards()[0].identity())
                    } else {
                        None
                    },
                },
            );
        },
        (Phase::Probing, EventView::Existing(found)) => {},
        (Phase::MaxId, EventView::Number(n)) => {},
        (Phase::Usn, EventView::Number(n)) => {
            lemma_fail_keeps_wf(EngineView { usn: n, ..s }, ReconcileErrorView::OutOfIdentifiers);
        },
        (Phase::Inserting, EventView::Affected(rows)) => {},
        (Phase::Updating, EventView::Affected(rows)) => {},
        (Phase::Deck, EventView::Deck(Some(id))) => {},
        (Phase::Deck, EventView::Deck(None)) => {
            lemma_fail_keeps_wf(s, ReconcileErrorView::UnknownDeck(s.deck_name()));
        },
        (Phase::LastWriter, EventView::Done) => {},
        (Phase::Kind, EventView::Kind(kind)) => {},
        (Phase::Notify, EventView::Notified(None)) => {
            lemma_settle_keeps_wf(settled);
        },
        (Phase::Notify, EventView::Notified(Some(message))) => {
            lemma_fail_keeps_wf(s, ReconcileErrorView::Store(message));
        },
        (Phase::Resort, EventView::Done) => {
            lemma_settle_keeps_wf(settled);
        },
        (Phase::Closing, EventView::Done) => {},
        _ => {},
    }
}

proof fn lemma_fail_keeps_wf(s: EngineView, error: ReconcileErrorView)
    requires
        decks_wf(s.decks),
        s.deck < s.decks.len(),
        s.group < s.decks[s.deck as int].groups.len(),
    ensures
        s.fail_group(error).0.wf(),
        s.fail_group(error).0.decks == s.decks,
        s.fail_group(error).0.failed(),
        s.fail_group(error).1 != ActionView::Commit,
        !(s.fail_group(error).1 is InsertRecord),
        !(s.fail_group(error).1 is UpdateRecord),
{
    lemma_settle_keeps_wf(
        EngineView { errors: s.errors.push(error), group: s.group + 1, ..s },
    );
}

proof fn lemma_settle_keeps_wf(s: EngineView)
    requires
        decks_wf(s.decks),
        s.deck <= s.decks.len(),
        s.deck >= s.decks.len() ==> s.errors.len() == 0,
    ensures
        s.settle().0.wf(),
        s.settle().0.decks == s.decks,
        s.failed() ==> s.settle().0.failed() && s.settle().1 != ActionView::Commit,
        !(s.settle().1 is InsertRecord),
        !(s.settle().1 is UpdateRecord),
    decreases s.decks.len() - s.deck,
{
    if s.deck >= s.decks.len() {
    } else if s.group >= s.decks[s.deck as int].groups.len() {
        let t = s.finish_deck();
        lemma_settle_keeps_wf(t);
        if s.failed() {
            if s.errors.len() > 0 {
                assert(t.logs[t.logs.len() - 1].failure is Some);
            } else {
                let i = choose|i: int| 0 <= i < s.logs.len() && !((#[trigger] s.logs[i]).failure is None);
                assert(t.logs[i] == s.logs[i]);
            }
            assert(t.failed());
        }
    } else {
    }
}

/// Whatever the engine asks the store to add is a card that the store said
/// it does not hold, with the card's encoded fields and tags. The first new
/// record of a group gets one past the store's largest identifier where
/// that lies after the clock, else the clock; each further one gets the
/// identifier after the last.
pub proof fn lemma_inserts_rise_by_one(s: EngineView, event: EventView, stamp: StampView)
    requires
        s.wf(),
        s.expects(event),
    ensures
        s.next(event, stamp).1 matches ActionView::InsertRecord { id, tags, fields, identity, .. }
            ==> ({
            let t = s.next(event, stamp).0;
            let k = added_card(
                t.cards(),
                t.probes,
                t.field_count as int,
                t.base as int,
                t.cursor as int,
            );
            &&& 0 <= k < t.cards().len()
            &&& t.probes[k] is None
            &&& fields == field_blob(t.cards()[k].fields, t.field_count as int)
            &&& tags == tag_blob(t.cards()[k].tags)
            &&& identity == t.cards()[k].identity()
            &&& id == t.base + t.cursor
            &&& s.phase is Inserting ==> id == s.inserts[s.cursor as int].id + 1
            &&& s.phase is Usn ==> id == base_identifier(s.max_id as int, stamp.millis as int)
                && id >= s.max_id && id >= stamp.millis
        }),
{
    lemma_next_keeps_wf(s, event, stamp);
    let t = s.next(event, stamp).0;
    if s.next(event, stamp).1 is InsertRecord {
        assert(t.phase is Inserting);
        lemma_insert_stands_for_a_new_card(
            t.cards(),
            t.probes,
            t.field_count as int,
            t.base as int,
            t.cursor as int,
        );
        if s.phase is Inserting {
            lemma_insert_stands_for_a_new_card(
                s.cards(),
                s.probes,
                s.field_count as int,
                s.base as int,
                s.cursor as int,
            );
            assert(t.cursor == s.cursor + 1);
            assert(t.inserts == s.inserts);
            assert(t.base == s.base);
        }
        if s.phase is Usn {
            lemma_fail_keeps_wf(
                EngineView { usn: event->Number_0, ..s },
                ReconcileErrorView::OutOfIdentifiers,
            );
            assert(t.cursor == 0);
            assert(t.base == base_identifier(s.max_id as int, stamp.millis as int));
        }
    }
}

/// Whatever the engine asks the store to update is a card whose record in
/// the store differs from it: a card that the store holds with the same
/// fields and the same tags, byte for byte, is never written again.
pub proof fn lemma_updates_are_changes(s: EngineView, event: EventView, stamp: StampView)
    requires
        s.wf(),
        s.expects(event),
    ensures
        s.next(event, stamp).1 matches ActionView::UpdateRecord {
            tags,
            fields,
            identity,
            record_id,
            ..
        } ==> ({
            let t = s.next(event, stamp).0;
            let k = updated_card(t.cards(), t.probes, t.field_count as int, t.cursor as int);
            &&& 0 <= k < t.cards().len()
            &&& t.probes[k] matches Some(note)
            &&& record_id == note.id
            &&& !unchanged(t.cards()[k], note, t.field_count as int)
            &&& fields == field_blob(t.cards()[k].fields, t.field_count as int)
            &&& tags == tag_blob(t.cards()[k].tags)
            &&& identity == t.cards()[k].identity()
            &&& (fields != note.fields || tags != note.tags)
        }),
{
    lemma_next_keeps_wf(s, event, stamp);
    let t = s.next(event, stamp).0;
    if s.next(event, stamp).1 is UpdateRecord {
        assert(t.phase is Updating);
        lemma_update_stands_for_a_change(
            t.cards(),
            t.probes,
            t.field_count as int,
            t.cursor as int,
        );
    }
}

/// A group that cannot be reconciled fails the run: when the store knows
/// the model or the deck of a group not, or does not take its changed
/// records in, the run is marked as failed on the spot.
pub proof fn lemma_failed_group_fails_the_run(s: EngineView, event: EventView, stamp: StampView)
    requires
        s.wf(),
        s.expects(event),
        event == EventView::Model(None) || event == EventView::Deck(None) || (
        event is Notified && event->Notified_0 is Some),
    ensures
        s.next(event, stamp).0.failed(),
        s.next(event, stamp).1 != ActionView::Commit,
{
    match event {
        EventView::Model(None) => {
            lemma_fail_keeps_wf(
                s,
                ReconcileErrorView::UnknownModel {
                    model: s.model(),
                    card: if s.cards().len() > 0 {
                        Some(s.cards()[0].identity())
                    } else {
                        None
                    },
                },
            );
        },
        EventView::Deck(None) => {
            lemma_fail_keeps_wf(s, ReconcileErrorView::UnknownDeck(s.deck_name()));
        },
        EventView::Notified(Some(message)) => {
            lemma_fail_keeps_wf(s, ReconcileErrorView::Store(message));
        },
        _ => {},
    }
}

/// The savepoint is released only when no deck has failed: as soon as one
/// deck of the run reports a failure, the run ends in a rollback, whatever
/// the other decks have written.
pub proof fn lemma_one_failure_rolls_back(s: EngineView)
    ensures
        s.close().1 == ActionView::Commit <==> all_succeeded(s.logs),
        s.close().1 == ActionView::Rollback <==> !all_succeeded(s.logs),
        s.close().1 == ActionView::Commit ==> verdict(s.logs) is Ok,
        s.close().1 == ActionView::Rollback ==> verdict(s.logs) is Err,
{
    lemma_failures(s.logs);
}

} // verus!
