//! What one group of cards asks the store to add and to update.

use vstd::prelude::*;
use crate::cards::{Card, CardView};
use crate::encode::{build_field_str, encode_tags, field_blob, tag_blob};
use crate::store::{
    ChangedRecord, ChangedRecordView, ExistingNote, ExistingNoteView, NewRecord, NewRecordView,
};

verus! {

/// The identifier that the first new record of a group gets: one past the
/// store's largest identifier if that lies after the clock, else the clock.
pub open spec fn base_identifier(max_id: int, now: int) -> int {
    if max_id > now {
        max_id + 1
    } else {
        now
    }
}

/// Whether `count` identifiers from the base on can be handed out and
/// counted past.
pub open spec fn identifiers_fit(max_id: int, now: int, count: int) -> bool {
    base_identifier(max_id, now) + count <= i64::MAX
}

/// Whether the store's record holds what the card holds.
pub open spec fn unchanged(card: CardView, note: ExistingNoteView, declared: int) -> bool {
    field_blob(card.fields, declared) == note.fields && tag_blob(card.tags) == note.tags
}

/// How many of the cards the store does not hold.
pub open spec fn new_count(probes: Seq<Option<ExistingNoteView>>) -> nat
    decreases probes.len(),
{
    if probes.len() == 0 {
        0
    } else {
        new_count(probes.drop_last()) + if probes.last() is None {
            1nat
        } else {
            0nat
        }
    }
}

/// The records to add: one for each card that the store does not hold, in
/// the cards' order, numbered from `base` on.
pub open spec fn planned_inserts(
    cards: Seq<CardView>,
    probes: Seq<Option<ExistingNoteView>>,
    declared: int,
    base: int,
) -> Seq<NewRecordView>
    decreases cards.len(),
{
    if cards.len() == 0 {
        Seq::empty()
    } else {
        let rest = planned_inserts(cards.drop_last(), probes.drop_last(), declared, base);
        if probes.last() is None {
            rest.push(
                NewRecordView {
                    id: base + rest.len(),
                    tags: tag_blob(cards.last().tags),
                    fields: field_blob(cards.last().fields, declared),
                    identity: cards.last().identity(),
                },
            )
        } else {
            rest
        }
    }
}

/// The records to update: one for each card that the store holds with
/// other fields or other tags, in the cards' order.
pub open spec fn planned_updates(
    cards: Seq<CardView>,
    probes: Seq<Option<ExistingNoteView>>,
    declared: int,
) -> Seq<ChangedRecordView>
    decreases cards.len(),
{
    if cards.len() == 0 {
        Seq::empty()
    } else {
        let rest = planned_updates(cards.drop_last(), probes.drop_last(), declared);
        match probes.last() {
            Some(note) => if unchanged(cards.last(), note, declared) {
                rest
            } else {
                rest.push(
                    ChangedRecordView {
                        record_id: note.id as int,
                        tags: tag_blob(cards.last().tags),
                        fields: field_blob(cards.last().fields, declared),
                        identity: cards.last().identity(),
                    },
                )
            },
            None => rest,
        }
    }
}

/// The identifier for the first of `count` new records, where all of them fit.
pub fn first_identifier(max_id: i64, now: i64, count: usize) -> (base: Option<i64>)
    ensures
        base is Some <==> identifiers_fit(max_id as int, now as int, count as int),
        base matches Some(b) ==> b == base_identifier(max_id as int, now as int),
{
    let start: i64 = if max_id > now {
        if max_id == i64::MAX {
            return None;
        }
        max_id + 1
    } else {
        now
    };
    if start as i128 + count as i128 > i64::MAX as i128 {
        return None;
    }
    Some(start)
}

/// How many of the cards the store does not hold.
pub fn count_new(probes: &Vec<Option<ExistingNote>>) -> (n: usize)
    ensures
        n == new_count(probes.deep_view()),
{
    let ghost all = probes.deep_view();
    let mut n: usize = 0;
    let mut i: usize = 0;
    assert(all.take(0) =~= Seq::<Option<ExistingNoteView>>::empty());
    while i < probes.len()
        invariant
            i <= probes.len(),
            all == probes.deep_view(),
            n == new_count(all.take(i as int)),
            n <= i,
        decreases probes.len() - i,
    {
        proof {
            assert(all.take(i as int + 1).drop_last() =~= all.take(i as int));
            assert(all.take(i as int + 1).last() == probes@[i as int].deep_view());
        }
        if probes[i].is_none() {
            n += 1;
        }
        i += 1;
    }
    assert(all.take(i as int) =~= all);
    n
}

/// The records to add for a group.
pub fn plan_inserts(
    cards: &Vec<Card>,
    probes: &Vec<Option<ExistingNote>>,
    field_count: usize,
    base: i64,
) -> (records: Vec<NewRecord>)
    requires
        cards.len() == probes.len(),
        forall|i: int| 0 <= i < cards.len() ==> (#[trigger] cards@[i])@.wf(),
        base + new_count(probes.deep_view()) <= i64::MAX,
    ensures
        records.deep_view() == planned_inserts(
            cards.deep_view(),
            probes.deep_view(),
            field_count as int,
            base as int,
        ),
{
    let ghost cs = cards.deep_view();
    let ghost ps = probes.deep_view();
    let mut records: Vec<NewRecord> = Vec::new();
    let mut next: i64 = base;
    let mut i: usize = 0;
    proof {
        assert(cs.take(0) =~= Seq::<CardView>::empty());
        lemma_new_count_grows(ps, 0);
    }
    while i < cards.len()
        invariant
            i <= cards.len() == probes.len(),
            cs == cards.deep_view(),
            ps == probes.deep_view(),
            forall|k: int| 0 <= k < cards.len() ==> (#[trigger] cards@[k])@.wf(),
            records.deep_view() == planned_inserts(
                cs.take(i as int),
                ps.take(i as int),
                field_count as int,
                base as int,
            ),
            records.len() == new_count(ps.take(i as int)),
            next == base + records.len(),
            base + new_count(ps) <= i64::MAX,
        decreases cards.len() - i,
    {
        proof {
            assert(cs.take(i as int + 1).drop_last() =~= cs.take(i as int));
            assert(ps.take(i as int + 1).drop_last() =~= ps.take(i as int));
            assert(cs.take(i as int + 1).last() == cards@[i as int]@);
            assert(ps.take(i as int + 1).last() == probes@[i as int].deep_view());
            lemma_new_count_grows(ps, i as int + 1);
        }
        if probes[i].is_none() {
            let card = &cards[i];
            let ghost before = records.deep_view();
            let record = NewRecord {
                id: next,
                tags: encode_tags(&card.tags),
                fields: build_field_str(&card.fields, field_count, card.fields.len()),
                identity: card.fields[0].clone(),
            };
            assert(record@.identity == cs[i as int].identity());
            records.push(record);
            assert(records.deep_view() =~= before.push(record@));
            next = next + 1;
        }
        i += 1;
    }
    proof {
        assert(cs.take(i as int) =~= cs);
        assert(ps.take(i as int) =~= ps);
    }
    records
}

/// The records to update for a group.
pub fn plan_updates(
    cards: &Vec<Card>,
    probes: &Vec<Option<ExistingNote>>,
    field_count: usize,
) -> (records: Vec<ChangedRecord>)
    requires
        cards.len() == probes.len(),
        forall|i: int| 0 <= i < cards.len() ==> (#[trigger] cards@[i])@.wf(),
    ensures
        records.deep_view() == planned_updates(
            cards.deep_view(),
            probes.deep_view(),
            field_count as int,
        ),
{
    let ghost cs = cards.deep_view();
    let ghost ps = probes.deep_view();
    let mut records: Vec<ChangedRecord> = Vec::new();
    let mut i: usize = 0;
    assert(cs.take(0) =~= Seq::<CardView>::empty());
    while i < cards.len()
        invariant
            i <= cards.len() == probes.len(),
            cs == cards.deep_view(),
            ps == probes.deep_view(),
            forall|k: int| 0 <= k < cards.len() ==> (#[trigger] cards@[k])@.wf(),
            records.deep_view() == planned_updates(
                cs.take(i as int),
                ps.take(i as int),
                field_count as int,
            ),
        decreases cards.len() - i,
    {
        proof {
            assert(cs.take(i as int + 1).drop_last() =~= cs.take(i as int));
            assert(ps.take(i as int + 1).drop_last() =~= ps.take(i as int));
            assert(cs.take(i as int + 1).last() == cards@[i as int]@);
            assert(ps.take(i as int + 1).last() == probes@[i as int].deep_view());
        }
        match &probes[i] {
            Some(note) => {
                let card = &cards[i];
                let fields = build_field_str(&card.fields, field_count, card.fields.len());
                let tags = encode_tags(&card.tags);
                if !(fields == note.fields && tags == note.tags) {
                    let ghost before = records.deep_view();
                    let record = ChangedRecord {
                        record_id: note.id,
                        tags,
                        fields,
                        identity: card.fields[0].clone(),
                    };
                    assert(record@.identity == cs[i as int].identity());
                    records.push(record);
                    assert(records.deep_view() =~= before.push(record@));
                }
            },
            None => {},
        }
        i += 1;
    }
    proof {
        assert(cs.take(i as int) =~= cs);
        assert(ps.take(i as int) =~= ps);
    }
    records
}

proof fn lemma_new_count_grows(probes: Seq<Option<ExistingNoteView>>, i: int)
    requires
        0 <= i <= probes.len(),
    ensures
        new_count(probes.take(i)) <= new_count(probes),
        new_count(probes.take(i)) <= i,
    decreases probes.len() - i,
{
    lemma_new_count_bound(probes.take(i));
    if i == probes.len() {
        assert(probes.take(i) =~= probes);
    } else {
        lemma_new_count_grows(probes, i + 1);
        assert(probes.take(i + 1).drop_last() =~= probes.take(i));
    }
}

proof fn lemma_new_count_bound(probes: Seq<Option<ExistingNoteView>>)
    ensures
        new_count(probes) <= probes.len(),
    decreases probes.len(),
{
    if probes.len() > 0 {
        lemma_new_count_bound(probes.drop_last());
    }
}

/// The new records of a group are numbered from the base on, each one above
/// the last, in the order of their cards; none lies below the store's
/// largest identifier or below the clock.
pub proof fn lemma_identifiers_rise_by_one(
    cards: Seq<CardView>,
    probes: Seq<Option<ExistingNoteView>>,
    declared: int,
    max_id: int,
    now: int,
)
    requires
        cards.len() == probes.len(),
    ensures
        ({
            let plan = planned_inserts(cards, probes, declared, base_identifier(max_id, now));
            &&& plan.len() == new_count(probes)
            &&& forall|i: int|
                0 <= i < plan.len() ==> (#[trigger] plan[i]).id == base_identifier(max_id, now)
                    + i
            &&& forall|i: int|
                0 <= i < plan.len() - 1 ==> (#[trigger] plan[i + 1]).id == plan[i].id + 1
            &&& forall|i: int|
                0 <= i < plan.len() ==> (#[trigger] plan[i]).id >= max_id && plan[i].id >= now
        }),
    decreases cards.len(),
{
    let base = base_identifier(max_id, now);
    if cards.len() > 0 {
        lemma_identifiers_rise_by_one(cards.drop_last(), probes.drop_last(), declared, max_id, now);
        let plan = planned_inserts(cards, probes, declared, base);
        assert forall|i: int| 0 <= i < plan.len() - 1 implies (#[trigger] plan[i + 1]).id
            == plan[i].id + 1 by {
            assert(plan[i].id == base + i);
            assert(plan[i + 1].id == base + i + 1);
        }
    }
}

/// How many of the cards the store holds with other fields or other tags.
pub open spec fn changed_count(
    cards: Seq<CardView>,
    probes: Seq<Option<ExistingNoteView>>,
    declared: int,
) -> nat
    decreases cards.len(),
{
    if cards.len() == 0 {
        0
    } else {
        changed_count(cards.drop_last(), probes.drop_last(), declared) + match probes.last() {
            Some(note) => if unchanged(cards.last(), note, declared) {
                0nat
            } else {
                1nat
            },
            None => 0nat,
        }
    }
}

/// As many records are added as there are cards that the store does not
/// hold, and as many are updated as there are cards that it holds otherwise.
pub proof fn lemma_plan_lengths(
    cards: Seq<CardView>,
    probes: Seq<Option<ExistingNoteView>>,
    declared: int,
    base: int,
)
    requires
        cards.len() == probes.len(),
    ensures
        planned_inserts(cards, probes, declared, base).len() == new_count(probes),
        planned_updates(cards, probes, declared).len() == changed_count(cards, probes, declared),
    decreases cards.len(),
{
    if cards.len() > 0 {
        lemma_plan_lengths(cards.drop_last(), probes.drop_last(), declared, base);
    }
}

/// A card that the store does not hold is added with its encoded fields and
/// tags under its matching key, and its identifier is the base plus the
/// number of new cards before it.
pub proof fn lemma_new_card_is_added(
    cards: Seq<CardView>,
    probes: Seq<Option<ExistingNoteView>>,
    declared: int,
    base: int,
    k: int,
)
    requires
        cards.len() == probes.len(),
        0 <= k < cards.len(),
        probes[k] is None,
    ensures
        ({
            let plan = planned_inserts(cards, probes, declared, base);
            let at = new_count(probes.take(k)) as int;
            &&& at < plan.len()
            &&& plan[at] == NewRecordView {
                id: base + at,
                tags: tag_blob(cards[k].tags),
                fields: field_blob(cards[k].fields, declared),
                identity: cards[k].identity(),
            }
        }),
    decreases cards.len(),
{
    let last = cards.len() - 1;
    lemma_plan_lengths(cards.drop_last(), probes.drop_last(), declared, base);
    if k == last {
        assert(probes.take(k) =~= probes.drop_last());
    } else {
        lemma_new_card_is_added(cards.drop_last(), probes.drop_last(), declared, base, k);
        assert(probes.drop_last().take(k) =~= probes.take(k));
    }
}

/// A card that the store holds with other fields or other tags is updated
/// under the identifier of its record, with its encoded fields and tags.
pub proof fn lemma_changed_card_is_updated(
    cards: Seq<CardView>,
    probes: Seq<Option<ExistingNoteView>>,
    declared: int,
    k: int,
)
    requires
        cards.len() == probes.len(),
        0 <= k < cards.len(),
        probes[k] is Some,
        !unchanged(cards[k], probes[k]->0, declared),
    ensures
        ({
            let plan = planned_updates(cards, probes, declared);
            let at = changed_count(cards.take(k), probes.take(k), declared) as int;
            &&& at < plan.len()
            &&& plan[at] == ChangedRecordView {
                record_id: probes[k]->0.id as int,
                tags: tag_blob(cards[k].tags),
                fields: field_blob(cards[k].fields, declared),
                identity: cards[k].identity(),
            }
        }),
    decreases cards.len(),
{
    let last = cards.len() - 1;
    lemma_plan_lengths(cards.drop_last(), probes.drop_last(), declared, 0);
    if k == last {
        assert(probes.take(k) =~= probes.drop_last());
        assert(cards.take(k) =~= cards.drop_last());
    } else {
        lemma_changed_card_is_updated(cards.drop_last(), probes.drop_last(), declared, k);
        assert(probes.drop_last().take(k) =~= probes.take(k));
        assert(cards.drop_last().take(k) =~= cards.take(k));
    }
}

/// The card that the update at `at` stands for: the last card if the cards
/// before it ask for no more than `at` updates, else the card that the
/// update stands for among those.
pub open spec fn updated_card(
    cards: Seq<CardView>,
    probes: Seq<Option<ExistingNoteView>>,
    declared: int,
    at: int,
) -> int
    decreases cards.len(),
{
    if cards.len() == 0 {
        -1
    } else if at < planned_updates(cards.drop_last(), probes.drop_last(), declared).len() {
        updated_card(cards.drop_last(), probes.drop_last(), declared, at)
    } else {
        cards.len() - 1
    }
}

/// The card that the new record at `at` stands for.
pub open spec fn added_card(
    cards: Seq<CardView>,
    probes: Seq<Option<ExistingNoteView>>,
    declared: int,
    base: int,
    at: int,
) -> int
    decreases cards.len(),
{
    if cards.len() == 0 {
        -1
    } else if at < planned_inserts(cards.drop_last(), probes.drop_last(), declared, base).len() {
        added_card(cards.drop_last(), probes.drop_last(), declared, base, at)
    } else {
        cards.len() - 1
    }
}

/// No record is updated but for a card whose record in the store differs
/// from it: each update stands for one card that the store holds with other
/// fields or other tags, and carries that card's encoded fields and tags to
/// the record that the store answered with.
pub proof fn lemma_update_stands_for_a_change(
    cards: Seq<CardView>,
    probes: Seq<Option<ExistingNoteView>>,
    declared: int,
    at: int,
)
    requires
        cards.len() == probes.len(),
        0 <= at < planned_updates(cards, probes, declared).len(),
    ensures
        ({
            let k = updated_card(cards, probes, declared, at);
            let record = planned_updates(cards, probes, declared)[at];
            &&& 0 <= k < cards.len()
            &&& probes[k] matches Some(note)
            &&& !unchanged(cards[k], note, declared)
            &&& record.record_id == note.id
            &&& record.fields == field_blob(cards[k].fields, declared)
            &&& record.tags == tag_blob(cards[k].tags)
            &&& record.identity == cards[k].identity()
            &&& (record.fields != note.fields || record.tags != note.tags)
        }),
    decreases cards.len(),
{
    if cards.len() > 0 {
        let rest = planned_updates(cards.drop_last(), probes.drop_last(), declared);
        if at < rest.len() {
            lemma_update_stands_for_a_change(cards.drop_last(), probes.drop_last(), declared, at);
        }
    }
}

/// No record is added but for a card that the store does not hold: each new
/// record stands for one such card, carries its encoded fields and tags
/// under its matching key, and is numbered by its place among the new
/// records.
pub proof fn lemma_insert_stands_for_a_new_card(
    cards: Seq<CardView>,
    probes: Seq<Option<ExistingNoteView>>,
    declared: int,
    base: int,
    at: int,
)
    requires
        cards.len() == probes.len(),
        0 <= at < planned_inserts(cards, probes, declared, base).len(),
    ensures
        ({
            let k = added_card(cards, probes, declared, base, at);
            let record = planned_inserts(cards, probes, declared, base)[at];
            &&& 0 <= k < cards.len()
            &&& probes[k] is None
            &&& record.id == base + at
            &&& record.fields == field_blob(cards[k].fields, declared)
            &&& record.tags == tag_blob(cards[k].tags)
            &&& record.identity == cards[k].identity()
        }),
    decreases cards.len(),
{
    if cards.len() > 0 {
        let rest = planned_inserts(cards.drop_last(), probes.drop_last(), declared, base);
        if at < rest.len() {
            lemma_insert_stands_for_a_new_card(
                cards.drop_last(),
                probes.drop_last(),
                declared,
                base,
                at,
            );
        }
    }
}

/// A second run over the same cards writes nothing. Where the store answers
/// each card of the second run with what the first run left of it (the
/// record that the first run added or updated for it, or the record that it
/// found unchanged), the second run adds nothing and updates nothing.
pub proof fn lemma_second_run_writes_nothing(
    cards: Seq<CardView>,
    first: Seq<Option<ExistingNoteView>>,
    second: Seq<Option<ExistingNoteView>>,
    declared: int,
    first_base: int,
    second_base: int,
)
    requires
        cards.len() == first.len(),
        cards.len() == second.len(),
        forall|k: int|
            0 <= k < cards.len() ==> (#[trigger] second[k]) is Some && match first[k] {
                None => {
                    let added = planned_inserts(cards, first, declared, first_base)[new_count(
                        first.take(k),
                    ) as int];
                    second[k]->0.fields == added.fields && second[k]->0.tags == added.tags
                },
                Some(note) => if unchanged(cards[k], note, declared) {
                    second[k]->0.fields == note.fields && second[k]->0.tags == note.tags
                } else {
                    let updated = planned_updates(cards, first, declared)[changed_count(
                        cards.take(k),
                        first.take(k),
                        declared,
                    ) as int];
                    second[k]->0.fields == updated.fields && second[k]->0.tags == updated.tags
                },
            },
    ensures
        planned_inserts(cards, second, declared, second_base).len() == 0,
        planned_updates(cards, second, declared).len() == 0,
{
    assert forall|k: int| 0 <= k < cards.len() implies (#[trigger] second[k]) is Some && unchanged(
        cards[k],
        second[k]->0,
        declared,
    ) by {
        match first[k] {
            None => {
                lemma_new_card_is_added(cards, first, declared, first_base, k);
            },
            Some(note) => {
                if !unchanged(cards[k], note, declared) {
                    lemma_changed_card_is_updated(cards, first, declared, k);
                }
            },
        }
    }
    lemma_unchanged_cards_plan_nothing(cards, second, declared, second_base);
}

/// Where the store holds, for every card, a record with the card's encoded
/// fields and tags, nothing is added and nothing is updated: a second run
/// over unchanged cards, answered with what the first run wrote, writes
/// nothing.
pub proof fn lemma_unchanged_cards_plan_nothing(
    cards: Seq<CardView>,
    probes: Seq<Option<ExistingNoteView>>,
    declared: int,
    base: int,
)
    requires
        cards.len() == probes.len(),
        forall|i: int|
            0 <= i < cards.len() ==> (#[trigger] probes[i]) is Some && unchanged(
                cards[i],
                probes[i]->0,
                declared,
            ),
    ensures
        planned_inserts(cards, probes, declared, base).len() == 0,
        planned_updates(cards, probes, declared).len() == 0,
    decreases cards.len(),
{
    if cards.len() > 0 {
        let cs = cards.drop_last();
        let ps = probes.drop_last();
        assert forall|i: int| 0 <= i < cs.len() implies (#[trigger] ps[i]) is Some && unchanged(
            cs[i],
            ps[i]->0,
            declared,
        ) by {
            assert(ps[i] == probes[i]);
        }
        lemma_unchanged_cards_plan_nothing(cs, ps, declared, base);
        assert(probes[cards.len() - 1] is Some);
    }
}

/// A card whose record in the store holds the same fields and the same
/// tags, byte for byte, leaves no update behind, whatever the other cards
/// of its group do: the plan is the one that the group has without it.
pub proof fn lemma_unchanged_card_is_skipped(
    cards: Seq<CardView>,
    probes: Seq<Option<ExistingNoteView>>,
    declared: int,
    base: int,
    k: int,
)
    requires
        cards.len() == probes.len(),
        0 <= k < cards.len(),
        probes[k] is Some,
        unchanged(cards[k], probes[k]->0, declared),
    ensures
        planned_updates(cards, probes, declared) == planned_updates(
            cards.remove(k),
            probes.remove(k),
            declared,
        ),
        planned_inserts(cards, probes, declared, base) == planned_inserts(
            cards.remove(k),
            probes.remove(k),
            declared,
            base,
        ),
    decreases cards.len(),
{
    let last = cards.len() - 1;
    if k == last {
        assert(cards.remove(k) =~= cards.drop_last());
        assert(probes.remove(k) =~= probes.drop_last());
    } else {
        lemma_unchanged_card_is_skipped(cards.drop_last(), probes.drop_last(), declared, base, k);
        assert(cards.remove(k).drop_last() =~= cards.drop_last().remove(k));
        assert(probes.remove(k).drop_last() =~= probes.drop_last().remove(k));
        assert(cards.remove(k).last() == cards.last());
        assert(probes.remove(k).last() == probes.last());
    }
}

} // verus!
