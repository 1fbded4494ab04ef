//! Cards sorted into decks, and within a deck into groups of one model.

use vstd::prelude::*;
use crate::cards::{Card, CardView, Deck, DeckView, TypeGroup, TypeGroupView};

verus! {

/// The keys without repeats, each where it was met first.
pub open spec fn distinct(keys: Seq<Seq<char>>) -> Seq<Seq<char>>
    decreases keys.len(),
{
    if keys.len() == 0 {
        Seq::empty()
    } else {
        let rest = distinct(keys.drop_last());
        if rest.contains(keys.last()) {
            rest
        } else {
            rest.push(keys.last())
        }
    }
}

/// The cards that stand where `keys` holds `key`, in their order.
pub open spec fn selected(cards: Seq<CardView>, keys: Seq<Seq<char>>, key: Seq<char>) -> Seq<
    CardView,
>
    decreases cards.len(),
{
    if cards.len() == 0 {
        Seq::empty()
    } else {
        let rest = selected(cards.drop_last(), keys.drop_last(), key);
        if keys.last() == key {
            rest.push(cards.last())
        } else {
            rest
        }
    }
}

/// The models of the cards, card by card.
pub open spec fn models_of(cards: Seq<CardView>) -> Seq<Seq<char>> {
    cards.map_values(|card: CardView| card.model)
}

/// The group of the cards of one model.
pub open spec fn group_of(model: Seq<char>, cards: Seq<CardView>) -> TypeGroupView {
    TypeGroupView { model, cards: selected(cards, models_of(cards), model) }
}

/// The cards of a deck in groups: one group for each model, in the order in
/// which the models were met first, each group's cards in their order.
pub open spec fn groups_of(cards: Seq<CardView>) -> Seq<TypeGroupView> {
    distinct(models_of(cards)).map_values(|model: Seq<char>| group_of(model, cards))
}

/// The deck names of the cards, card by card.
pub open spec fn names_of(cards: Seq<(Seq<char>, CardView)>) -> Seq<Seq<char>> {
    cards.map_values(|pair: (Seq<char>, CardView)| pair.0)
}

/// The cards without their deck names.
pub open spec fn bare(cards: Seq<(Seq<char>, CardView)>) -> Seq<CardView> {
    cards.map_values(|pair: (Seq<char>, CardView)| pair.1)
}

/// The deck of this name with the cards that are bound for it.
pub open spec fn deck_of(name: Seq<char>, cards: Seq<(Seq<char>, CardView)>) -> DeckView {
    DeckView { name, groups: groups_of(selected(bare(cards), names_of(cards), name)) }
}

/// The cards in decks: one deck for each deck name, in the order in which
/// the names were met first.
pub open spec fn grouped(cards: Seq<(Seq<char>, CardView)>) -> Seq<DeckView> {
    distinct(names_of(cards)).map_values(|name: Seq<char>| deck_of(name, cards))
}

/// Whether `key` is among `keys`.
fn holds(keys: &Vec<String>, key: &String) -> (found: bool)
    ensures
        found == keys.deep_view().contains(key@),
{
    let ghost all = keys.deep_view();
    let mut i: usize = 0;
    while i < keys.len()
        invariant
            i <= keys.len(),
            all == keys.deep_view(),
            forall|k: int| 0 <= k < i ==> all[k] != key@,
        decreases keys.len() - i,
    {
        if keys[i] == *key {
            assert(all[i as int] == key@);
            return true;
        }
        i += 1;
    }
    false
}

/// The keys without repeats, each where it was met first.
pub fn distinct_keys(keys: &Vec<String>) -> (out: Vec<String>)
    ensures
        out.deep_view() == distinct(keys.deep_view()),
{
    let ghost all = keys.deep_view();
    let mut out: Vec<String> = Vec::new();
    let mut i: usize = 0;
    assert(all.take(0) =~= Seq::<Seq<char>>::empty());
    assert(out.deep_view() =~= Seq::<Seq<char>>::empty());
    while i < keys.len()
        invariant
            i <= keys.len(),
            all == keys.deep_view(),
            out.deep_view() == distinct(all.take(i as int)),
        decreases keys.len() - i,
    {
        proof {
            assert(all.take(i as int + 1).drop_last() =~= all.take(i as int));
            assert(all.take(i as int + 1).last() == keys@[i as int]@);
        }
        if !holds(&out, &keys[i]) {
            let ghost before = out.deep_view();
            out.push(keys[i].clone());
            assert(out.deep_view() =~= before.push(keys@[i as int]@));
        }
        i += 1;
    }
    assert(all.take(i as int) =~= all);
    out
}

/// The cards that stand where `keys` holds `key`, in their order.
pub fn select(cards: &Vec<Card>, keys: &Vec<String>, key: &String) -> (out: Vec<Card>)
    requires
        cards.len() == keys.len(),
    ensures
        out.deep_view() == selected(cards.deep_view(), keys.deep_view(), key@),
{
    let ghost cs = cards.deep_view();
    let ghost ks = keys.deep_view();
    let mut out: Vec<Card> = Vec::new();
    let mut i: usize = 0;
    assert(cs.take(0) =~= Seq::<CardView>::empty());
    assert(out.deep_view() =~= Seq::<CardView>::empty());
    while i < cards.len()
        invariant
            i <= cards.len() == keys.len(),
            cs == cards.deep_view(),
            ks == keys.deep_view(),
            out.deep_view() == selected(cs.take(i as int), ks.take(i as int), key@),
        decreases cards.len() - i,
    {
        proof {
            assert(cs.take(i as int + 1).drop_last() =~= cs.take(i as int));
            assert(ks.take(i as int + 1).drop_last() =~= ks.take(i as int));
            assert(cs.take(i as int + 1).last() == cards@[i as int]@);
            assert(ks.take(i as int + 1).last() == keys@[i as int]@);
        }
        if keys[i] == *key {
            let ghost before = out.deep_view();
            let card = cards[i].clone();
            out.push(card);
            assert(out.deep_view() =~= before.push(cards@[i as int]@));
        }
        i += 1;
    }
    proof {
        assert(cs.take(i as int) =~= cs);
        assert(ks.take(i as int) =~= ks);
    }
    out
}

/// The cards of a deck in groups.
pub fn group_by_model(cards: &Vec<Card>) -> (groups: Vec<TypeGroup>)
    ensures
        groups.deep_view() == groups_of(cards.deep_view()),
{
    let ghost cs = cards.deep_view();
    let mut models: Vec<String> = Vec::new();
    let mut i: usize = 0;
    assert(models.deep_view() =~= models_of(cs.take(0)));
    while i < cards.len()
        invariant
            i <= cards.len(),
            cs == cards.deep_view(),
            models.deep_view() == models_of(cs.take(i as int)),
        decreases cards.len() - i,
    {
        let ghost before = models.deep_view();
        models.push(cards[i].model.clone());
        proof {
            assert(models.deep_view() =~= before.push(cards@[i as int]@.model));
            assert(cs[i as int] == cards@[i as int]@);
            assert(models_of(cs.take(i as int + 1)) =~= models_of(cs.take(i as int)).push(
                cs[i as int].model,
            ));
        }
        i += 1;
    }
    assert(cs.take(i as int) =~= cs);
    let names = distinct_keys(&models);
    let mut groups: Vec<TypeGroup> = Vec::new();
    let mut g: usize = 0;
    assert(groups.deep_view() =~= groups_of(cs).take(0));
    while g < names.len()
        invariant
            g <= names.len(),
            cs == cards.deep_view(),
            cards.len() == models.len(),
            models.deep_view() == models_of(cs),
            names.deep_view() == distinct(models_of(cs)),
            groups.deep_view() == groups_of(cs).take(g as int),
        decreases names.len() - g,
    {
        let group = TypeGroup { model: names[g].clone(), cards: select(cards, &models, &names[g]) };
        let ghost before = groups.deep_view();
        proof {
            assert(group@ == group_of(names@[g as int]@, cs));
            assert(names.deep_view()[g as int] == names@[g as int]@);
            assert(groups_of(cs)[g as int] == group@);
        }
        groups.push(group);
        proof {
            assert(groups.deep_view() =~= before.push(group@));
            assert(groups_of(cs).take(g as int + 1) =~= groups_of(cs).take(g as int).push(
                groups_of(cs)[g as int],
            ));
        }
        g += 1;
    }
    assert(groups_of(cs).take(g as int) =~= groups_of(cs));
    groups
}

/// The cards in decks, and each deck's cards in groups.
pub fn group(cards: &Vec<(String, Card)>) -> (decks: Vec<Deck>)
    ensures
        decks.deep_view() == grouped(cards.deep_view()),
{
    let ghost all = cards.deep_view();
    let mut names: Vec<String> = Vec::new();
    let mut plain: Vec<Card> = Vec::new();
    let mut i: usize = 0;
    assert(names.deep_view() =~= names_of(all.take(0)));
    assert(plain.deep_view() =~= bare(all.take(0)));
    while i < cards.len()
        invariant
            i <= cards.len(),
            all == cards.deep_view(),
            names.deep_view() == names_of(all.take(i as int)),
            plain.deep_view() == bare(all.take(i as int)),
        decreases cards.len() - i,
    {
        let ghost names_before = names.deep_view();
        let ghost plain_before = plain.deep_view();
        names.push(cards[i].0.clone());
        let card = cards[i].1.clone();
        plain.push(card);
        proof {
            assert(all[i as int] == (cards@[i as int].0@, cards@[i as int].1@));
            assert(names.deep_view() =~= names_before.push(cards@[i as int].0@));
            assert(plain.deep_view() =~= plain_before.push(cards@[i as int].1@));
            assert(names_of(all.take(i as int + 1)) =~= names_of(all.take(i as int)).push(
                all[i as int].0,
            ));
            assert(bare(all.take(i as int + 1)) =~= bare(all.take(i as int)).push(all[i as int].1));
        }
        i += 1;
    }
    assert(all.take(i as int) =~= all);
    let keys = distinct_keys(&names);
    let mut decks: Vec<Deck> = Vec::new();
    let mut d: usize = 0;
    assert(decks.deep_view() =~= grouped(all).take(0));
    while d < keys.len()
        invariant
            d <= keys.len(),
            all == cards.deep_view(),
            names.len() == plain.len(),
            names.deep_view() == names_of(all),
            plain.deep_view() == bare(all),
            keys.deep_view() == distinct(names_of(all)),
            decks.deep_view() == grouped(all).take(d as int),
        decreases keys.len() - d,
    {
        let bound = select(&plain, &names, &keys[d]);
        let deck = Deck { name: keys[d].clone(), groups: group_by_model(&bound) };
        let ghost before = decks.deep_view();
        proof {
            assert(deck@ == deck_of(keys@[d as int]@, all));
            assert(keys.deep_view()[d as int] == keys@[d as int]@);
            assert(grouped(all)[d as int] == deck@);
        }
        decks.push(deck);
        proof {
            assert(decks.deep_view() =~= before.push(deck@));
            assert(grouped(all).take(d as int + 1) =~= grouped(all).take(d as int).push(
                grouped(all)[d as int],
            ));
        }
        d += 1;
    }
    assert(grouped(all).take(d as int) =~= grouped(all));
    decks
}

/// A card that is selected is one of the cards, so a deck made of cards
/// that carry their identifiers holds only such cards.
pub proof fn lemma_selected_are_cards(
    cards: Seq<CardView>,
    keys: Seq<Seq<char>>,
    key: Seq<char>,
)
    requires
        cards.len() == keys.len(),
        forall|i: int| 0 <= i < cards.len() ==> (#[trigger] cards[i]).wf(),
    ensures
        forall|i: int|
            0 <= i < selected(cards, keys, key).len() ==> (#[trigger] selected(
                cards,
                keys,
                key,
            )[i]).wf(),
        selected(cards, keys, key).len() <= cards.len(),
    decreases cards.len(),
{
    if cards.len() > 0 {
        assert forall|i: int| 0 <= i < cards.drop_last().len() implies (
        #[trigger] cards.drop_last()[i]).wf() by {
            assert(cards.drop_last()[i] == cards[i]);
        }
        lemma_selected_are_cards(cards.drop_last(), keys.drop_last(), key);
        assert(cards.last().wf());
    }
}

/// Cards that carry their identifiers are grouped into decks whose cards
/// all carry theirs.
pub proof fn lemma_grouped_cards_are_whole(cards: Seq<(Seq<char>, CardView)>)
    requires
        forall|i: int| 0 <= i < cards.len() ==> (#[trigger] cards[i]).1.wf(),
    ensures
        forall|d: int| 0 <= d < grouped(cards).len() ==> (#[trigger] grouped(cards)[d]).wf(),
{
    let decks = grouped(cards);
    let names = distinct(names_of(cards));
    assert forall|d: int| 0 <= d < decks.len() implies (#[trigger] decks[d]).wf() by {
        let name = names[d];
        let bound = selected(bare(cards), names_of(cards), name);
        assert(decks[d] == deck_of(name, cards));
        assert forall|i: int| 0 <= i < bare(cards).len() implies (#[trigger] bare(cards)[i]).wf() by {
            assert(bare(cards)[i] == cards[i].1);
        }
        lemma_selected_are_cards(bare(cards), names_of(cards), name);
        let groups = groups_of(bound);
        let models = distinct(models_of(bound));
        assert forall|g: int| 0 <= g < groups.len() implies (#[trigger] groups[g]).wf() by {
            assert(groups[g] == group_of(models[g], bound));
            lemma_selected_are_cards(bound, models_of(bound), models[g]);
        }
    }
}

} // verus!
