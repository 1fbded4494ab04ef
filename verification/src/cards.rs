//! Cards and the groups they are reconciled in.

use vstd::prelude::*;

verus! {

/// One unit of content: an identity key followed by its field values.
#[derive(Debug, PartialEq)]
pub struct Card {
    pub model: String,
    /// The first field is the identifier the card is matched by.
    pub fields: Vec<String>,
    pub tags: Option<String>,
}

/// What a [`Card`] is, as plain text.
pub struct CardView {
    pub model: Seq<char>,
    pub fields: Seq<Seq<char>>,
    pub tags: Option<Seq<char>>,
}

impl CardView {
    /// A card always carries its identifier.
    pub open spec fn wf(self) -> bool {
        self.fields.len() > 0
    }

    /// The key the card is matched by.
    pub open spec fn identity(self) -> Seq<char> {
        self.fields[0]
    }
}

impl View for Card {
    type V = CardView;

    open spec fn view(&self) -> CardView {
        CardView {
            model: self.model@,
            fields: self.fields.deep_view(),
            tags: self.tags.deep_view(),
        }
    }
}

impl DeepView for Card {
    type V = CardView;

    open spec fn deep_view(&self) -> CardView {
        self@
    }
}

impl Clone for Card {
    fn clone(&self) -> (card: Card)
        ensures
            card@ == self@,
    {
        let fields = self.fields.clone();
        let tags = self.tags.clone();
        assert(fields.deep_view() =~= self.fields.deep_view());
        Card { model: self.model.clone(), fields, tags }
    }
}

impl Card {
    pub fn new(model: String, fields: Vec<String>, tags: Option<String>) -> (card: Card)
        requires
            fields@.len() > 0,
        ensures
            card.model == model,
            card.fields == fields,
            card.tags == tags,
            card@.wf(),
    {
        Card { model, fields, tags }
    }
}

/// The cards of one deck that share a model, in the order they were met.
#[derive(Debug, PartialEq)]
pub struct TypeGroup {
    pub model: String,
    pub cards: Vec<Card>,
}

pub struct TypeGroupView {
    pub model: Seq<char>,
    pub cards: Seq<CardView>,
}

impl TypeGroupView {
    pub open spec fn wf(self) -> bool {
        forall|i: int| 0 <= i < self.cards.len() ==> (#[trigger] self.cards[i]).wf()
    }
}

impl View for TypeGroup {
    type V = TypeGroupView;

    open spec fn view(&self) -> TypeGroupView {
        TypeGroupView { model: self.model@, cards: self.cards.deep_view() }
    }
}

impl DeepView for TypeGroup {
    type V = TypeGroupView;

    open spec fn deep_view(&self) -> TypeGroupView {
        self@
    }
}

/// A named destination and the groups of cards bound for it.
#[derive(Debug, PartialEq)]
pub struct Deck {
    pub name: String,
    pub groups: Vec<TypeGroup>,
}

pub struct DeckView {
    pub name: Seq<char>,
    pub groups: Seq<TypeGroupView>,
}

impl DeckView {
    pub open spec fn wf(self) -> bool {
        forall|i: int| 0 <= i < self.groups.len() ==> (#[trigger] self.groups[i]).wf()
    }
}

impl View for Deck {
    type V = DeckView;

    open spec fn view(&self) -> DeckView {
        DeckView { name: self.name@, groups: self.groups.deep_view() }
    }
}

impl DeepView for Deck {
    type V = DeckView;

    open spec fn deep_view(&self) -> DeckView {
        self@
    }
}

impl Deck {
    pub fn new(name: String, groups: Vec<TypeGroup>) -> (deck: Deck)
        ensures
            deck.name == name,
            deck.groups == groups,
    {
        Deck { name, groups }
    }
}

} // verus!
