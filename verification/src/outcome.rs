//! How a run ends: what went wrong in a group, what each deck reports, and
//! whether the whole run is kept.

use vstd::prelude::*;
use vstd::string::StringExecFns;
use crate::store::DeckCount;
use crate::text::{decimal, decimal_string};

verus! {

/// Why a group of cards could not be reconciled.
#[derive(Debug, PartialEq)]
pub enum ReconcileError {
    /// The store has no model of this name; `card` is the matching key of
    /// the group's first card, if it has one.
    UnknownModel { model: String, card: Option<String> },
    /// The store has no deck of this name.
    UnknownDeck(String),
    /// The store could not take the changed records in.
    Store(String),
    /// The identifiers that the group's new records need do not fit.
    OutOfIdentifiers,
}

pub enum ReconcileErrorView {
    UnknownModel { model: Seq<char>, card: Option<Seq<char>> },
    UnknownDeck(Seq<char>),
    Store(Seq<char>),
    OutOfIdentifiers,
}

impl View for ReconcileError {
    type V = ReconcileErrorView;

    open spec fn view(&self) -> ReconcileErrorView {
        match *self {
            ReconcileError::UnknownModel { model, card } => ReconcileErrorView::UnknownModel {
                model: model@,
                card: card.deep_view(),
            },
            ReconcileError::UnknownDeck(name) => ReconcileErrorView::UnknownDeck(name@),
            ReconcileError::Store(message) => ReconcileErrorView::Store(message@),
            ReconcileError::OutOfIdentifiers => ReconcileErrorView::OutOfIdentifiers,
        }
    }
}

impl DeepView for ReconcileError {
    type V = ReconcileErrorView;

    open spec fn deep_view(&self) -> ReconcileErrorView {
        self@
    }
}

impl ReconcileErrorView {
    /// The error in words.
    pub open spec fn message(self) -> Seq<char> {
        match self {
            ReconcileErrorView::UnknownModel { model, card } => match card {
                Some(key) => "unknown model "@ + model + " for card "@ + key,
                None => "unknown model "@ + model,
            },
            ReconcileErrorView::UnknownDeck(name) => "Deck "@ + name + " does not exist"@,
            ReconcileErrorView::Store(message) => message,
            ReconcileErrorView::OutOfIdentifiers => "no record identifiers left"@,
        }
    }
}

impl ReconcileError {
    /// The error in words.
    pub fn message(&self) -> (text: String)
        ensures
            text@ == self@.message(),
    {
        match self {
            ReconcileError::UnknownModel { model, card } => {
                let mut text = String::from_str("unknown model ");
                text.append(model.as_str());
                match card {
                    Some(key) => {
                        text.append(" for card ");
                        text.append(key.as_str());
                    },
                    None => {},
                }
                text
            },
            ReconcileError::UnknownDeck(name) => {
                let mut text = String::from_str("Deck ");
                text.append(name.as_str());
                text.append(" does not exist");
                text
            },
            ReconcileError::Store(message) => message.clone(),
            ReconcileError::OutOfIdentifiers => String::from_str("no record identifiers left"),
        }
    }
}

/// The messages of the errors, one after the other.
pub open spec fn messages_joined(errors: Seq<ReconcileErrorView>) -> Seq<char>
    decreases errors.len(),
{
    if errors.len() == 0 {
        Seq::empty()
    } else {
        messages_joined(errors.drop_last()) + errors.last().message()
    }
}

/// The messages of the errors, one after the other.
pub fn join_messages(errors: &Vec<ReconcileError>) -> (text: String)
    ensures
        text@ == messages_joined(errors.deep_view()),
{
    let ghost all = errors.deep_view();
    let mut text = String::new();
    let mut i: usize = 0;
    assert(all.take(0) =~= Seq::<ReconcileErrorView>::empty());
    while i < errors.len()
        invariant
            i <= errors.len(),
            all == errors.deep_view(),
            text@ == messages_joined(all.take(i as int)),
        decreases errors.len() - i,
    {
        proof {
            assert(all.take(i as int + 1).drop_last() =~= all.take(i as int));
            assert(all.take(i as int + 1).last() == errors@[i as int]@);
        }
        let message = errors[i].message();
        text.append(message.as_str());
        i += 1;
    }
    assert(all.take(i as int) =~= all);
    text
}

/// What one deck has to report: its counts, or why it failed.
#[derive(Debug, PartialEq)]
pub struct DeckLog {
    pub name: String,
    pub added: i32,
    pub updated: i32,
    pub failure: Option<String>,
}

pub struct DeckLogView {
    pub name: Seq<char>,
    pub added: i32,
    pub updated: i32,
    pub failure: Option<Seq<char>>,
}

impl View for DeckLog {
    type V = DeckLogView;

    open spec fn view(&self) -> DeckLogView {
        DeckLogView {
            name: self.name@,
            added: self.added,
            updated: self.updated,
            failure: self.failure.deep_view(),
        }
    }
}

impl DeepView for DeckLog {
    type V = DeckLogView;

    open spec fn deep_view(&self) -> DeckLogView {
        self@
    }
}

/// What a deck reports after all its groups were gone through.
pub open spec fn deck_log(
    name: Seq<char>,
    added: i32,
    updated: i32,
    errors: Seq<ReconcileErrorView>,
) -> DeckLogView {
    DeckLogView {
        name,
        added,
        updated,
        failure: if errors.len() == 0 {
            None
        } else {
            Some(messages_joined(errors))
        },
    }
}

/// The counts of the decks that did not fail, in the decks' order.
pub open spec fn counts_of(logs: Seq<DeckLogView>) -> Seq<(Seq<char>, i32, i32)>
    decreases logs.len(),
{
    if logs.len() == 0 {
        Seq::empty()
    } else if logs.last().failure is None {
        counts_of(logs.drop_last()).push((logs.last().name, logs.last().added, logs.last().updated))
    } else {
        counts_of(logs.drop_last())
    }
}

/// The messages of the decks that failed, in the decks' order.
pub open spec fn failures_of(logs: Seq<DeckLogView>) -> Seq<Seq<char>>
    decreases logs.len(),
{
    if logs.len() == 0 {
        Seq::empty()
    } else {
        match logs.last().failure {
            Some(message) => failures_of(logs.drop_last()).push(message),
            None => failures_of(logs.drop_last()),
        }
    }
}

/// Whether every deck went through.
pub open spec fn all_succeeded(logs: Seq<DeckLogView>) -> bool {
    forall|i: int| 0 <= i < logs.len() ==> (#[trigger] logs[i]).failure is None
}

/// The result of the run: every deck's counts if every deck went through,
/// else the messages of those that failed.
pub open spec fn verdict(logs: Seq<DeckLogView>) -> Result<
    Seq<(Seq<char>, i32, i32)>,
    Seq<Seq<char>>,
> {
    if failures_of(logs).len() == 0 {
        Ok(counts_of(logs))
    } else {
        Err(failures_of(logs))
    }
}

/// Whether every deck went through.
pub fn succeeded(logs: &Vec<DeckLog>) -> (ok: bool)
    ensures
        ok == all_succeeded(logs.deep_view()),
        ok == (failures_of(logs.deep_view()).len() == 0),
{
    let ghost all = logs.deep_view();
    proof {
        lemma_failures(all);
    }
    let mut i: usize = 0;
    while i < logs.len()
        invariant
            i <= logs.len(),
            all == logs.deep_view(),
            all_succeeded(all) <==> failures_of(all).len() == 0,
            forall|k: int| 0 <= k < i ==> (#[trigger] all[k]).failure is None,
        decreases logs.len() - i,
    {
        if logs[i].failure.is_some() {
            assert(all[i as int].failure is Some);
            return false;
        }
        i += 1;
    }
    true
}

/// The result of the run.
pub fn conclude(logs: &Vec<DeckLog>) -> (result: Result<Vec<DeckCount>, Vec<String>>)
    ensures
        match result {
            Ok(counts) => verdict(logs.deep_view()) == Ok::<
                Seq<(Seq<char>, i32, i32)>,
                Seq<Seq<char>>,
            >(counts.deep_view()),
            Err(messages) => verdict(logs.deep_view()) == Err::<
                Seq<(Seq<char>, i32, i32)>,
                Seq<Seq<char>>,
            >(messages.deep_view()),
        },
{
    let ghost all = logs.deep_view();
    let mut counts: Vec<DeckCount> = Vec::new();
    let mut messages: Vec<String> = Vec::new();
    let mut i: usize = 0;
    assert(all.take(0) =~= Seq::<DeckLogView>::empty());
    assert(counts.deep_view() =~= Seq::<(Seq<char>, i32, i32)>::empty());
    assert(messages.deep_view() =~= Seq::<Seq<char>>::empty());
    while i < logs.len()
        invariant
            i <= logs.len(),
            all == logs.deep_view(),
            counts.deep_view() == counts_of(all.take(i as int)),
            messages.deep_view() == failures_of(all.take(i as int)),
        decreases logs.len() - i,
    {
        proof {
            assert(all.take(i as int + 1).drop_last() =~= all.take(i as int));
            assert(all.take(i as int + 1).last() == logs@[i as int]@);
        }
        let log = &logs[i];
        match &log.failure {
            Some(message) => {
                let ghost before = messages.deep_view();
                messages.push(message.clone());
                assert(messages.deep_view() =~= before.push(message@));
            },
            None => {
                let ghost before = counts.deep_view();
                counts.push((log.name.clone(), log.added, log.updated));
                assert(counts.deep_view() =~= before.push((log.name@, log.added, log.updated)));
            },
        }
        i += 1;
    }
    assert(all.take(i as int) =~= all);
    if messages.len() == 0 {
        Ok(counts)
    } else {
        Err(messages)
    }
}

/// No failure is told exactly when every deck went through, and then every
/// deck has its count.
pub proof fn lemma_failures(logs: Seq<DeckLogView>)
    ensures
        all_succeeded(logs) <==> failures_of(logs).len() == 0,
        all_succeeded(logs) ==> counts_of(logs).len() == logs.len(),
    decreases logs.len(),
{
    if logs.len() > 0 {
        lemma_failures(logs.drop_last());
        if all_succeeded(logs) {
            assert(logs.last() == logs[logs.len() - 1]);
            assert forall|i: int| 0 <= i < logs.drop_last().len() implies (
            #[trigger] logs.drop_last()[i]).failure is None by {
                assert(logs.drop_last()[i] == logs[i]);
            }
        } else if logs.last().failure is None {
            assert(!all_succeeded(logs.drop_last())) by {
                if all_succeeded(logs.drop_last()) {
                    assert forall|i: int| 0 <= i < logs.len() implies (
                    #[trigger] logs[i]).failure is None by {
                        if i < logs.len() - 1 {
                            assert(logs.drop_last()[i] == logs[i]);
                        }
                    }
                }
            }
        }
    }
}

/// A run is kept whole or not at all: its result holds every deck's counts
/// exactly when no deck failed, and as soon as one deck failed it holds the
/// failures alone, whatever the other decks had counted.
pub proof fn lemma_all_or_nothing(logs: Seq<DeckLogView>)
    ensures
        verdict(logs) is Ok <==> all_succeeded(logs),
        verdict(logs) is Ok ==> verdict(logs)->Ok_0.len() == logs.len(),
        forall|i: int|
            0 <= i < logs.len() && (#[trigger] logs[i]).failure is Some ==> verdict(logs) is Err,
{
    lemma_failures(logs);
}

/// `n` written in decimal, with a minus sign where it is negative.
pub open spec fn signed_decimal(n: int) -> Seq<char> {
    if n < 0 {
        seq!['-'] + decimal((-n) as nat)
    } else {
        decimal(n as nat)
    }
}

/// `text` after as many spaces as it lacks to be `width` long.
pub open spec fn right_aligned(text: Seq<char>, width: int) -> Seq<char> {
    Seq::new(
        if width > text.len() {
            (width - text.len()) as nat
        } else {
            0
        },
        |i: int| ' ',
    ) + text
}

/// The largest added count, or else the largest updated count, if there is
/// any count at all.
pub open spec fn largest(counts: Seq<(Seq<char>, i32, i32)>, added: bool) -> Option<i32>
    decreases counts.len(),
{
    if counts.len() == 0 {
        None
    } else {
        let last = if added {
            counts.last().1
        } else {
            counts.last().2
        };
        match largest(counts.drop_last(), added) {
            Some(m) => Some(
                if last > m {
                    last
                } else {
                    m
                },
            ),
            None => Some(last),
        }
    }
}

/// How wide a column has to be for its largest number.
pub open spec fn column_width(counts: Seq<(Seq<char>, i32, i32)>, added: bool) -> int {
    match largest(counts, added) {
        Some(m) => signed_decimal(m as int).len() as int,
        None => 0,
    }
}

/// The line that tells what one deck gained.
pub open spec fn count_line(count: (Seq<char>, i32, i32), apad: int, upad: int) -> Seq<char> {
    right_aligned(signed_decimal(count.1 as int), apad) + " added and "@ + right_aligned(
        signed_decimal(count.2 as int),
        upad,
    ) + " updated to "@ + count.0
}

/// The lines of the decks that gained anything, in the decks' order.
pub open spec fn count_lines(counts: Seq<(Seq<char>, i32, i32)>, apad: int, upad: int) -> Seq<
    Seq<char>,
>
    decreases counts.len(),
{
    if counts.len() == 0 {
        Seq::empty()
    } else if counts.last().1 != 0 || counts.last().2 != 0 {
        count_lines(counts.drop_last(), apad, upad).push(count_line(counts.last(), apad, upad))
    } else {
        count_lines(counts.drop_last(), apad, upad)
    }
}

/// What a run that went through has to tell: one line for each deck that
/// gained anything, the numbers in columns as wide as the largest of them,
/// or one line that says that nothing changed.
pub open spec fn summary_of(counts: Seq<(Seq<char>, i32, i32)>) -> Seq<Seq<char>> {
    let lines = count_lines(counts, column_width(counts, true), column_width(counts, false));
    if lines.len() == 0 {
        seq!["Nothing was added or updated"@]
    } else {
        lines
    }
}

/// `n` written in decimal.
pub fn signed_decimal_string(n: i32) -> (text: String)
    ensures
        text@ == signed_decimal(n as int),
{
    if n < 0 {
        let magnitude: usize = (-(n as i64)) as usize;
        let digits = decimal_string(magnitude);
        let mut text = String::new();
        text.push('-');
        text.append(digits.as_str());
        assert(text@ =~= seq!['-'] + decimal((-n) as nat));
        text
    } else {
        decimal_string(n as usize)
    }
}

/// `text` after as many spaces as it lacks to be `width` long.
pub fn align_right(text: &str, width: usize) -> (out: String)
    ensures
        out@ == right_aligned(text@, width as int),
{
    let len = text.unicode_len();
    let pad: usize = if width > len {
        width - len
    } else {
        0
    };
    let mut out = String::new();
    let mut i: usize = 0;
    while i < pad
        invariant
            i <= pad,
            out@ == Seq::new(i as nat, |k: int| ' '),
        decreases pad - i,
    {
        out.push(' ');
        i += 1;
        assert(out@ =~= Seq::new(i as nat, |k: int| ' '));
    }
    out.append(text);
    out
}

/// The width of the column of added or of updated numbers.
fn width_of(counts: &Vec<DeckCount>, added: bool) -> (width: usize)
    ensures
        width == column_width(counts.deep_view(), added),
{
    let ghost all = counts.deep_view();
    let mut best: Option<i32> = None;
    let mut i: usize = 0;
    assert(all.take(0) =~= Seq::<(Seq<char>, i32, i32)>::empty());
    while i < counts.len()
        invariant
            i <= counts.len(),
            all == counts.deep_view(),
            best == largest(all.take(i as int), added),
        decreases counts.len() - i,
    {
        proof {
            assert(all.take(i as int + 1).drop_last() =~= all.take(i as int));
            assert(all.take(i as int + 1).last() == counts@[i as int].deep_view());
        }
        let last = if added {
            counts[i].1
        } else {
            counts[i].2
        };
        best = match best {
            Some(m) => Some(
                if last > m {
                    last
                } else {
                    m
                },
            ),
            None => Some(last),
        };
        i += 1;
    }
    assert(all.take(i as int) =~= all);
    match best {
        Some(m) => signed_decimal_string(m).as_str().unicode_len(),
        None => 0,
    }
}

/// What a run that went through has to tell.
pub fn summary(counts: &Vec<DeckCount>) -> (lines: Vec<String>)
    ensures
        lines.deep_view() == summary_of(counts.deep_view()),
{
    let ghost all = counts.deep_view();
    let apad = width_of(counts, true);
    let upad = width_of(counts, false);
    let mut lines: Vec<String> = Vec::new();
    let mut i: usize = 0;
    assert(all.take(0) =~= Seq::<(Seq<char>, i32, i32)>::empty());
    assert(lines.deep_view() =~= Seq::<Seq<char>>::empty());
    while i < counts.len()
        invariant
            i <= counts.len(),
            all == counts.deep_view(),
            lines.deep_view() == count_lines(all.take(i as int), apad as int, upad as int),
        decreases counts.len() - i,
    {
        proof {
            assert(all.take(i as int + 1).drop_last() =~= all.take(i as int));
            assert(all.take(i as int + 1).last() == counts@[i as int].deep_view());
        }
        let count = &counts[i];
        if count.1 != 0 || count.2 != 0 {
            let added = signed_decimal_string(count.1);
            let updated = signed_decimal_string(count.2);
            let mut line = align_right(added.as_str(), apad);
            line.append(" added and ");
            let right = align_right(updated.as_str(), upad);
            line.append(right.as_str());
            line.append(" updated to ");
            line.append(count.0.as_str());
            let ghost before = lines.deep_view();
            assert(line@ == count_line(counts@[i as int].deep_view(), apad as int, upad as int));
            lines.push(line);
            assert(lines.deep_view() =~= before.push(
                count_line(counts@[i as int].deep_view(), apad as int, upad as int),
            ));
        }
        i += 1;
    }
    assert(all.take(i as int) =~= all);
    if lines.len() == 0 {
        lines.push(String::from_str("Nothing was added or updated"));
        assert(lines.deep_view() =~= seq!["Nothing was added or updated"@]);
    }
    lines
}

} // verus!
