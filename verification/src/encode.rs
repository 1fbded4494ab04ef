//! How field values and tags are written into the store's text columns.

use vstd::prelude::*;
use vstd::string::StringExecFns;
use crate::text::{trim, trimmed};

verus! {

/// The character that stands between two fields in the store.
pub const SEPARATOR: char = '\u{1f}';

/// The parts, with a separator between each two of them.
pub open spec fn joined(parts: Seq<Seq<char>>) -> Seq<char>
    decreases parts.len(),
{
    if parts.len() == 0 {
        Seq::empty()
    } else if parts.len() == 1 {
        parts[0]
    } else {
        joined(parts.drop_last()) + seq![SEPARATOR] + parts.last()
    }
}

/// `n` separators in a row; none for an `n` below one.
pub open spec fn padding(n: int) -> Seq<char> {
    Seq::new(
        if n > 0 {
            n as nat
        } else {
            0
        },
        |i: int| SEPARATOR,
    )
}

/// The joined fields, followed by one separator for each field that is
/// declared beyond those entered.
pub open spec fn field_str(fields: Seq<Seq<char>>, declared: int, entered: int) -> Seq<char> {
    joined(fields) + padding(declared - entered)
}

/// What the store holds for a card's fields under a model that declares
/// `declared` of them.
pub open spec fn field_blob(fields: Seq<Seq<char>>, declared: int) -> Seq<char> {
    field_str(fields, declared, fields.len() as int)
}

/// The fields, with empty fields after them up to the declared count.
pub open spec fn padded(fields: Seq<Seq<char>>, declared: int) -> Seq<Seq<char>> {
    fields + Seq::new(
        if declared > fields.len() {
            (declared - fields.len()) as nat
        } else {
            0
        },
        |i: int| Seq::<char>::empty(),
    )
}

/// What the store holds for a card's tags: the trimmed tags between two
/// spaces, or one space for a card without tags.
pub open spec fn tag_blob(tags: Option<Seq<char>>) -> Seq<char> {
    match tags {
        Some(t) => seq![' '] + trimmed(t) + seq![' '],
        None => seq![' '],
    }
}

/// Where the first separator of `text` stands, or the length of `text` if
/// it has none.
pub open spec fn separator_at(text: Seq<char>) -> nat
    decreases text.len(),
{
    if text.len() == 0 || text[0] == SEPARATOR {
        0
    } else {
        1 + separator_at(text.drop_first())
    }
}

/// The fields that a stored text holds: what stands between its separators.
pub open spec fn split_fields(text: Seq<char>) -> Seq<Seq<char>>
    decreases text.len(),
{
    let n = separator_at(text) as int;
    if n >= text.len() {
        seq![text]
    } else {
        seq![text.take(n)] + split_fields(text.skip(n + 1))
    }
}

/// Whether none of the fields holds a separator.
pub open spec fn separator_free(fields: Seq<Seq<char>>) -> bool {
    forall|i: int, j: int|
        0 <= i < fields.len() && 0 <= j < fields[i].len() ==> #[trigger] fields[i][j]
            != SEPARATOR
}

/// The encoded field text of `fields`.
pub fn build_field_str(
    fields: &Vec<String>,
    model_field_count: usize,
    fields_entered_count: usize,
) -> (blob: String)
    ensures
        blob@ == field_str(
            fields.deep_view(),
            model_field_count as int,
            fields_entered_count as int,
        ),
{
    let ghost parts = fields.deep_view();
    let mut blob = String::new();
    let mut i: usize = 0;
    assert(parts.take(0) =~= Seq::<Seq<char>>::empty());
    while i < fields.len()
        invariant
            i <= fields.len(),
            parts == fields.deep_view(),
            blob@ == joined(parts.take(i as int)),
        decreases fields.len() - i,
    {
        let ghost before = blob@;
        if i > 0 {
            blob.push(SEPARATOR);
        }
        blob.append(fields[i].as_str());
        proof {
            let now = parts.take(i as int + 1);
            assert(now.drop_last() =~= parts.take(i as int));
            assert(now.last() == fields@[i as int]@);
            if i > 0 {
                assert(before.push(SEPARATOR) =~= before + seq![SEPARATOR]);
            } else {
                assert(before + fields@[i as int]@ =~= fields@[i as int]@);
            }
        }
        i += 1;
    }
    assert(parts.take(i as int) =~= parts);
    let pad: usize = if model_field_count > fields_entered_count {
        model_field_count - fields_entered_count
    } else {
        0
    };
    let mut k: usize = 0;
    assert(joined(parts) + padding(0) =~= joined(parts));
    while k < pad
        invariant
            k <= pad,
            blob@ == joined(parts) + padding(k as int),
        decreases pad - k,
    {
        blob.push(SEPARATOR);
        k += 1;
        assert(blob@ =~= joined(parts) + padding(k as int));
    }
    blob
}

/// The encoded tag text of `tags`.
pub fn encode_tags(tags: &Option<String>) -> (blob: String)
    ensures
        blob@ == tag_blob(tags.deep_view()),
{
    let mut blob = String::new();
    blob.push(' ');
    match tags {
        Some(t) => {
            let inner = trim(t.as_str());
            blob.append(inner.as_str());
            blob.push(' ');
            assert(blob@ =~= seq![' '] + trimmed(t@) + seq![' ']);
        },
        None => {
            assert(blob@ =~= seq![' ']);
        },
    }
    blob
}

/// Padding a card's fields with separators writes the same text as joining
/// its fields after empty fields were added up to the declared count; a card
/// that has at least as many fields as declared keeps all of them and gets
/// nothing added.
pub proof fn lemma_padding_adds_empty_fields(fields: Seq<Seq<char>>, declared: int)
    requires
        fields.len() > 0,
    ensures
        field_blob(fields, declared) == joined(padded(fields, declared)),
        padded(fields, declared).len() == if declared > fields.len() {
            declared
        } else {
            fields.len() as int
        },
        forall|i: int| 0 <= i < fields.len() ==> padded(fields, declared)[i] == fields[i],
        forall|i: int|
            fields.len() <= i < padded(fields, declared).len() ==> padded(fields, declared)[i]
                == Seq::<char>::empty(),
        declared <= fields.len() ==> field_blob(fields, declared) == joined(fields),
    decreases declared,
{
    if declared <= fields.len() {
        assert(padded(fields, declared) =~= fields);
        assert(joined(fields) + padding(declared - fields.len()) =~= joined(fields));
    } else {
        lemma_padding_adds_empty_fields(fields, declared - 1);
        let more = padded(fields, declared);
        let less = padded(fields, declared - 1);
        assert(more.drop_last() =~= less);
        assert(more.last() == Seq::<char>::empty());
        assert(joined(more) == joined(less) + seq![SEPARATOR] + Seq::<char>::empty());
        assert(padding(declared - fields.len()) =~= padding(declared - 1 - fields.len()) + seq![
            SEPARATOR,
        ]);
        assert(joined(more) =~= field_blob(fields, declared));
    }
}

proof fn lemma_separator_at(head: Seq<char>, tail: Seq<char>)
    requires
        forall|j: int| 0 <= j < head.len() ==> head[j] != SEPARATOR,
    ensures
        separator_at(head) == head.len(),
        separator_at(head + seq![SEPARATOR] + tail) == head.len(),
    decreases head.len(),
{
    let whole = head + seq![SEPARATOR] + tail;
    if head.len() == 0 {
        assert(whole[0] == SEPARATOR);
    } else {
        assert(whole[0] == head[0]);
        assert forall|j: int| 0 <= j < head.drop_first().len() implies head.drop_first()[j]
            != SEPARATOR by {
            assert(head.drop_first()[j] == head[j + 1]);
        }
        lemma_separator_at(head.drop_first(), tail);
        assert(whole.drop_first() =~= head.drop_first() + seq![SEPARATOR] + tail);
    }
}

proof fn lemma_joined_from_the_front(parts: Seq<Seq<char>>)
    requires
        parts.len() > 1,
    ensures
        joined(parts) == parts[0] + seq![SEPARATOR] + joined(parts.drop_first()),
    decreases parts.len(),
{
    let front = parts.drop_last();
    let back = parts.drop_first();
    assert(joined(parts) == joined(front) + seq![SEPARATOR] + parts.last());
    if parts.len() == 2 {
        assert(front.len() == 1 && front[0] == parts[0]);
        assert(back.len() == 1 && back[0] == parts[1]);
        assert(joined(front) == parts[0]);
        assert(joined(back) == parts[1]);
        assert(parts.last() == parts[1]);
    } else {
        lemma_joined_from_the_front(front);
        assert(front.drop_first() =~= back.drop_last());
        assert(front[0] == parts[0]);
        assert(back.last() == parts.last());
        assert(joined(back) == joined(back.drop_last()) + seq![SEPARATOR] + back.last());
        assert(joined(parts) =~= parts[0] + seq![SEPARATOR] + joined(back));
    }
}

/// Fields that hold no separator are read back from their joined text as
/// they went in, each one and in their order.
pub proof fn lemma_split_undoes_join(parts: Seq<Seq<char>>)
    requires
        parts.len() > 0,
        separator_free(parts),
    ensures
        split_fields(joined(parts)) == parts,
    decreases parts.len(),
{
    assert forall|j: int| 0 <= j < parts[0].len() implies parts[0][j] != SEPARATOR by {
        assert(parts[0][j] != SEPARATOR);
    }
    if parts.len() == 1 {
        lemma_separator_at(parts[0], Seq::empty());
        assert(split_fields(parts[0]) =~= parts);
    } else {
        let rest = parts.drop_first();
        let text = joined(parts);
        lemma_joined_from_the_front(parts);
        lemma_separator_at(parts[0], joined(rest));
        assert forall|i: int, j: int| 0 <= i < rest.len() && 0 <= j < rest[i].len() implies (
        #[trigger] rest[i][j]) != SEPARATOR by {
            assert(rest[i] == parts[i + 1]);
            assert(parts[i + 1][j] != SEPARATOR);
        }
        lemma_split_undoes_join(rest);
        let n = parts[0].len() as int;
        assert(text.take(n) =~= parts[0]);
        assert(text.skip(n + 1) =~= joined(rest));
        assert(split_fields(text) =~= parts);
    }
}

/// A card with fewer fields than its model declares is stored with empty
/// fields after its own up to the declared count, and a card with more
/// fields is stored with all of them: what is read back from the stored
/// text are the card's fields, each as it was, followed by nothing but the
/// empty fields that were lacking.
pub proof fn lemma_stored_fields_are_padded(fields: Seq<Seq<char>>, declared: int)
    requires
        fields.len() > 0,
        separator_free(fields),
    ensures
        split_fields(field_blob(fields, declared)) == padded(fields, declared),
        declared > fields.len() ==> split_fields(field_blob(fields, declared)).len() == declared,
        declared <= fields.len() ==> split_fields(field_blob(fields, declared)) == fields,
{
    lemma_padding_adds_empty_fields(fields, declared);
    let all = padded(fields, declared);
    assert forall|i: int, j: int| 0 <= i < all.len() && 0 <= j < all[i].len() implies (
    #[trigger] all[i][j]) != SEPARATOR by {
        if i < fields.len() {
            assert(all[i] == fields[i]);
            assert(fields[i][j] != SEPARATOR);
        }
    }
    lemma_split_undoes_join(all);
    if declared <= fields.len() {
        assert(all =~= fields);
    }
}

} // verus!
