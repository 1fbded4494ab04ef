//! From the text of a card source to cards.
//!
//! A source holds blocks, one for each card, with a line `###` between two
//! of them. A block holds segments, each begun by a line `---` (the first
//! one may do without); the first segment is the frontmatter, the others
//! are the card's fields.

use vstd::prelude::*;
use vstd::string::StringExecFns;
use crate::cards::{Card, CardView, Deck, DeckView};
use crate::grouping::{group, grouped, lemma_grouped_cards_are_whole};
use crate::markup::{plain, plaintext};
use crate::text::{
    decimal, decimal_string, is_rule, lines_of, split_lines, to_chars, trim, trim_bounds, trimmed,
};
use crate::yaml::{
    field_at, yaml_error_message, yaml_field, yaml_from_str, yaml_parse, YamlField,
    YamlFieldView,
};

verus! {

/// The segments of one card, the frontmatter first.
#[derive(Debug, PartialEq)]
pub struct RawBlock {
    pub segments: Vec<String>,
}

impl View for RawBlock {
    type V = Seq<Seq<char>>;

    open spec fn view(&self) -> Seq<Seq<char>> {
        self.segments.deep_view()
    }
}

impl DeepView for RawBlock {
    type V = Seq<Seq<char>>;

    open spec fn deep_view(&self) -> Seq<Seq<char>> {
        self@
    }
}

/// Why a block is no card.
#[derive(Debug, PartialEq)]
pub enum ParseError {
    /// The block has no segment.
    Empty,
    /// The frontmatter cannot be read, or lacks what a card needs.
    BadFrontmatter(String),
    /// The frontmatter names no identifier and the source has no name to
    /// make one of.
    MissingId,
}

pub enum ParseErrorView {
    Empty,
    BadFrontmatter(Seq<char>),
    MissingId,
}

impl View for ParseError {
    type V = ParseErrorView;

    open spec fn view(&self) -> ParseErrorView {
        match *self {
            ParseError::Empty => ParseErrorView::Empty,
            ParseError::BadFrontmatter(message) => ParseErrorView::BadFrontmatter(message@),
            ParseError::MissingId => ParseErrorView::MissingId,
        }
    }
}

impl DeepView for ParseError {
    type V = ParseErrorView;

    open spec fn deep_view(&self) -> ParseErrorView {
        self@
    }
}

impl ParseErrorView {
    /// The error in words.
    pub open spec fn message(self) -> Seq<char> {
        match self {
            ParseErrorView::Empty => "empty card"@,
            ParseErrorView::BadFrontmatter(message) => "error parsing frontmatter: "@ + message,
            ParseErrorView::MissingId => "An id is required as part of the frontmatter"@,
        }
    }
}

impl ParseError {
    /// The error in words.
    pub fn message(&self) -> (text: String)
        ensures
            text@ == self@.message(),
    {
        match self {
            ParseError::Empty => String::from_str("empty card"),
            ParseError::BadFrontmatter(message) => {
                let mut text = String::from_str("error parsing frontmatter: ");
                text.append(message.as_str());
                text
            },
            ParseError::MissingId => String::from_str(
                "An id is required as part of the frontmatter",
            ),
        }
    }
}

/// What a card says of itself ahead of its fields.
#[derive(Debug, PartialEq)]
pub struct Frontmatter {
    pub deck: String,
    pub model: String,
    pub id: Option<String>,
    pub tags: Option<String>,
    pub html: Option<bool>,
}

pub struct FrontmatterView {
    pub deck: Seq<char>,
    pub model: Seq<char>,
    pub id: Option<Seq<char>>,
    pub tags: Option<Seq<char>>,
    pub html: Option<bool>,
}

impl View for Frontmatter {
    type V = FrontmatterView;

    open spec fn view(&self) -> FrontmatterView {
        FrontmatterView {
            deck: self.deck@,
            model: self.model@,
            id: self.id.deep_view(),
            tags: self.tags.deep_view(),
            html: self.html,
        }
    }
}

/// The line `c c c`.
pub open spec fn rule(c: char) -> Seq<char> {
    seq![c, c, c]
}

/// The blocks after one more line. A line that is `---` but for white space
/// begins a segment of the last block, one that is `###` begins a block, and
/// any other line goes with its line feed to the end of the last segment,
/// which it begins where the block has none.
pub open spec fn add_line(blocks: Seq<Seq<Seq<char>>>, line: Seq<char>) -> Seq<Seq<Seq<char>>> {
    let block = blocks.last();
    if trimmed(line) == rule('-') {
        blocks.drop_last().push(block.push(Seq::empty()))
    } else if trimmed(line) == rule('#') {
        blocks.push(Seq::empty())
    } else if block.len() == 0 {
        blocks.drop_last().push(seq![line.push('\n')])
    } else {
        blocks.drop_last().push(block.drop_last().push(block.last() + line.push('\n')))
    }
}

/// The blocks that the lines make, the first of which needs no `###`.
pub open spec fn blocks_of(lines: Seq<Seq<char>>) -> Seq<Seq<Seq<char>>>
    decreases lines.len(),
{
    if lines.len() == 0 {
        seq![Seq::empty()]
    } else {
        add_line(blocks_of(lines.drop_last()), lines.last())
    }
}

/// The complaint about a key that a card cannot do without.
pub open spec fn missing(key: Seq<char>) -> ParseErrorView {
    ParseErrorView::BadFrontmatter("missing field `"@ + key + "`"@)
}

/// The complaint about a key that holds what it must not hold.
pub open spec fn invalid(key: Seq<char>, wanted: Seq<char>) -> ParseErrorView {
    ParseErrorView::BadFrontmatter("invalid type for `"@ + key + "`: expected "@ + wanted)
}

/// The text under a key that a card cannot do without.
pub open spec fn required_text(field: YamlFieldView, key: Seq<char>) -> Result<
    Seq<char>,
    ParseErrorView,
> {
    match field {
        YamlFieldView::Text(text) => Ok(text),
        YamlFieldView::Missing | YamlFieldView::Null => Err(missing(key)),
        _ => Err(invalid(key, "a string"@)),
    }
}

/// The text under a key that a card may leave out.
pub open spec fn optional_text(field: YamlFieldView, key: Seq<char>) -> Result<
    Option<Seq<char>>,
    ParseErrorView,
> {
    match field {
        YamlFieldView::Text(text) => Ok(Some(text)),
        YamlFieldView::Missing | YamlFieldView::Null => Ok(None),
        _ => Err(invalid(key, "a string"@)),
    }
}

/// The flag under a key that a card may leave out.
pub open spec fn optional_flag(field: YamlFieldView, key: Seq<char>) -> Result<
    Option<bool>,
    ParseErrorView,
> {
    match field {
        YamlFieldView::Flag(flag) => Ok(Some(flag)),
        YamlFieldView::Missing | YamlFieldView::Null => Ok(None),
        _ => Err(invalid(key, "a boolean"@)),
    }
}

/// The frontmatter that five fields make, or the complaint about the first
/// of them that does not do: `deck` and `type` must be strings, `id` and
/// `tags` may be strings, `html` may be a boolean.
pub open spec fn frontmatter_from(
    deck: YamlFieldView,
    model: YamlFieldView,
    id: YamlFieldView,
    tags: YamlFieldView,
    html: YamlFieldView,
) -> Result<FrontmatterView, ParseErrorView> {
    match required_text(deck, "deck"@) {
        Err(e) => Err(e),
        Ok(deck) => match required_text(model, "type"@) {
            Err(e) => Err(e),
            Ok(model) => match optional_text(id, "id"@) {
                Err(e) => Err(e),
                Ok(id) => match optional_text(tags, "tags"@) {
                    Err(e) => Err(e),
                    Ok(tags) => match optional_flag(html, "html"@) {
                        Err(e) => Err(e),
                        Ok(html) => Ok(FrontmatterView { deck, model, id, tags, html }),
                    },
                },
            },
        },
    }
}

/// The frontmatter that the YAML reader's answer makes.
pub open spec fn frontmatter_of(read: Result<Map<Seq<char>, YamlFieldView>, Seq<char>>) -> Result<
    FrontmatterView,
    ParseErrorView,
> {
    match read {
        Err(message) => Err(ParseErrorView::BadFrontmatter(message)),
        Ok(entries) => frontmatter_from(
            field_at(entries, "deck"@),
            field_at(entries, "type"@),
            field_at(entries, "id"@),
            field_at(entries, "tags"@),
            field_at(entries, "html"@),
        ),
    }
}

/// The identifier of a card: the one that its frontmatter names, else the
/// name of its source, a `#`, and the number of its block, counted from one.
pub open spec fn identifier(
    named: Option<Seq<char>>,
    stream: Option<Seq<char>>,
    index: nat,
) -> Result<Seq<char>, ParseErrorView> {
    match named {
        Some(id) => Ok(id),
        None => match stream {
            Some(name) => Ok(name + seq!['#'] + decimal(index + 1)),
            None => Err(ParseErrorView::MissingId),
        },
    }
}

/// A field body as the card holds it: trimmed, and made plain text for
/// hypertext where the frontmatter asks for that.
pub open spec fn normalized(body: Seq<char>, html: Option<bool>) -> Seq<char> {
    if html == Some(true) {
        plain(body)
    } else {
        trimmed(body)
    }
}

/// The segments that follow the frontmatter.
pub open spec fn bodies_of(segments: Seq<Seq<char>>) -> Seq<Seq<char>> {
    if segments.len() == 0 {
        Seq::empty()
    } else {
        segments.skip(1)
    }
}

/// The deck name and the card that a block's segments make with their
/// frontmatter: the identifier is the first field, the normalized bodies
/// are the others.
pub open spec fn card_of(
    frontmatter: FrontmatterView,
    segments: Seq<Seq<char>>,
    stream: Option<Seq<char>>,
    index: nat,
) -> Result<(Seq<char>, CardView), ParseErrorView> {
    match identifier(frontmatter.id, stream, index) {
        Err(e) => Err(e),
        Ok(id) => Ok(
            (
                frontmatter.deck,
                CardView {
                    model: frontmatter.model,
                    fields: seq![id] + bodies_of(segments).map_values(
                        |body: Seq<char>| normalized(body, frontmatter.html),
                    ),
                    tags: frontmatter.tags,
                },
            ),
        ),
    }
}

/// What a block makes: a card, or the reason why not.
pub open spec fn block_result(segments: Seq<Seq<char>>, stream: Option<Seq<char>>, index: nat) -> Result<
    (Seq<char>, CardView),
    ParseErrorView,
> {
    if segments.len() == 0 {
        Err(ParseErrorView::Empty)
    } else {
        match frontmatter_of(yaml_parse(segments[0])) {
            Err(e) => Err(e),
            Ok(frontmatter) => card_of(frontmatter, segments, stream, index),
        }
    }
}

/// The cards of the first `upto` blocks that make one, in their order.
pub open spec fn cards_in(blocks: Seq<Seq<Seq<char>>>, stream: Option<Seq<char>>, upto: nat) -> Seq<
    (Seq<char>, CardView),
>
    decreases upto,
{
    if upto == 0 {
        Seq::empty()
    } else {
        let rest = cards_in(blocks, stream, (upto - 1) as nat);
        match block_result(blocks[upto - 1], stream, (upto - 1) as nat) {
            Ok(card) => rest.push(card),
            Err(_) => rest,
        }
    }
}

/// The errors of the first `upto` blocks that make no card, in their order.
pub open spec fn errors_in(blocks: Seq<Seq<Seq<char>>>, stream: Option<Seq<char>>, upto: nat) -> Seq<
    ParseErrorView,
>
    decreases upto,
{
    if upto == 0 {
        Seq::empty()
    } else {
        let rest = errors_in(blocks, stream, (upto - 1) as nat);
        match block_result(blocks[upto - 1], stream, (upto - 1) as nat) {
            Ok(_) => rest,
            Err(e) => rest.push(e),
        }
    }
}

/// What a source makes: the cards of all its blocks if every block makes
/// one, else the errors of those that make none.
pub open spec fn parsed(text: Seq<char>, stream: Option<Seq<char>>) -> Result<
    Seq<(Seq<char>, CardView)>,
    Seq<ParseErrorView>,
> {
    let blocks = blocks_of(lines_of(text));
    if errors_in(blocks, stream, blocks.len()).len() == 0 {
        Ok(cards_in(blocks, stream, blocks.len()))
    } else {
        Err(errors_in(blocks, stream, blocks.len()))
    }
}

/// The blocks that are done, and the last block: its segments that are
/// done, and the segment that lines still go to.
struct Scan {
    done: Vec<RawBlock>,
    segments: Vec<String>,
    open: Option<String>,
}

impl Scan {
    spec fn last_block(&self) -> Seq<Seq<char>> {
        match self.open {
            Some(segment) => self.segments.deep_view().push(segment@),
            None => self.segments.deep_view(),
        }
    }

    spec fn blocks(&self) -> Seq<Seq<Seq<char>>> {
        self.done.deep_view().push(self.last_block())
    }

    spec fn wf(&self) -> bool {
        self.open is None ==> self.segments@.len() == 0
    }
}

/// `line` and a line feed at the end of `segment`.
fn append_line(segment: &mut String, line: &Vec<char>)
    ensures
        final(segment)@ == old(segment)@ + line@.push('\n'),
{
    let mut i: usize = 0;
    while i < line.len()
        invariant
            i <= line.len(),
            segment@ == old(segment)@ + line@.take(i as int),
        decreases line.len() - i,
    {
        segment.push(line[i]);
        i += 1;
        assert(segment@ =~= old(segment)@ + line@.take(i as int));
    }
    segment.push('\n');
    assert(line@.take(i as int) =~= line@);
    assert(segment@ =~= old(segment)@ + line@.push('\n'));
}

/// The blocks of a source.
pub fn blocks(text: &str) -> (blocks: Vec<RawBlock>)
    ensures
        blocks.deep_view() == blocks_of(lines_of(text@)),
        blocks.len() > 0,
{
    let chars = to_chars(text);
    let lines = split_lines(&chars);
    let ghost all = lines.deep_view();
    let mut scan = Scan { done: Vec::new(), segments: Vec::new(), open: None };
    let mut i: usize = 0;
    proof {
        assert(all.take(0) =~= Seq::<Seq<char>>::empty());
        assert(scan.last_block() =~= Seq::<Seq<char>>::empty());
        assert(scan.blocks() =~= seq![Seq::<Seq<char>>::empty()]);
    }
    while i < lines.len()
        invariant
            i <= lines.len(),
            all == lines.deep_view(),
            scan.wf(),
            scan.blocks() == blocks_of(all.take(i as int)),
        decreases lines.len() - i,
    {
        let line = &lines[i];
        let ghost before = scan.blocks();
        let ghost block = scan.last_block();
        proof {
            assert(all.take(i as int + 1).drop_last() =~= all.take(i as int));
            assert(all.take(i as int + 1).last() =~= line@);
            assert(before.last() == block);
            assert(before.drop_last() =~= scan.done.deep_view());
        }
        let (from, to) = trim_bounds(line);
        if is_rule(line, from, to, '-') {
            match scan.open {
                Some(segment) => {
                    let ghost closed = scan.segments.deep_view();
                    scan.segments.push(segment);
                    assert(scan.segments.deep_view() =~= closed.push(segment@));
                },
                None => {},
            }
            scan.open = Some(String::new());
            proof {
                assert(scan.last_block() =~= block.push(Seq::<char>::empty()));
                assert(scan.blocks() =~= add_line(before, line@));
            }
        } else if is_rule(line, from, to, '#') {
            let mut segments: Vec<String> = Vec::new();
            std::mem::swap(&mut segments, &mut scan.segments);
            match scan.open {
                Some(segment) => {
                    let ghost closed = segments.deep_view();
                    segments.push(segment);
                    assert(segments.deep_view() =~= closed.push(segment@));
                },
                None => {},
            }
            let ghost finished = scan.done.deep_view();
            let raw = RawBlock { segments };
            assert(raw@ == block);
            scan.done.push(raw);
            scan.open = None;
            proof {
                assert(scan.done.deep_view() =~= finished.push(block));
                assert(scan.segments.deep_view() =~= Seq::<Seq<char>>::empty());
                assert(scan.last_block() =~= Seq::<Seq<char>>::empty());
                assert(scan.blocks() =~= add_line(before, line@));
            }
        } else {
            let mut segment = match scan.open {
                Some(segment) => segment,
                None => String::new(),
            };
            let ghost had = scan.open is Some;
            let ghost old_segment = segment@;
            append_line(&mut segment, line);
            scan.open = Some(segment);
            proof {
                if had {
                    assert(block.drop_last() =~= scan.segments.deep_view());
                    assert(block.last() == old_segment);
                    assert(scan.last_block() =~= block.drop_last().push(
                        block.last() + line@.push('\n'),
                    ));
                } else {
                    assert(block.len() == 0);
                    assert(old_segment + line@.push('\n') =~= line@.push('\n'));
                    assert(scan.last_block() =~= seq![line@.push('\n')]);
                }
                assert(scan.blocks() =~= add_line(before, line@));
            }
        }
        i += 1;
    }
    assert(all.take(i as int) =~= all);
    let ghost block = scan.last_block();
    let ghost finished = scan.done.deep_view();
    let mut segments = scan.segments;
    match scan.open {
        Some(segment) => {
            let ghost closed = segments.deep_view();
            segments.push(segment);
            assert(segments.deep_view() =~= closed.push(segment@));
        },
        None => {},
    }
    let mut done = scan.done;
    let raw = RawBlock { segments };
    assert(raw@ == block);
    done.push(raw);
    assert(done.deep_view() =~= finished.push(block));
    done
}

fn missing_key(key: &str) -> (error: ParseError)
    ensures
        error@ == missing(key@),
{
    let mut message = String::from_str("missing field `");
    message.append(key);
    message.append("`");
    ParseError::BadFrontmatter(message)
}

fn invalid_key(key: &str, wanted: &str) -> (error: ParseError)
    ensures
        error@ == invalid(key@, wanted@),
{
    let mut message = String::from_str("invalid type for `");
    message.append(key);
    message.append("`: expected ");
    message.append(wanted);
    ParseError::BadFrontmatter(message)
}

fn text_required(field: YamlField, key: &str) -> (text: Result<String, ParseError>)
    ensures
        match text {
            Ok(t) => required_text(field@, key@) == Ok::<Seq<char>, ParseErrorView>(t@),
            Err(e) => required_text(field@, key@) == Err::<Seq<char>, ParseErrorView>(e@),
        },
{
    match field {
        YamlField::Text(text) => Ok(text),
        YamlField::Missing | YamlField::Null => Err(missing_key(key)),
        _ => Err(invalid_key(key, "a string")),
    }
}

fn text_optional(field: YamlField, key: &str) -> (text: Result<Option<String>, ParseError>)
    ensures
        match text {
            Ok(t) => optional_text(field@, key@) == Ok::<Option<Seq<char>>, ParseErrorView>(
                t.deep_view(),
            ),
            Err(e) => optional_text(field@, key@) == Err::<Option<Seq<char>>, ParseErrorView>(e@),
        },
{
    match field {
        YamlField::Text(text) => Ok(Some(text)),
        YamlField::Missing | YamlField::Null => Ok(None),
        _ => Err(invalid_key(key, "a string")),
    }
}

fn flag_optional(field: YamlField, key: &str) -> (flag: Result<Option<bool>, ParseError>)
    ensures
        match flag {
            Ok(f) => optional_flag(field@, key@) == Ok::<Option<bool>, ParseErrorView>(f),
            Err(e) => optional_flag(field@, key@) == Err::<Option<bool>, ParseErrorView>(e@),
        },
{
    match field {
        YamlField::Flag(flag) => Ok(Some(flag)),
        YamlField::Missing | YamlField::Null => Ok(None),
        _ => Err(invalid_key(key, "a boolean")),
    }
}

impl Frontmatter {
    /// The frontmatter that five fields make.
    pub fn from_fields(
        deck: YamlField,
        model: YamlField,
        id: YamlField,
        tags: YamlField,
        html: YamlField,
    ) -> (made: Result<Frontmatter, ParseError>)
        ensures
            match made {
                Ok(f) => frontmatter_from(deck@, model@, id@, tags@, html@) == Ok::<
                    FrontmatterView,
                    ParseErrorView,
                >(f@),
                Err(e) => frontmatter_from(deck@, model@, id@, tags@, html@) == Err::<
                    FrontmatterView,
                    ParseErrorView,
                >(e@),
            },
    {
        let deck = match text_required(deck, "deck") {
            Ok(text) => text,
            Err(e) => {
                return Err(e);
            },
        };
        let model = match text_required(model, "type") {
            Ok(text) => text,
            Err(e) => {
                return Err(e);
            },
        };
        let id = match text_optional(id, "id") {
            Ok(text) => text,
            Err(e) => {
                return Err(e);
            },
        };
        let tags = match text_optional(tags, "tags") {
            Ok(text) => text,
            Err(e) => {
                return Err(e);
            },
        };
        let html = match flag_optional(html, "html") {
            Ok(flag) => flag,
            Err(e) => {
                return Err(e);
            },
        };
        Ok(Frontmatter { deck, model, id, tags, html })
    }

    /// The frontmatter that a text holds.
    pub fn parse(text: &str) -> (made: Result<Frontmatter, ParseError>)
        ensures
            match made {
                Ok(f) => frontmatter_of(yaml_parse(text@)) == Ok::<FrontmatterView, ParseErrorView>(
                    f@,
                ),
                Err(e) => frontmatter_of(yaml_parse(text@)) == Err::<
                    FrontmatterView,
                    ParseErrorView,
                >(e@),
            },
    {
        match yaml_from_str(text) {
            Err(error) => Err(ParseError::BadFrontmatter(yaml_error_message(&error))),
            Ok(document) => Frontmatter::from_fields(
                yaml_field(&document, "deck"),
                yaml_field(&document, "type"),
                yaml_field(&document, "id"),
                yaml_field(&document, "tags"),
                yaml_field(&document, "html"),
            ),
        }
    }
}

/// The deck name and the card that a block's segments make with their
/// frontmatter.
pub fn build_card(
    frontmatter: Frontmatter,
    block: &RawBlock,
    stream: &Option<String>,
    index: usize,
) -> (made: Result<(String, Card), ParseError>)
    requires
        index < usize::MAX,
    ensures
        match made {
            Ok(card) => card_of(frontmatter@, block@, stream.deep_view(), index as nat) == Ok::<
                (Seq<char>, CardView),
                ParseErrorView,
            >((card.0@, card.1@)),
            Err(e) => card_of(frontmatter@, block@, stream.deep_view(), index as nat) == Err::<
                (Seq<char>, CardView),
                ParseErrorView,
            >(e@),
        },
        made matches Ok(card) ==> card.1@.wf(),
{
    let id = match frontmatter.id {
        Some(id) => id,
        None => match stream {
            Some(name) => {
                let mut id = name.clone();
                id.push('#');
                let number = decimal_string(index + 1);
                id.append(number.as_str());
                assert(id@ =~= name@ + seq!['#'] + decimal((index + 1) as nat));
                id
            },
            None => {
                return Err(ParseError::MissingId);
            },
        },
    };
    let ghost bodies = bodies_of(block@).map_values(
        |body: Seq<char>| normalized(body, frontmatter.html),
    );
    let mut fields: Vec<String> = Vec::new();
    fields.push(id);
    let escape = match frontmatter.html {
        Some(flag) => flag,
        None => false,
    };
    let mut i: usize = 1;
    assert(fields.deep_view() =~= seq![id@] + bodies.take(0));
    while i < block.segments.len()
        invariant
            1 <= i,
            i <= block.segments.len() || i == 1,
            escape == (frontmatter.html == Some(true)),
            bodies == bodies_of(block@).map_values(
                |body: Seq<char>| normalized(body, frontmatter.html),
            ),
            fields.deep_view() == seq![id@] + bodies.take(i - 1),
        decreases block.segments.len() - i,
    {
        let ghost before = fields.deep_view();
        let body = if escape {
            plaintext(block.segments[i].clone())
        } else {
            trim(block.segments[i].as_str())
        };
        proof {
            assert(bodies_of(block@)[i - 1] == block.segments@[i as int]@);
            assert(body@ == bodies[i - 1]);
        }
        fields.push(body);
        proof {
            assert(fields.deep_view() =~= before.push(body@));
            assert(bodies.take(i as int) =~= bodies.take(i - 1).push(bodies[i - 1]));
            assert(fields.deep_view() =~= seq![id@] + bodies.take(i as int));
        }
        i += 1;
    }
    proof {
        assert(block@.len() == block.segments.len());
        assert(bodies.len() == bodies_of(block@).len());
        assert(bodies.take(i - 1) =~= bodies);
    }
    Ok((frontmatter.deck, Card { model: frontmatter.model, fields, tags: frontmatter.tags }))
}

/// What a block makes: a card, or the reason why not.
pub fn read_block(block: &RawBlock, stream: &Option<String>, index: usize) -> (made: Result<
    (String, Card),
    ParseError,
>)
    requires
        index < usize::MAX,
    ensures
        match made {
            Ok(card) => block_result(block@, stream.deep_view(), index as nat) == Ok::<
                (Seq<char>, CardView),
                ParseErrorView,
            >((card.0@, card.1@)),
            Err(e) => block_result(block@, stream.deep_view(), index as nat) == Err::<
                (Seq<char>, CardView),
                ParseErrorView,
            >(e@),
        },
        made matches Ok(card) ==> card.1@.wf(),
{
    if block.segments.len() == 0 {
        return Err(ParseError::Empty);
    }
    match Frontmatter::parse(block.segments[0].as_str()) {
        Err(e) => Err(e),
        Ok(frontmatter) => build_card(frontmatter, block, stream, index),
    }
}

/// The cards of a source, each with the name of its deck, or the errors of
/// its blocks that make no card.
pub fn parse(text: &str, id: Option<String>) -> (made: Result<Vec<(String, Card)>, Vec<ParseError>>)
    ensures
        match made {
            Ok(cards) => parsed(text@, id.deep_view()) == Ok::<
                Seq<(Seq<char>, CardView)>,
                Seq<ParseErrorView>,
            >(cards.deep_view()),
            Err(errors) => parsed(text@, id.deep_view()) == Err::<
                Seq<(Seq<char>, CardView)>,
                Seq<ParseErrorView>,
            >(errors.deep_view()),
        },
        made matches Ok(cards) ==> forall|i: int|
            0 <= i < cards.len() ==> (#[trigger] cards@[i]).1@.wf(),
        made matches Err(errors) ==> errors.len() > 0,
{
    let all = blocks(text);
    let ghost bs = all.deep_view();
    let ghost stream = id.deep_view();
    let mut cards: Vec<(String, Card)> = Vec::new();
    let mut errors: Vec<ParseError> = Vec::new();
    let mut i: usize = 0;
    assert(cards.deep_view() =~= cards_in(bs, stream, 0));
    assert(errors.deep_view() =~= errors_in(bs, stream, 0));
    while i < all.len()
        invariant
            i <= all.len(),
            bs == all.deep_view(),
            stream == id.deep_view(),
            cards.deep_view() == cards_in(bs, stream, i as nat),
            errors.deep_view() == errors_in(bs, stream, i as nat),
            forall|k: int| 0 <= k < cards.len() ==> (#[trigger] cards@[k]).1@.wf(),
        decreases all.len() - i,
    {
        assert(bs[i as int] == all@[i as int]@);
        match read_block(&all[i], &id, i) {
            Ok(card) => {
                let ghost before = cards.deep_view();
                cards.push(card);
                assert(cards.deep_view() =~= before.push((card.0@, card.1@)));
            },
            Err(e) => {
                let ghost before = errors.deep_view();
                errors.push(e);
                assert(errors.deep_view() =~= before.push(e@));
            },
        }
        i += 1;
    }
    if errors.len() == 0 {
        Ok(cards)
    } else {
        Err(errors)
    }
}

/// The sources of one run, each with its name if it has one.
pub struct BatchReader {
    inputs: Vec<(Option<String>, String)>,
}

impl View for BatchReader {
    type V = Seq<(Option<Seq<char>>, Seq<char>)>;

    closed spec fn view(&self) -> Seq<(Option<Seq<char>>, Seq<char>)> {
        self.inputs.deep_view()
    }
}

/// The cards of the first `upto` sources, in their order.
pub open spec fn batch_cards(inputs: Seq<(Option<Seq<char>>, Seq<char>)>, upto: nat) -> Seq<
    (Seq<char>, CardView),
>
    decreases upto,
{
    if upto == 0 {
        Seq::empty()
    } else {
        let rest = batch_cards(inputs, (upto - 1) as nat);
        match parsed(inputs[upto - 1].1, inputs[upto - 1].0) {
            Ok(cards) => rest + cards,
            Err(_) => rest,
        }
    }
}

/// The name under which a source's errors are told.
pub open spec fn told_name(stream: Option<Seq<char>>) -> Seq<char> {
    match stream {
        Some(name) => name,
        None => Seq::empty(),
    }
}

/// The errors of the first `upto` sources, each as its message and the name
/// of its source, in their order.
pub open spec fn batch_errors(inputs: Seq<(Option<Seq<char>>, Seq<char>)>, upto: nat) -> Seq<
    (Seq<char>, Seq<char>),
>
    decreases upto,
{
    if upto == 0 {
        Seq::empty()
    } else {
        let rest = batch_errors(inputs, (upto - 1) as nat);
        match parsed(inputs[upto - 1].1, inputs[upto - 1].0) {
            Ok(_) => rest,
            Err(errors) => rest + errors.map_values(
                |e: ParseErrorView| (e.message(), told_name(inputs[upto - 1].0)),
            ),
        }
    }
}

/// What a batch makes: the decks of all its cards if no source has an
/// error, else every error of every source.
pub open spec fn batch_parsed(inputs: Seq<(Option<Seq<char>>, Seq<char>)>) -> Result<
    Seq<DeckView>,
    Seq<(Seq<char>, Seq<char>)>,
> {
    if batch_errors(inputs, inputs.len()).len() == 0 {
        Ok(grouped(batch_cards(inputs, inputs.len())))
    } else {
        Err(batch_errors(inputs, inputs.len()))
    }
}

impl BatchReader {
    /// A batch without sources.
    pub fn new() -> (reader: BatchReader)
        ensures
            reader@.len() == 0,
    {
        let reader = BatchReader { inputs: Vec::new() };
        assert(reader@ =~= Seq::empty());
        reader
    }

    /// One more source at the end of the batch.
    pub fn push(&mut self, id: Option<String>, text: String)
        ensures
            final(self)@ == old(self)@.push((id.deep_view(), text@)),
    {
        let ghost before = self.inputs.deep_view();
        self.inputs.push((id, text));
        assert(self.inputs.deep_view() =~= before.push((id.deep_view(), text@)));
    }

    /// A batch of named sources held in memory.
    pub fn from_string(inputs: Vec<(String, &str)>) -> (reader: BatchReader)
        ensures
            reader@.len() == inputs.len(),
            forall|i: int|
                0 <= i < inputs.len() ==> (#[trigger] reader@[i]) == (
                    Some(inputs@[i].0@),
                    inputs@[i].1@,
                ),
    {
        let mut reader = BatchReader::new();
        let mut i: usize = 0;
        while i < inputs.len()
            invariant
                i <= inputs.len(),
                reader@.len() == i,
                forall|k: int|
                    0 <= k < i ==> (#[trigger] reader@[k]) == (Some(inputs@[k].0@), inputs@[k].1@),
            decreases inputs.len() - i,
        {
            let ghost before = reader@;
            reader.push(Some(inputs[i].0.clone()), inputs[i].1.to_owned());
            assert forall|k: int| 0 <= k < i + 1 implies (#[trigger] reader@[k]) == (
                Some(inputs@[k].0@),
                inputs@[k].1@,
            ) by {
                if k < i {
                    assert(reader@[k] == before[k]);
                }
            }
            i += 1;
        }
        reader
    }

    /// The decks of the batch, or the errors of its sources.
    pub fn parse(self) -> (made: Result<Vec<Deck>, Vec<(String, String)>>)
        ensures
            match made {
                Ok(decks) => batch_parsed(self@) == Ok::<
                    Seq<DeckView>,
                    Seq<(Seq<char>, Seq<char>)>,
                >(decks.deep_view()),
                Err(errors) => batch_parsed(self@) == Err::<
                    Seq<DeckView>,
                    Seq<(Seq<char>, Seq<char>)>,
                >(errors.deep_view()),
            },
            made matches Ok(decks) ==> forall|d: int|
                0 <= d < decks.len() ==> (#[trigger] decks.deep_view()[d]).wf(),
    {
        let ghost all = self@;
        let mut cards: Vec<(String, Card)> = Vec::new();
        let mut errors: Vec<(String, String)> = Vec::new();
        let mut i: usize = 0;
        assert(cards.deep_view() =~= batch_cards(all, 0));
        assert(errors.deep_view() =~= batch_errors(all, 0));
        while i < self.inputs.len()
            invariant
                i <= self.inputs.len(),
                all == self.inputs.deep_view(),
                cards.deep_view() == batch_cards(all, i as nat),
                errors.deep_view() == batch_errors(all, i as nat),
                forall|k: int| 0 <= k < cards.len() ==> (#[trigger] cards@[k]).1@.wf(),
            decreases self.inputs.len() - i,
        {
            let input = &self.inputs[i];
            assert(all[i as int] == (input.0.deep_view(), input.1@));
            match parse(input.1.as_str(), input.0.clone()) {
                Ok(mut found) => {
                    let ghost before = cards.deep_view();
                    let ghost more = found.deep_view();
                    assert(forall|k: int|
                        0 <= k < found.len() ==> (#[trigger] found@[k]).1@.wf());
                    let ghost old_cards = cards@;
                    let ghost old_found = found@;
                    cards.append(&mut found);
                    proof {
                        assert(cards@ == old_cards + old_found);
                        assert(cards.deep_view() =~= before + more);
                        assert forall|k: int| 0 <= k < cards.len() implies (
                        #[trigger] cards@[k]).1@.wf() by {
                            if k >= old_cards.len() {
                                assert(cards@[k] == old_found[k - old_cards.len()]);
                            }
                        }
                    }
                },
                Err(found) => {
                    let name = match &input.0 {
                        Some(name) => name.clone(),
                        None => String::new(),
                    };
                    let ghost before = errors.deep_view();
                    let ghost told = found.deep_view().map_values(
                        |e: ParseErrorView| (e.message(), told_name(all[i as int].0)),
                    );
                    let mut k: usize = 0;
                    assert(before + told.take(0) =~= before);
                    while k < found.len()
                        invariant
                            k <= found.len(),
                            name@ == told_name(all[i as int].0),
                            told == found.deep_view().map_values(
                                |e: ParseErrorView| (e.message(), told_name(all[i as int].0)),
                            ),
                            errors.deep_view() == before + told.take(k as int),
                        decreases found.len() - k,
                    {
                        let ghost so_far = errors.deep_view();
                        let message = found[k].message();
                        errors.push((message, name.clone()));
                        proof {
                            assert(told[k as int] == (found@[k as int]@.message(), name@));
                            assert(errors.deep_view() =~= so_far.push((message@, name@)));
                            assert(told.take(k as int + 1) =~= told.take(k as int).push(
                                told[k as int],
                            ));
                            assert(errors.deep_view() =~= before + told.take(k as int + 1));
                        }
                        k += 1;
                    }
                    assert(told.take(k as int) =~= told);
                },
            }
            i += 1;
        }
        if errors.len() == 0 {
            proof {
                assert forall|k: int| 0 <= k < cards.deep_view().len() implies (
                #[trigger] cards.deep_view()[k]).1.wf() by {
                    assert(cards.deep_view()[k].1 == cards@[k].1@);
                }
                lemma_grouped_cards_are_whole(cards.deep_view());
            }
            Ok(group(&cards))
        } else {
            Err(errors)
        }
    }
}

} // verus!
