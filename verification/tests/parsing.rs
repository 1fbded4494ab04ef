use anc::cards::Card;
use anc::grouping::group;
use anc::markup::{break_lines, plaintext};
use anc::parsing::{blocks, parse, read_block, BatchReader, Frontmatter, ParseError, RawBlock};
use anc::text::{decimal_string, split_lines, to_chars, trim};
use anc::yaml::YamlField;

const BASIC: &str = "---\n\
deck: example\n\
type: basic\n\
tags: example2 example3\n\
---\n\
Question\n\
---\n\
Answer";

fn card(model: &str, fields: &[&str], tags: Option<&str>) -> Card {
    Card {
        model: model.to_string(),
        fields: fields.iter().map(|f| f.to_string()).collect(),
        tags: tags.map(|t| t.to_string()),
    }
}

#[test]
fn basic() {
    let result = parse(BASIC, Some("test_files/good/basic.qz".to_string()));

    assert!(result.is_ok(), "Errors: {:?}", result.unwrap_err());
    let mut output = result.unwrap();
    assert!(output.len() == 1, "More than one card found");

    let (deck, card) = output.remove(0);
    assert_eq!(deck, "example");
    assert_eq!(
        card,
        Card {
            model: "basic".to_string(),
            fields: vec![
                "test_files/good/basic.qz#1".to_string(),
                "Question".to_string(),
                "Answer".to_string()
            ],
            tags: Some("example2 example3".to_string())
        }
    )
}

#[test]
fn bad_frontmatter() {
    let result = parse("---\ndeck: [unclosed\n---\nQuestion\n", Some("bad".to_string()));

    assert!(result.is_err(), "Bad frontmatter is allowed");
}

#[test]
fn lines_end_at_line_feeds() {
    let lines = split_lines(&to_chars("a\r\nb\nc\r"));
    let lines: Vec<String> = lines.iter().map(|l| l.iter().collect()).collect();
    assert_eq!(lines, vec!["a".to_string(), "b".to_string(), "c\r".to_string()]);
    assert_eq!(split_lines(&to_chars("")).len(), 0);
    assert_eq!(split_lines(&to_chars("x\n")).len(), 1);
    assert_eq!(split_lines(&to_chars("\n\n")).len(), 2);
}

#[test]
fn trim_drops_white_space_around() {
    assert_eq!(trim("  \t a b \u{a0}\n"), "a b");
    assert_eq!(trim(""), "");
    assert_eq!(trim(" \n "), "");
    assert_eq!(trim("x"), "x");
}

#[test]
fn decimal_writes_numbers() {
    assert_eq!(decimal_string(0), "0");
    assert_eq!(decimal_string(7), "7");
    assert_eq!(decimal_string(10), "10");
    assert_eq!(decimal_string(1234567890), "1234567890");
}

#[test]
fn blocks_follow_the_rules() {
    let found = blocks(BASIC);
    assert_eq!(
        found,
        vec![RawBlock {
            segments: vec![
                "deck: example\ntype: basic\ntags: example2 example3\n".to_string(),
                "Question\n".to_string(),
                "Answer\n".to_string(),
            ]
        }]
    );
}

#[test]
fn a_block_may_start_without_a_rule() {
    let found = blocks("deck: a\ntype: b\n---\nQ\n");
    assert_eq!(
        found,
        vec![RawBlock { segments: vec!["deck: a\ntype: b\n".to_string(), "Q\n".to_string()] }]
    );
}

#[test]
fn rules_may_stand_in_white_space() {
    let found = blocks("  ---  \nx\n\t###\n---\ny");
    assert_eq!(
        found,
        vec![
            RawBlock { segments: vec!["x\n".to_string()] },
            RawBlock { segments: vec!["y\n".to_string()] },
        ]
    );
}

#[test]
fn an_empty_source_is_one_empty_block() {
    assert_eq!(blocks(""), vec![RawBlock { segments: vec![] }]);
    let result = parse("", Some("empty.qz".to_string()));
    assert_eq!(result, Err(vec![ParseError::Empty]));
    assert_eq!(ParseError::Empty.message(), "empty card");
}

#[test]
fn a_trailing_block_rule_leaves_an_empty_block() {
    let source = format!("{}\n###\n", BASIC);
    let found = blocks(&source);
    assert_eq!(found.len(), 2);
    assert_eq!(found[1], RawBlock { segments: vec![] });
    assert_eq!(parse(&source, Some("x".to_string())), Err(vec![ParseError::Empty]));
}

#[test]
fn empty_segments_are_kept() {
    let found = blocks("---\n---\n---");
    assert_eq!(
        found,
        vec![RawBlock { segments: vec!["".to_string(), "".to_string(), "".to_string()] }]
    );
}

#[test]
fn identifiers_count_blocks_from_one() {
    let source = "---\ndeck: d\ntype: m\n---\none\n###\n---\ndeck: d\ntype: m\nid: mine\n---\ntwo\n###\n---\ndeck: e\ntype: m\n---\nthree\n";
    let cards = parse(source, Some("notes.qz".to_string())).unwrap();
    assert_eq!(
        cards,
        vec![
            ("d".to_string(), card("m", &["notes.qz#1", "one"], None)),
            ("d".to_string(), card("m", &["mine", "two"], None)),
            ("e".to_string(), card("m", &["notes.qz#3", "three"], None)),
        ]
    );
}

#[test]
fn a_block_of_frontmatter_alone_is_a_card() {
    let cards = parse("---\ndeck: d\ntype: m\n", Some("f".to_string())).unwrap();
    assert_eq!(cards, vec![("d".to_string(), card("m", &["f#1"], None))]);
}

#[test]
fn an_unnamed_source_needs_identifiers() {
    let source = "---\ndeck: d\ntype: m\n---\nbody\n";
    assert_eq!(parse(source, None), Err(vec![ParseError::MissingId]));
    assert_eq!(
        ParseError::MissingId.message(),
        "An id is required as part of the frontmatter"
    );
    let named = "---\ndeck: d\ntype: m\nid: k\n---\nbody\n";
    assert_eq!(parse(named, None), Ok(vec![("d".to_string(), card("m", &["k", "body"], None))]));
}

#[test]
fn every_bad_block_is_told() {
    let source = "---\ntype: m\n---\na\n###\n---\ndeck: d\ntype: m\n---\nb\n###\n---\ndeck: d\n---\nc\n";
    let errors = parse(source, Some("s".to_string())).unwrap_err();
    assert_eq!(
        errors,
        vec![
            ParseError::BadFrontmatter("missing field `deck`".to_string()),
            ParseError::BadFrontmatter("missing field `type`".to_string()),
        ]
    );
    assert_eq!(errors[0].message(), "error parsing frontmatter: missing field `deck`");
}

#[test]
fn frontmatter_is_read_by_the_yaml_reader() {
    let made = Frontmatter::parse("deck: example\ntype: basic\nid: \"7\"\ntags: a b\nhtml: true\n");
    assert_eq!(
        made,
        Ok(Frontmatter {
            deck: "example".to_string(),
            model: "basic".to_string(),
            id: Some("7".to_string()),
            tags: Some("a b".to_string()),
            html: Some(true),
        })
    );
    let bare = Frontmatter::parse("type: basic\ndeck: example\nextra: [1, 2]\nid:\n");
    assert_eq!(
        bare,
        Ok(Frontmatter {
            deck: "example".to_string(),
            model: "basic".to_string(),
            id: None,
            tags: None,
            html: None,
        })
    );
}

#[test]
fn frontmatter_that_is_no_mapping_lacks_its_keys() {
    assert_eq!(
        Frontmatter::parse("just text"),
        Err(ParseError::BadFrontmatter("missing field `deck`".to_string()))
    );
    assert_eq!(
        Frontmatter::parse("- a\n- b\n"),
        Err(ParseError::BadFrontmatter("missing field `deck`".to_string()))
    );
}

#[test]
fn empty_frontmatter_is_the_readers_error() {
    assert_eq!(
        Frontmatter::parse(""),
        Err(ParseError::BadFrontmatter("EOF while parsing a value".to_string()))
    );
    assert_eq!(
        parse("---\n---\nbody", Some("s".to_string())),
        Err(vec![ParseError::BadFrontmatter("EOF while parsing a value".to_string())])
    );
}

#[test]
fn unreadable_frontmatter_carries_the_readers_message() {
    let text = "deck: [unclosed";
    match Frontmatter::parse(text) {
        Err(ParseError::BadFrontmatter(message)) => {
            assert!(!message.is_empty());
            assert_ne!(message, text);
            assert!(!message.starts_with("missing field"));
        }
        other => panic!("{:?}", other),
    }
}

#[test]
fn frontmatter_fields_are_held_to_their_kinds() {
    let text = |s: &str| YamlField::Text(s.to_string());
    assert_eq!(
        Frontmatter::from_fields(
            YamlField::Missing,
            text("m"),
            YamlField::Missing,
            YamlField::Missing,
            YamlField::Missing
        ),
        Err(ParseError::BadFrontmatter("missing field `deck`".to_string()))
    );
    assert_eq!(
        Frontmatter::from_fields(
            text("d"),
            YamlField::Null,
            YamlField::Missing,
            YamlField::Missing,
            YamlField::Missing
        ),
        Err(ParseError::BadFrontmatter("missing field `type`".to_string()))
    );
    assert_eq!(
        Frontmatter::from_fields(
            YamlField::Other,
            text("m"),
            YamlField::Missing,
            YamlField::Missing,
            YamlField::Missing
        ),
        Err(ParseError::BadFrontmatter("invalid type for `deck`: expected a string".to_string()))
    );
    assert_eq!(
        Frontmatter::from_fields(
            text("d"),
            text("m"),
            YamlField::Flag(true),
            YamlField::Missing,
            YamlField::Missing
        ),
        Err(ParseError::BadFrontmatter("invalid type for `id`: expected a string".to_string()))
    );
    assert_eq!(
        Frontmatter::from_fields(
            text("d"),
            text("m"),
            YamlField::Null,
            YamlField::Other,
            YamlField::Missing
        ),
        Err(ParseError::BadFrontmatter("invalid type for `tags`: expected a string".to_string()))
    );
    assert_eq!(
        Frontmatter::from_fields(text("d"), text("m"), text("i"), text("t"), text("yes")),
        Err(ParseError::BadFrontmatter("invalid type for `html`: expected a boolean".to_string()))
    );
    assert_eq!(
        Frontmatter::from_fields(text("d"), text("m"), text("i"), text("t"), YamlField::Flag(false)),
        Ok(Frontmatter {
            deck: "d".to_string(),
            model: "m".to_string(),
            id: Some("i".to_string()),
            tags: Some("t".to_string()),
            html: Some(false),
        })
    );
}

#[test]
fn numbers_are_no_strings() {
    assert_eq!(
        Frontmatter::parse("deck: 12\ntype: basic\n"),
        Err(ParseError::BadFrontmatter("invalid type for `deck`: expected a string".to_string()))
    );
}

#[test]
fn html_fields_are_escaped_and_broken() {
    assert_eq!(plaintext("  a < b & c > d\nnext  \n".to_string()), "a &lt; b &amp; c &gt; d<br/>next");
    assert_eq!(break_lines("x\n\ny"), "x<br/><br/>y");
    let source = "---\ndeck: d\ntype: m\nhtml: true\n---\n1 < 2\n3\n---\n <b> \n";
    let cards = parse(source, Some("h".to_string())).unwrap();
    assert_eq!(cards[0].1.fields, vec!["h#1", "1 &lt; 2<br/>3", "&lt;b&gt;"]);
    let verbatim = "---\ndeck: d\ntype: m\nhtml: false\n---\n1 < 2\n3\n";
    let cards = parse(verbatim, Some("h".to_string())).unwrap();
    assert_eq!(cards[0].1.fields, vec!["h#1", "1 < 2\n3"]);
}

#[test]
fn read_block_refuses_a_block_without_segments() {
    let empty = RawBlock { segments: vec![] };
    assert_eq!(read_block(&empty, &Some("s".to_string()), 0), Err(ParseError::Empty));
}

#[test]
fn cards_are_grouped_by_first_meeting() {
    let cards = vec![
        ("b".to_string(), card("x", &["1"], None)),
        ("a".to_string(), card("y", &["2"], None)),
        ("b".to_string(), card("y", &["3"], None)),
        ("a".to_string(), card("y", &["4"], None)),
        ("b".to_string(), card("x", &["5"], None)),
    ];
    let decks = group(&cards);
    assert_eq!(decks.len(), 2);
    assert_eq!(decks[0].name, "b");
    assert_eq!(decks[0].groups.len(), 2);
    assert_eq!(decks[0].groups[0].model, "x");
    assert_eq!(decks[0].groups[0].cards, vec![card("x", &["1"], None), card("x", &["5"], None)]);
    assert_eq!(decks[0].groups[1].model, "y");
    assert_eq!(decks[0].groups[1].cards, vec![card("y", &["3"], None)]);
    assert_eq!(decks[1].name, "a");
    assert_eq!(decks[1].groups.len(), 1);
    assert_eq!(decks[1].groups[0].cards, vec![card("y", &["2"], None), card("y", &["4"], None)]);
    assert_eq!(group(&vec![]).len(), 0);
}

#[test]
fn a_batch_gathers_cards_or_errors() {
    let cloze = "---\ndeck: example\ntype: cloze\n---\nCloze {{c1::question}}";
    let decks = BatchReader::from_string(vec![
        ("basic.qz".to_string(), BASIC),
        ("cloze.qz".to_string(), cloze),
    ])
    .parse()
    .unwrap();
    assert_eq!(decks.len(), 1);
    assert_eq!(decks[0].name, "example");
    assert_eq!(decks[0].groups.len(), 2);
    assert_eq!(decks[0].groups[0].model, "basic");
    assert_eq!(decks[0].groups[0].cards[0].fields[0], "basic.qz#1");
    assert_eq!(decks[0].groups[1].model, "cloze");
    assert_eq!(decks[0].groups[1].cards[0].fields, vec!["cloze.qz#1", "Cloze {{c1::question}}"]);

    let errors = BatchReader::from_string(vec![
        ("good.qz".to_string(), BASIC),
        ("bad.qz".to_string(), "---\ndeck: example\n---\nQ"),
        ("worse.qz".to_string(), ""),
    ])
    .parse()
    .unwrap_err();
    assert_eq!(
        errors,
        vec![
            ("error parsing frontmatter: missing field `type`".to_string(), "bad.qz".to_string()),
            ("empty card".to_string(), "worse.qz".to_string()),
        ]
    );
}

#[test]
fn a_batch_takes_unnamed_sources() {
    let mut reader = BatchReader::new();
    reader.push(None, "---\ndeck: d\ntype: m\nid: one\n---\nbody".to_string());
    let decks = reader.parse().unwrap();
    assert_eq!(decks[0].groups[0].cards[0].fields, vec!["one", "body"]);

    let mut reader = BatchReader::new();
    reader.push(None, "---\ndeck: d\ntype: m\n---\nbody".to_string());
    assert_eq!(
        reader.parse().unwrap_err(),
        vec![("An id is required as part of the frontmatter".to_string(), "".to_string())]
    );
}
