//! The YAML reader that frontmatter is read with.

use vstd::prelude::*;

verus! {

/// A document as the YAML reader hands it out.
#[verifier::external_type_specification]
#[verifier::external_body]
pub struct ExYamlValue(serde_yaml::Value);

/// What the YAML reader hands out where it cannot read a text.
#[verifier::external_type_specification]
#[verifier::external_body]
pub struct ExYamlError(serde_yaml::Error);

/// What a document holds under one key.
#[derive(Debug, PartialEq)]
pub enum YamlField {
    /// The document is no mapping, or the mapping lacks the key.
    Missing,
    /// The key stands with no value.
    Null,
    Flag(bool),
    Text(String),
    /// A number, a sequence or a mapping.
    Other,
}

pub enum YamlFieldView {
    Missing,
    Null,
    Flag(bool),
    Text(Seq<char>),
    Other,
}

impl View for YamlField {
    type V = YamlFieldView;

    open spec fn view(&self) -> YamlFieldView {
        match *self {
            YamlField::Missing => YamlFieldView::Missing,
            YamlField::Null => YamlFieldView::Null,
            YamlField::Flag(b) => YamlFieldView::Flag(b),
            YamlField::Text(s) => YamlFieldView::Text(s@),
            YamlField::Other => YamlFieldView::Other,
        }
    }
}

/// What the YAML reader makes of a text: what the document holds under its
/// keys, or the message of the reader's error.
pub uninterp spec fn yaml_parse(text: Seq<char>) -> Result<
    Map<Seq<char>, YamlFieldView>,
    Seq<char>,
>;

/// What a document holds under the keys of its top level that are strings; a
/// document that is no mapping holds nothing.
pub uninterp spec fn yaml_entries(document: serde_yaml::Value) -> Map<Seq<char>, YamlFieldView>;

/// The message of a reader's error.
pub uninterp spec fn yaml_error_text(error: serde_yaml::Error) -> Seq<char>;

/// What `entries` hold under `key`.
pub open spec fn field_at(entries: Map<Seq<char>, YamlFieldView>, key: Seq<char>) -> YamlFieldView {
    if entries.dom().contains(key) {
        entries[key]
    } else {
        YamlFieldView::Missing
    }
}

/// `serde_yaml::from_str`, reading one document of any shape. The reader's
/// answer depends on the text alone; it is given the name [`yaml_parse`],
/// with a document standing for what it holds and an error for its message.
#[verifier::external_body]
pub(crate) fn yaml_from_str(text: &str) -> (read: Result<serde_yaml::Value, serde_yaml::Error>)
    ensures
        match read {
            Ok(document) => yaml_parse(text@) == Ok::<Map<Seq<char>, YamlFieldView>, Seq<char>>(
                yaml_entries(document),
            ),
            Err(error) => yaml_parse(text@) == Err::<Map<Seq<char>, YamlFieldView>, Seq<char>>(
                yaml_error_text(error),
            ),
        },
{
    serde_yaml::from_str::<serde_yaml::Value>(text)
}

/// `serde_yaml::Value::get` with a string key: the value under the key where
/// the document is a mapping that has the key, told apart by its kind.
#[verifier::external_body]
pub(crate) fn yaml_field(document: &serde_yaml::Value, key: &str) -> (field: YamlField)
    ensures
        field@ == field_at(yaml_entries(*document), key@),
{
    match document.get(key) {
        None => YamlField::Missing,
        Some(serde_yaml::Value::Null) => YamlField::Null,
        Some(serde_yaml::Value::Bool(flag)) => YamlField::Flag(*flag),
        Some(serde_yaml::Value::String(text)) => YamlField::Text(text.clone()),
        Some(_) => YamlField::Other,
    }
}

/// The message of a reader's error, as its `Display` writes it.
#[verifier::external_body]
pub(crate) fn yaml_error_message(error: &serde_yaml::Error) -> (message: String)
    ensures
        message@ == yaml_error_text(*error),
{
    error.to_string()
}

} // verus!
