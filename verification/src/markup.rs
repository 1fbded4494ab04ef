//! Field text made fit for display as hypertext.

use vstd::prelude::*;
use crate::text::{to_chars, trim, trimmed};

verus! {

/// What stands for `c` in hypertext: the ampersand and the two angle
/// brackets are written as entities, every other character as itself.
pub open spec fn escaped_char(c: char) -> Seq<char> {
    if c == '&' {
        seq!['&', 'a', 'm', 'p', ';']
    } else if c == '<' {
        seq!['&', 'l', 't', ';']
    } else if c == '>' {
        seq!['&', 'g', 't', ';']
    } else {
        seq![c]
    }
}

/// `text` with each character written as it stands in hypertext.
pub open spec fn escaped(text: Seq<char>) -> Seq<char>
    decreases text.len(),
{
    if text.len() == 0 {
        Seq::empty()
    } else {
        escaped(text.drop_last()) + escaped_char(text.last())
    }
}

/// What stands for `c` where line feeds become line-break marks.
pub open spec fn broken_char(c: char) -> Seq<char> {
    if c == '\n' {
        seq!['<', 'b', 'r', '/', '>']
    } else {
        seq![c]
    }
}

/// `text` with a line-break mark in place of each line feed.
pub open spec fn with_breaks(text: Seq<char>) -> Seq<char>
    decreases text.len(),
{
    if text.len() == 0 {
        Seq::empty()
    } else {
        with_breaks(text.drop_last()) + broken_char(text.last())
    }
}

/// A field as plain text shown in hypertext: trimmed, escaped, and with
/// line-break marks for its line feeds.
pub open spec fn plain(text: Seq<char>) -> Seq<char> {
    with_breaks(escaped(trimmed(text)))
}

/// `html_escape::encode_text`: the text with `&`, `<` and `>` replaced by
/// `&amp;`, `&lt;` and `&gt;`, and every other character kept.
#[verifier::external_body]
pub(crate) fn encode_text(text: &str) -> (encoded: String)
    ensures
        encoded@ == escaped(text@),
{
    html_escape::encode_text(text).into_owned()
}

/// `text` with a line-break mark in place of each line feed.
pub fn break_lines(text: &str) -> (out: String)
    ensures
        out@ == with_breaks(text@),
{
    let chars = to_chars(text);
    let mut out = String::new();
    let mut i: usize = 0;
    assert(chars@.take(0) =~= Seq::<char>::empty());
    while i < chars.len()
        invariant
            i <= chars.len(),
            chars@ == text@,
            out@ == with_breaks(chars@.take(i as int)),
        decreases chars.len() - i,
    {
        let ghost before = out@;
        proof {
            assert(chars@.take(i as int + 1).drop_last() =~= chars@.take(i as int));
        }
        let c = chars[i];
        if c == '\n' {
            out.push('<');
            out.push('b');
            out.push('r');
            out.push('/');
            out.push('>');
            assert(out@ =~= before + seq!['<', 'b', 'r', '/', '>']);
        } else {
            out.push(c);
            assert(out@ =~= before + seq![c]);
        }
        i += 1;
    }
    assert(chars@.take(i as int) =~= chars@);
    out
}

/// A field as plain text shown in hypertext.
pub fn plaintext(text: String) -> (out: String)
    ensures
        out@ == plain(text@),
{
    let stripped = trim(text.as_str());
    let encoded = encode_text(stripped.as_str());
    break_lines(encoded.as_str())
}

} // verus!
