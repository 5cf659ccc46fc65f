//! Pieces of script handed to the page.

use crate::api::hex_digit;
use crate::strings::{decimal_signed, joined, push_text, signed_digits};
use vstd::prelude::*;

verus! {

/// A character inside a JSON string.
pub open spec fn escaped(c: char) -> Seq<char> {
    if c == '"' || c == '\\' {
        seq!['\\', c]
    } else if c == '\u{8}' {
        seq!['\\', 'b']
    } else if c == '\t' {
        seq!['\\', 't']
    } else if c == '\n' {
        seq!['\\', 'n']
    } else if c == '\u{c}' {
        seq!['\\', 'f']
    } else if c == '\r' {
        seq!['\\', 'r']
    } else if 32 > c as int {
        seq!['\\', 'u', '0', '0', hex_digit(c as int / 16), hex_digit(c as int % 16)]
    } else {
        seq![c]
    }
}

/// A text inside a JSON string.
pub open spec fn all_escaped(text: Seq<char>) -> Seq<char>
    decreases text.len(),
{
    if text.len() == 0 {
        Seq::empty()
    } else {
        all_escaped(text.drop_last()) + escaped(text.last())
    }
}

/// A text as a JSON string.
pub open spec fn json_string(text: Seq<char>) -> Seq<char> {
    seq!['"'] + all_escaped(text) + seq!['"']
}

/// Calls `serde_json::to_string` on a text. Any text has a JSON form, which is
/// the text in quotes: a quote, a backslash and the controls below the space
/// are escaped, by their letter where they have one and by two hexadecimal
/// digits where they do not, and nothing else is.
#[verifier::external_body]
pub(crate) fn quoted(text: &str) -> (written: String)
    ensures
        written@ == json_string(text@),
{
    serde_json::to_string(text).unwrap_or_default()
}

/// Calls a handle of the page, where it is there.
pub open spec fn called(handle: Seq<char>, arguments: Seq<char>) -> Seq<char> {
    "window."@ + handle + " && window."@ + handle + "("@ + arguments + ");"@
}

/// A script that calls a handle of the page. Guarded, because a first click
/// can land before the page has installed its handles.
pub fn call(handle: &str, arguments: &str) -> (script: String)
    ensures
        script@ == called(handle@, arguments@),
{
    let mut script = joined("window.", handle);
    push_text(&mut script, " && window.");
    push_text(&mut script, handle);
    push_text(&mut script, "(");
    push_text(&mut script, arguments);
    push_text(&mut script, ");");
    script
}

/// Numbers with commas between them.
pub open spec fn listed(ids: Seq<i64>) -> Seq<char>
    decreases ids.len(),
{
    if ids.len() == 0 {
        Seq::empty()
    } else if ids.len() == 1 {
        signed_digits(ids[0] as int)
    } else {
        listed(ids.drop_last()) + ","@ + signed_digits(ids.last() as int)
    }
}

/// Numbers as a list in a script.
pub fn id_list(ids: &[i64]) -> (text: String)
    ensures
        text@ == "["@ + listed(ids@) + "]"@,
{
    let mut text = "[".to_owned();
    let mut i: usize = 0;
    assert(ids@.take(0) =~= Seq::empty());
    assert("["@ + listed(ids@.take(0)) =~= "["@);
    while i < ids.len()
        invariant
            i <= ids@.len(),
            text@ == "["@ + listed(ids@.take(i as int)),
        decreases ids@.len() - i,
    {
        let ghost earlier = text@;
        assert(ids@.take(i + 1).drop_last() =~= ids@.take(i as int));
        if i > 0 {
            push_text(&mut text, ",");
        }
        push_text(&mut text, decimal_signed(ids[i]).as_str());
        assert(text@ =~= "["@ + listed(ids@.take(i + 1)));
        i = i + 1;
    }
    assert(ids@.take(ids@.len() as int) =~= ids@);
    push_text(&mut text, "]");
    text
}

/// An id, or null.
pub open spec fn id_or_null(id: Option<i64>) -> Seq<char> {
    match id {
        Some(id) => signed_digits(id as int),
        None => "null"@,
    }
}

pub fn nullable_id(id: Option<i64>) -> (text: String)
    ensures
        text@ == id_or_null(id),
{
    match id {
        Some(id) => decimal_signed(id),
        None => "null".to_owned(),
    }
}

} // verus!
