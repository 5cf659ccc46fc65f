//! What the text tower needs on disk, and what it is fed.
//!
//! Only the text tower is carried; the audio tower runs during analysis.

use crate::stages::says;
use crate::strings::{joined, push_text};
use crate::tokenizer::{build_of, built, encode, objection, unusable, Build};
use crate::wiring::{join_path, under};
use tokenizers::Tokenizer;
use vstd::prelude::*;

verus! {

/// The tower itself.
pub const ONNX_NAME: &'static str = "clap_text.onnx";

/// What turns a phrase into the numbers the tower reads.
pub const TOKENIZER_NAME: &'static str = "clap_tokenizer.json";

/// Where the two files of the text tower are. Nothing where either has not
/// been exported, so that text steering can be left out rather than refused.
///
/// `is_file` is asked whether a path names a file.
pub fn model_at<F: Fn(&str) -> bool>(data_dir: &str, is_file: F) -> (model: Option<(String, String)>)
    requires
        forall|candidate: &str| #[trigger] is_file.requires((candidate,)),
    ensures
        match model {
            Some(paths) => {
                &&& paths.0@ == under(data_dir@, ONNX_NAME@)
                &&& paths.1@ == under(data_dir@, TOKENIZER_NAME@)
                &&& says(is_file, paths.0@, true)
                &&& says(is_file, paths.1@, true)
            },
            None => says(is_file, under(data_dir@, ONNX_NAME@), false) || says(
                is_file,
                under(data_dir@, TOKENIZER_NAME@),
                false,
            ),
        },
{
    let onnx = join_path(data_dir, ONNX_NAME);
    let tokenizer = join_path(data_dir, TOKENIZER_NAME);
    if !is_file(onnx.as_str()) || !is_file(tokenizer.as_str()) {
        return None;
    }
    Some((onnx, tokenizer))
}

/// A text in quotes, the way std shows it for debugging.
pub uninterp spec fn debug_of(text: Seq<char>) -> Seq<char>;

/// Shows a text through the `Debug` of `str`: in quotes, with the escapes that
/// std chooses, which are not spelled out here.
#[verifier::external_body]
fn debug_text(text: &str) -> (shown: String)
    ensures
        shown@ == debug_of(text@),
{
    format!("{text:?}")
}

/// A phrase as the tower reads it: one row of ids, and one of the mask that
/// says which of them count.
pub struct Tokens {
    pub shape: [i64; 2],
    pub ids: Vec<i64>,
    pub mask: Vec<i64>,
}

/// `wide` holds the same numbers as `narrow`.
pub open spec fn widened(narrow: Seq<u32>, wide: Seq<i64>) -> bool {
    wide =~= narrow.map_values(|n: u32| n as i64)
}

fn widen(narrow: &[u32]) -> (wide: Vec<i64>)
    ensures
        widened(narrow@, wide@),
{
    let mut wide: Vec<i64> = Vec::new();
    let mut i: usize = 0;
    while i < narrow.len()
        invariant
            i <= narrow@.len(),
            wide@.len() == i,
            forall|k: int| 0 <= k < i ==> wide@[k] == narrow@[k] as i64,
        decreases narrow@.len() - i,
    {
        wide.push(narrow[i] as i64);
        i += 1;
    }
    wide
}

/// What the tower is fed of a phrase's ids and mask. There is one phrase, so
/// one row, as long as it has ids.
pub fn tokens_of(ids: &[u32], mask: &[u32]) -> (tokens: Tokens)
    ensures
        tokens.shape@ == seq![1i64, ids@.len() as i64],
        widened(ids@, tokens.ids@),
        widened(mask@, tokens.mask@),
{
    let shape: [i64; 2] = [1, ids.len() as i64];
    assert(shape@ =~= seq![1i64, ids@.len() as i64]);
    Tokens { shape, ids: widen(ids), mask: widen(mask) }
}

/// What is said of a phrase that cannot be read.
pub open spec fn unreadable(text: Seq<char>, why: Seq<char>) -> Seq<char> {
    "tokenising "@ + debug_of(text) + ": "@ + why
}

/// Says why a phrase cannot be read.
pub fn refusal(text: &str, why: &str) -> (message: String)
    ensures
        message@ == unreadable(text@, why@),
{
    let mut message = joined("tokenising ", debug_text(text).as_str());
    push_text(&mut message, ": ");
    push_text(&mut message, why);
    message
}

/// What reading a phrase comes to, given what the tokenizer made of it.
pub open spec fn read_as(
    text: Seq<char>,
    encoded: Result<(Vec<u32>, Vec<u32>), String>,
    tokens: Result<Tokens, String>,
) -> bool {
    match (encoded, tokens) {
        (Ok((ids, mask)), Ok(t)) => {
            &&& t.shape@ == seq![1i64, ids@.len() as i64]
            &&& widened(ids@, t.ids@)
            &&& widened(mask@, t.mask@)
        },
        (Err(why), Err(message)) => message@ == unreadable(text, why@),
        _ => false,
    }
}

/// What the tower is fed of what the tokenizer made of a phrase.
pub fn read_encoded(text: &str, encoded: Result<(Vec<u32>, Vec<u32>), String>) -> (tokens: Result<
    Tokens,
    String,
>)
    ensures
        read_as(text@, encoded, tokens),
{
    match encoded {
        Ok((ids, mask)) => Ok(tokens_of(ids.as_slice(), mask.as_slice())),
        Err(why) => Err(refusal(text, why.as_str())),
    }
}

/// Reads a phrase with the tokenizer's own start and end marks around it. A
/// tokenizer that is not built for that is refused.
pub fn tokenise(tokenizer: &Tokenizer, text: &str) -> (tokens: Result<Tokens, String>)
    ensures
        exists|build: Build| #[trigger]
            built(tokenizer, build) && match unusable(build) {
                Some(why) => tokens matches Err(message) && message@ == unreadable(text@, why),
                None => exists|encoded: Result<(Vec<u32>, Vec<u32>), String>| #[trigger]
                    call_ensures(encode, (tokenizer, text, true), encoded) && read_as(
                        text@,
                        encoded,
                        tokens,
                    ),
            },
{
    let build = build_of(tokenizer);
    match objection(&build) {
        Some(why) => Err(refusal(text, why)),
        None => {
            let encoded = encode(tokenizer, text, true);
            read_encoded(text, encoded)
        },
    }
}

} // verus!
