//! What a tokenizer says of itself, and whether it can be trusted with a phrase.
//!
//! A tokenizer comes out of a file, and not every file makes one that reads
//! every phrase: some give out in the middle of it. What it is built of is asked
//! here, piece by piece, and one that could give out is refused with the reason.

use crate::wiring::seen_str;
use tokenizers::normalizers::NormalizerWrapper;
use tokenizers::pre_tokenizers::PreTokenizerWrapper;
use tokenizers::processors::template::{Piece, Sequence, TemplateProcessing};
use tokenizers::processors::PostProcessorWrapper;
use tokenizers::{NormalizedString, Normalizer, PaddingStrategy, PostProcessor, Tokenizer};
use vstd::prelude::*;

verus! {

/// A tokenizer, as it was read from its file.
#[verifier::external_type_specification]
#[verifier::external_body]
pub struct ExTokenizer(Tokenizer);

/// What a tokenizer puts around a phrase it has read.
#[verifier::external_type_specification]
#[verifier::external_body]
pub struct ExPostProcessorWrapper(PostProcessorWrapper);

/// A template that marks and phrases are put into.
#[verifier::external_type_specification]
#[verifier::external_body]
pub struct ExTemplateProcessing(TemplateProcessing);

/// A place of a template, as it was read from its file.
#[verifier::external_type_specification]
#[verifier::external_body]
pub struct ExPiece(Piece);

/// What rewrites a phrase before it is read.
#[verifier::external_type_specification]
#[verifier::external_body]
pub struct ExNormalizerWrapper(NormalizerWrapper);

/// What cuts a phrase into words.
#[verifier::external_type_specification]
#[verifier::external_body]
pub struct ExPreTokenizerWrapper(PreTokenizerWrapper);

/// What is said of a tokenizer that rewrites by a compiled table.
pub const PRECOMPILED: &'static str = "its normalizer reads a precompiled table";

/// What is said of a tokenizer that rewrites by a pattern.
pub const REPLACES: &'static str = "its normalizer replaces by a pattern";

/// What is said of a tokenizer that puts an empty text in front.
pub const NO_PREFIX: &'static str = "its normalizer prepends an empty text";

/// What is said of a tokenizer that cuts words by a pattern.
pub const SPLITS: &'static str = "its pre-tokenizer splits by a pattern";

/// What is said of a tokenizer that cuts pieces with nothing in them.
pub const NO_LENGTH: &'static str = "its pre-tokenizer cuts pieces of no length";

/// What is said of a tokenizer with parts deeper in each other than any file has
/// them.
pub const TOO_DEEP: &'static str = "its parts lie too deep in each other";

/// What is said of a tokenizer whose own tokens take spaces on either side.
pub const STRIPS: &'static str = "its added tokens strip spaces on both sides";

/// What is said of a tokenizer that leaves nothing of one of its own tokens.
pub const VANISHES: &'static str = "its normalizer leaves nothing of an added token";

/// What is said of a tokenizer whose cut has no room.
pub const NO_ROOM: &'static str = "its truncation leaves no room beside its marks";

/// What is said of a tokenizer with a template that cannot be filled.
pub const NO_FRAME: &'static str = "its template cannot be filled";

/// What is said of a tokenizer whose padding has no end.
pub const NO_END: &'static str = "its padding is too long to be held";

/// How deep the parts of a tokenizer may lie in each other. Deeper than any file
/// puts them: what reads those stops there.
pub const NESTING: usize = 128;

/// Calls `Tokenizer::get_normalizer`: what rewrites a phrase first, where
/// anything does.
/// What it is is the tokenizer's to say.
#[verifier::external_body]
pub fn rewriter_of<'a>(tokenizer: &'a Tokenizer) -> (rewriter: Option<&'a NormalizerWrapper>) {
    tokenizer.get_normalizer()
}

/// The ways a phrase is rewritten.
pub enum Rewriting<'a> {
    /// Character by character, whatever they are.
    Plain,
    /// By a table that was compiled beforehand.
    Table,
    /// By putting a text wherever a pattern is found.
    Pattern,
    /// By putting this in front.
    Prefix(&'a str),
    /// One after the other.
    Chain(&'a [NormalizerWrapper]),
}

/// Tells the variants of `NormalizerWrapper` apart, and hands out the text that
/// `Prepend` holds and what `Sequence` gives as a slice.
#[verifier::external_body]
pub fn rewriting_of<'a>(rewriter: &'a NormalizerWrapper) -> (way: Rewriting<'a>) {
    match rewriter {
        NormalizerWrapper::Sequence(chain) => Rewriting::Chain(chain.as_ref()),
        NormalizerWrapper::Precompiled(_) => Rewriting::Table,
        NormalizerWrapper::Replace(_) => Rewriting::Pattern,
        NormalizerWrapper::Prepend(front) => Rewriting::Prefix(front.prepend.as_str()),
        NormalizerWrapper::BertNormalizer(_) | NormalizerWrapper::StripNormalizer(_) => Rewriting::Plain,
        NormalizerWrapper::StripAccents(_) | NormalizerWrapper::Lowercase(_) => Rewriting::Plain,
        NormalizerWrapper::NFC(_) | NormalizerWrapper::NFD(_) => Rewriting::Plain,
        NormalizerWrapper::NFKC(_) | NormalizerWrapper::NFKD(_) => Rewriting::Plain,
        NormalizerWrapper::Nmt(_) | NormalizerWrapper::ByteLevel(_) => Rewriting::Plain,
    }
}

/// What is held against what rewrites a phrase. The bytes of a compiled table
/// are followed wherever they point, a pattern can be one that its search gives
/// up on, and an empty text in front leaves a place that belongs to no character.
/// Parts that lie deeper in each other than `depth` are refused as such.
pub open spec fn rewriter_faulted(rewriter: &NormalizerWrapper, why: Option<Seq<char>>, depth: nat) -> bool
    decreases depth, 0nat,
{
    exists|way: Rewriting<'_>| #[trigger]
        call_ensures(rewriting_of, (rewriter,), way) && match way {
            Rewriting::Plain => why is None,
            Rewriting::Table => why == Some(PRECOMPILED@),
            Rewriting::Pattern => why == Some(REPLACES@),
            Rewriting::Prefix(front) => why == if front@.len() == 0 {
                Some(NO_PREFIX@)
            } else {
                None
            },
            Rewriting::Chain(rewriters) => if depth == 0 {
                why == Some(TOO_DEEP@)
            } else {
                rewriters_faulted(rewriters@, why, (depth - 1) as nat)
            },
        }
}

/// What is held against the first of these that anything is held against.
pub open spec fn rewriters_faulted(
    rewriters: Seq<NormalizerWrapper>,
    why: Option<Seq<char>>,
    depth: nat,
) -> bool
    decreases depth, rewriters.len() + 1,
{
    if rewriters.len() == 0 {
        why is None
    } else {
        ||| why is Some && rewriter_faulted(&rewriters[0], why, depth)
        ||| rewriter_faulted(&rewriters[0], None, depth) && rewriters_faulted(
            rewriters.drop_first(),
            why,
            depth,
        )
    }
}

fn rewriter_fault(rewriter: &NormalizerWrapper, depth: usize) -> (why: Option<&'static str>)
    ensures
        rewriter_faulted(rewriter, seen_str(why), depth as nat),
    decreases depth, 0nat,
{
    let way = rewriting_of(rewriter);
    match way {
        Rewriting::Plain => None,
        Rewriting::Table => Some(PRECOMPILED),
        Rewriting::Pattern => Some(REPLACES),
        Rewriting::Prefix(front) => if front.is_empty() {
            Some(NO_PREFIX)
        } else {
            None
        },
        Rewriting::Chain(rewriters) => if depth == 0 {
            Some(TOO_DEEP)
        } else {
            let why = rewriters_fault(rewriters, 0, depth - 1);
            assert(rewriters@.skip(0) =~= rewriters@);
            why
        },
    }
}

fn rewriters_fault(rewriters: &[NormalizerWrapper], at: usize, depth: usize) -> (why: Option<
    &'static str,
>)
    requires
        at <= rewriters@.len(),
    ensures
        rewriters_faulted(rewriters@.skip(at as int), seen_str(why), depth as nat),
    decreases depth, rewriters@.len() - at + 1,
{
    if at == rewriters.len() {
        return None;
    }
    let ghost left = rewriters@.skip(at as int);
    let first = rewriter_fault(&rewriters[at], depth);
    assert(left[0] == rewriters@[at as int]);
    assert(rewriter_faulted(&left[0], seen_str(first), depth as nat));
    assert(left.drop_first() =~= rewriters@.skip(at + 1));
    match first {
        Some(why) => Some(why),
        None => {
            let why = rewriters_fault(rewriters, at + 1, depth);
            assert(rewriters_faulted(left.drop_first(), seen_str(why), depth as nat));
            why
        },
    }
}

/// Calls `Tokenizer::get_pre_tokenizer`: what cuts a phrase into words, where
/// anything does.
/// What it is is the tokenizer's to say.
#[verifier::external_body]
pub fn splitter_of<'a>(tokenizer: &'a Tokenizer) -> (splitter: Option<&'a PreTokenizerWrapper>) {
    tokenizer.get_pre_tokenizer()
}

/// The ways a phrase is cut into words.
pub enum Splitting<'a> {
    /// At characters of some sort.
    Plain,
    /// Wherever a pattern is found.
    Pattern,
    /// After so many characters.
    Length(usize),
    /// One after the other.
    Chain(&'a [PreTokenizerWrapper]),
}

/// Tells the variants of `PreTokenizerWrapper` apart, and hands out the length
/// that `FixedLength` holds and what `Sequence` gives as a slice.
#[verifier::external_body]
pub fn splitting_of<'a>(splitter: &'a PreTokenizerWrapper) -> (way: Splitting<'a>) {
    match splitter {
        PreTokenizerWrapper::Sequence(chain) => Splitting::Chain(chain.as_ref()),
        PreTokenizerWrapper::Split(_) => Splitting::Pattern,
        PreTokenizerWrapper::FixedLength(fixed) => Splitting::Length(fixed.length),
        PreTokenizerWrapper::BertPreTokenizer(_) | PreTokenizerWrapper::ByteLevel(_) => Splitting::Plain,
        PreTokenizerWrapper::Delimiter(_) | PreTokenizerWrapper::Metaspace(_) => Splitting::Plain,
        PreTokenizerWrapper::Whitespace(_) | PreTokenizerWrapper::WhitespaceSplit(_) => Splitting::Plain,
        PreTokenizerWrapper::Punctuation(_) | PreTokenizerWrapper::Digits(_) => Splitting::Plain,
        PreTokenizerWrapper::UnicodeScripts(_) => Splitting::Plain,
    }
}

/// What is held against what cuts a phrase into words. A pattern can be one that
/// its search gives up on, and no phrase can be cut into pieces of no length.
/// Parts that lie deeper in each other than `depth` are refused as such.
pub open spec fn splitter_faulted(splitter: &PreTokenizerWrapper, why: Option<Seq<char>>, depth: nat) -> bool
    decreases depth, 0nat,
{
    exists|way: Splitting<'_>| #[trigger]
        call_ensures(splitting_of, (splitter,), way) && match way {
            Splitting::Plain => why is None,
            Splitting::Pattern => why == Some(SPLITS@),
            Splitting::Length(n) => why == if n == 0 {
                Some(NO_LENGTH@)
            } else {
                None
            },
            Splitting::Chain(splitters) => if depth == 0 {
                why == Some(TOO_DEEP@)
            } else {
                splitters_faulted(splitters@, why, (depth - 1) as nat)
            },
        }
}

/// What is held against the first of these that anything is held against.
pub open spec fn splitters_faulted(
    splitters: Seq<PreTokenizerWrapper>,
    why: Option<Seq<char>>,
    depth: nat,
) -> bool
    decreases depth, splitters.len() + 1,
{
    if splitters.len() == 0 {
        why is None
    } else {
        ||| why is Some && splitter_faulted(&splitters[0], why, depth)
        ||| splitter_faulted(&splitters[0], None, depth) && splitters_faulted(
            splitters.drop_first(),
            why,
            depth,
        )
    }
}

fn splitter_fault(splitter: &PreTokenizerWrapper, depth: usize) -> (why: Option<&'static str>)
    ensures
        splitter_faulted(splitter, seen_str(why), depth as nat),
    decreases depth, 0nat,
{
    let way = splitting_of(splitter);
    match way {
        Splitting::Plain => None,
        Splitting::Pattern => Some(SPLITS),
        Splitting::Length(n) => if n == 0 {
            Some(NO_LENGTH)
        } else {
            None
        },
        Splitting::Chain(splitters) => if depth == 0 {
            Some(TOO_DEEP)
        } else {
            let why = splitters_fault(splitters, 0, depth - 1);
            assert(splitters@.skip(0) =~= splitters@);
            why
        },
    }
}

fn splitters_fault(splitters: &[PreTokenizerWrapper], at: usize, depth: usize) -> (why: Option<
    &'static str,
>)
    requires
        at <= splitters@.len(),
    ensures
        splitters_faulted(splitters@.skip(at as int), seen_str(why), depth as nat),
    decreases depth, splitters@.len() - at + 1,
{
    if at == splitters.len() {
        return None;
    }
    let ghost left = splitters@.skip(at as int);
    let first = splitter_fault(&splitters[at], depth);
    assert(left[0] == splitters@[at as int]);
    assert(splitter_faulted(&left[0], seen_str(first), depth as nat));
    assert(left.drop_first() =~= splitters@.skip(at + 1));
    match first {
        Some(why) => Some(why),
        None => {
            let why = splitters_fault(splitters, at + 1, depth);
            assert(splitters_faulted(left.drop_first(), seen_str(why), depth as nat));
            why
        },
    }
}

/// What one of the tokens that were added to a tokenizer's own takes along where
/// it is found: the spaces on its left, and those on its right.
pub struct Added {
    pub left: bool,
    pub right: bool,
}

/// Calls `Tokenizer::get_added_tokens_decoder`: what the added tokens take along,
/// in no order that is known.
#[verifier::external_body]
pub fn added_of(tokenizer: &Tokenizer) -> (added: Vec<Added>) {
    let tokens = tokenizer.get_added_tokens_decoder();
    tokens.into_values().map(|t| Added { left: t.lstrip, right: t.rstrip }).collect()
}

/// Calls `get_vocab` on what `Tokenizer::get_added_vocabulary` gives: the added
/// tokens as they are written, in no order that is known.
#[verifier::external_body]
pub fn written_of(tokenizer: &Tokenizer) -> (written: Vec<String>) {
    tokenizer.get_added_vocabulary().get_vocab().keys().cloned().collect()
}

/// Calls `Normalizer::normalize` on a text: what it is rewritten to, and nothing
/// where it cannot be. What that is is the tokenizer's to say.
///
/// The call can panic where something is held against the normalizer, so that is
/// left out.
#[verifier::external_body]
pub fn rewritten(rewriter: &NormalizerWrapper, text: &String) -> (to: Option<String>)
    requires
        rewriter_faulted(rewriter, None, NESTING as nat),
{
    let mut normalized = NormalizedString::from(text.as_str());
    rewriter.normalize(&mut normalized).ok().map(|_| normalized.get().to_owned())
}

/// Whether nothing is left of a text that is rewritten.
pub open spec fn vanishes(rewriter: &NormalizerWrapper, text: String, yes: bool) -> bool {
    exists|to: Option<String>| #[trigger]
        call_ensures(rewritten, (rewriter, &text), to) && yes == match to {
            Some(left) => left@.len() == 0,
            None => true,
        }
}

/// Some of the added tokens take spaces on their left, and some on their right.
pub open spec fn strip_both(added: Seq<Added>) -> bool {
    &&& exists|i: int| 0 <= i < added.len() && (#[trigger] added[i]).left
    &&& exists|i: int| 0 <= i < added.len() && (#[trigger] added[i]).right
}

/// What is held against the added tokens. Of two that are neighbours, one may
/// take the spaces that the other has taken already; and one that is rewritten to
/// nothing is found everywhere, in the middle of characters too. Whether a token
/// is looked for as it is rewritten cannot be told of one that was added twice, so
/// it is taken that each of them is.
pub open spec fn added_faulted(
    tokenizer: &Tokenizer,
    rewriter: Option<&NormalizerWrapper>,
    why: Option<Seq<char>>,
) -> bool {
    exists|added: Vec<Added>, written: Vec<String>|
        #![trigger call_ensures(added_of, (tokenizer,), added), call_ensures(written_of, (tokenizer,), written)]
        {
            &&& call_ensures(added_of, (tokenizer,), added)
            &&& call_ensures(written_of, (tokenizer,), written)
            &&& if strip_both(added@) {
                why == Some(STRIPS@)
            } else {
                match rewriter {
                    None => why is None,
                    Some(r) => {
                        ||| why == Some(VANISHES@) && exists|i: int|
                            0 <= i < written@.len() && vanishes(r, #[trigger] written@[i], true)
                        ||| why is None && forall|i: int|
                            0 <= i < written@.len() ==> vanishes(r, #[trigger] written@[i], false)
                    },
                }
            }
        }
}

fn strips_both(added: &[Added]) -> (yes: bool)
    ensures
        yes == strip_both(added@),
{
    let mut left: bool = false;
    let mut right: bool = false;
    let mut i: usize = 0;
    while i < added.len()
        invariant
            i <= added@.len(),
            left == exists|k: int| 0 <= k < i && (#[trigger] added@[k]).left,
            right == exists|k: int| 0 <= k < i && (#[trigger] added@[k]).right,
        decreases added@.len() - i,
    {
        let token = &added[i];
        assert(*token == added@[i as int]);
        left = left || token.left;
        right = right || token.right;
        i = i + 1;
    }
    left && right
}

fn added_fault(tokenizer: &Tokenizer, rewriter: Option<&NormalizerWrapper>) -> (why: Option<
    &'static str,
>)
    requires
        rewriter matches Some(r) ==> rewriter_faulted(r, None, NESTING as nat),
    ensures
        added_faulted(tokenizer, rewriter, seen_str(why)),
{
    let added = added_of(tokenizer);
    let written = written_of(tokenizer);
    if strips_both(added.as_slice()) {
        return Some(STRIPS);
    }
    match rewriter {
        None => None,
        Some(r) => {
            let mut i: usize = 0;
            while i < written.len()
                invariant
                    i <= written@.len(),
                    rewriter_faulted(r, None, NESTING as nat),
                    rewriter == Some(r),
                    call_ensures(added_of, (tokenizer,), added),
                    call_ensures(written_of, (tokenizer,), written),
                    !strip_both(added@),
                    forall|k: int| 0 <= k < i ==> vanishes(r, #[trigger] written@[k], false),
                decreases written@.len() - i,
            {
                let to = rewritten(r, &written[i]);
                let gone: bool = match &to {
                    Some(left) => left.as_str().is_empty(),
                    None => true,
                };
                assert(vanishes(r, written@[i as int], gone));
                if gone {
                    return Some(VANISHES);
                }
                i = i + 1;
            }
            None
        },
    }
}

/// Calls `Tokenizer::get_truncation`: how many tokens the tokenizer cuts a
/// phrase to, and by how many the pieces it cuts it into overlap; nothing where
/// it does not cut. Which numbers those are is the tokenizer's to say.
#[verifier::external_body]
pub fn cut_of(tokenizer: &Tokenizer) -> (cut: Option<(usize, usize)>) {
    tokenizer.get_truncation().map(|cut| (cut.max_length, cut.stride))
}

/// Calls `Tokenizer::get_padding`: the length the tokenizer fills a phrase up
/// to, where it is a fixed one, and what that has to be a multiple of, where it
/// has to be; nothing where it does not fill up.
#[verifier::external_body]
pub fn padding_of(tokenizer: &Tokenizer) -> (padding: Option<(Option<usize>, Option<usize>)>) {
    tokenizer.get_padding().map(|padding| match padding.strategy {
        PaddingStrategy::BatchLongest => (None, padding.pad_to_multiple_of),
        PaddingStrategy::Fixed(length) => (Some(length), padding.pad_to_multiple_of),
    })
}

/// Calls `Tokenizer::get_post_processor`: what puts the marks around a phrase,
/// where anything does. What it is is the tokenizer's to say.
#[verifier::external_body]
pub fn frame_of<'a>(tokenizer: &'a Tokenizer) -> (frame: Option<&'a PostProcessorWrapper>) {
    tokenizer.get_post_processor()
}

/// Calls `PostProcessor::added_tokens` for a single text: how many marks a
/// frame says it puts around it.
#[verifier::external_body]
pub fn marks_of(frame: &PostProcessorWrapper) -> (marks: usize) {
    PostProcessor::added_tokens(frame, false)
}

/// The ways a frame is made.
pub enum Form<'a> {
    /// Two marks, or none, around whatever there is.
    Around,
    /// Places for texts and marks.
    Template(&'a TemplateProcessing),
    /// One frame after the other.
    Chain(&'a [PostProcessorWrapper]),
}

/// Tells the variants of `PostProcessorWrapper` apart, and hands out what
/// `Sequence` gives as a slice.
#[verifier::external_body]
pub fn form_of<'a>(frame: &'a PostProcessorWrapper) -> (form: Form<'a>) {
    match frame {
        PostProcessorWrapper::Roberta(_) => Form::Around,
        PostProcessorWrapper::Bert(_) => Form::Around,
        PostProcessorWrapper::ByteLevel(_) => Form::Around,
        PostProcessorWrapper::Template(template) => Form::Template(template),
        PostProcessorWrapper::Sequence(chain) => Form::Chain(chain.as_ref()),
    }
}

/// A place of a template.
pub enum Slot {
    /// The first text, the one there always is.
    First,
    /// The second text, where two are read together.
    Second,
    /// A mark, by its name.
    Mark(String),
}

/// Reads a list of `Piece` off each of the two templates, the one for a single
/// text and the one for a pair, by `serde_json::to_value` and
/// `serde_json::from_value`: a `Template` is such a list, and is written as one.
#[verifier::external_body]
pub fn pieces_of(template: &TemplateProcessing) -> (pieces: Option<(Vec<Piece>, Vec<Piece>)>) {
    let single = serde_json::to_value(&template.single).and_then(serde_json::from_value);
    let pair = serde_json::to_value(template.get_pair()).and_then(serde_json::from_value);
    single.ok().zip(pair.ok())
}

/// Tells the variants of `Piece` apart.
#[verifier::external_body]
pub fn slot_of(piece: &Piece) -> (slot: Slot) {
    match piece {
        Piece::Sequence { id: Sequence::A, .. } => Slot::First,
        Piece::Sequence { id: Sequence::B, .. } => Slot::Second,
        Piece::SpecialToken { id, .. } => Slot::Mark(id.clone()),
    }
}

/// Calls `contains_key` on what `TemplateProcessing::get_special_tokens` gives:
/// whether a template says what the mark of this name is.
#[verifier::external_body]
pub fn defines(template: &TemplateProcessing, name: &String) -> (yes: bool) {
    template.get_special_tokens().0.contains_key(name.as_str())
}

/// These are the places of a template, told apart.
pub open spec fn told_apart(places: Seq<Piece>, slots: Seq<Slot>) -> bool {
    &&& slots.len() == places.len()
    &&& forall|i: int|
        #![trigger slots[i]]
        0 <= i < slots.len() ==> call_ensures(slot_of, (&places[i],), slots[i])
}

/// Whether something can be put into this place, with a pair of texts at hand
/// or with one.
pub open spec fn fills(template: &TemplateProcessing, slot: Slot, pair: bool, yes: bool) -> bool {
    match slot {
        Slot::First => yes,
        Slot::Second => yes == pair,
        Slot::Mark(name) => call_ensures(defines, (template, &name), yes),
    }
}

/// Two of these places are for the same text.
pub open spec fn repeats(slots: Seq<Slot>) -> bool {
    exists|i: int, j: int|
        0 <= i < j < slots.len() && ((#[trigger] slots[i] is First && #[trigger] slots[j] is First)
            || (slots[i] is Second && slots[j] is Second))
}

/// What the places of a template make of a text or of a pair: a text each, and
/// nothing where one of them stays empty. Nothing either where a text that may
/// stand `once` only has two places: a cut text stands in each of them with
/// every piece it was cut into, so each place more multiplies what is made.
pub open spec fn places_make(
    template: &TemplateProcessing,
    places: Seq<Piece>,
    pair: bool,
    once: bool,
    made: Option<usize>,
) -> bool {
    exists|slots: Seq<Slot>| #[trigger]
        told_apart(places, slots) && match made {
            Some(m) => {
                &&& m == places.len()
                &&& forall|i: int|
                    0 <= i < slots.len() ==> fills(template, #[trigger] slots[i], pair, true)
                &&& once ==> !repeats(slots)
            },
            None => {
                ||| exists|i: int|
                    0 <= i < slots.len() && fills(template, #[trigger] slots[i], pair, false)
                ||| once && repeats(slots)
            },
        }
}

/// What a template makes of a text or of a pair.
pub open spec fn template_makes(
    template: &TemplateProcessing,
    pair: bool,
    once: bool,
    made: Option<usize>,
) -> bool {
    exists|pieces: Option<(Vec<Piece>, Vec<Piece>)>| #[trigger]
        call_ensures(pieces_of, (template,), pieces) && match pieces {
            None => made is None,
            Some((single, double)) => if pair {
                places_make(template, double@, true, once, made)
            } else {
                places_make(template, single@, false, once, made)
            },
        }
}

/// What a frame makes of `n` texts. Nothing where a template in it fails or is
/// handed neither one text nor a pair, or where chains lie deeper in each other
/// than `depth`.
pub open spec fn frame_makes(
    frame: &PostProcessorWrapper,
    n: usize,
    once: bool,
    made: Option<usize>,
    depth: nat,
) -> bool
    decreases depth, 0nat,
{
    exists|form: Form<'_>| #[trigger]
        call_ensures(form_of, (frame,), form) && match form {
            Form::Around => made == Some(n),
            Form::Template(template) => if n == 1 || n == 2 {
                template_makes(template, n == 2, once, made)
            } else {
                made is None
            },
            Form::Chain(frames) => if depth == 0 {
                made is None
            } else {
                chain_makes(frames@, n, once, made, (depth - 1) as nat)
            },
        }
}

/// One frame of a chain may hand any number of texts to the next.
pub open spec fn handed_on(n: usize) -> bool {
    true
}

/// What frames make of `n` texts, one after the other.
pub open spec fn chain_makes(
    frames: Seq<PostProcessorWrapper>,
    n: usize,
    once: bool,
    made: Option<usize>,
    depth: nat,
) -> bool
    decreases depth, frames.len() + 1,
{
    if frames.len() == 0 {
        made == Some(n)
    } else {
        ||| frame_makes(&frames[0], n, once, None, depth) && made is None
        ||| exists|m: usize| #[trigger]
            handed_on(m) && frame_makes(&frames[0], n, once, Some(m), depth) && chain_makes(
                frames.drop_first(),
                m,
                once,
                made,
                depth,
            )
    }
}

fn tell_apart(places: &[Piece]) -> (slots: Vec<Slot>)
    ensures
        told_apart(places@, slots@),
{
    let mut slots: Vec<Slot> = Vec::new();
    let mut i: usize = 0;
    while i < places.len()
        invariant
            i <= places@.len(),
            slots@.len() == i,
            forall|k: int|
                #![trigger slots@[k]]
                0 <= k < i ==> call_ensures(slot_of, (&places@[k],), slots@[k]),
        decreases places@.len() - i,
    {
        let slot = slot_of(&places[i]);
        slots.push(slot);
        i = i + 1;
    }
    slots
}

fn has_repeats(slots: &[Slot]) -> (yes: bool)
    ensures
        yes == repeats(slots@),
{
    let mut first: Option<usize> = None;
    let mut second: Option<usize> = None;
    let mut i: usize = 0;
    while i < slots.len()
        invariant
            i <= slots@.len(),
            match first {
                Some(f) => f < i && slots@[f as int] is First,
                None => forall|k: int| 0 <= k < i ==> !(#[trigger] slots@[k] is First),
            },
            match second {
                Some(s) => s < i && slots@[s as int] is Second,
                None => forall|k: int| 0 <= k < i ==> !(#[trigger] slots@[k] is Second),
            },
            forall|k: int, l: int|
                0 <= k < l < i ==> !(#[trigger] slots@[k] is First && #[trigger] slots@[l] is First)
                    && !(slots@[k] is Second && slots@[l] is Second),
        decreases slots@.len() - i,
    {
        match &slots[i] {
            Slot::First => {
                if let Some(f) = first {
                    assert(slots@[f as int] is First && slots@[i as int] is First);
                    return true;
                }
                first = Some(i);
            },
            Slot::Second => {
                if let Some(s) = second {
                    assert(slots@[s as int] is Second && slots@[i as int] is Second);
                    return true;
                }
                second = Some(i);
            },
            Slot::Mark(_) => {},
        }
        i = i + 1;
    }
    false
}

fn make_places(template: &TemplateProcessing, places: &[Piece], pair: bool, once: bool) -> (made: Option<
    usize,
>)
    ensures
        places_make(template, places@, pair, once, made),
{
    let slots = tell_apart(places);
    let mut i: usize = 0;
    while i < slots.len()
        invariant
            i <= slots@.len(),
            told_apart(places@, slots@),
            forall|k: int| 0 <= k < i ==> fills(template, #[trigger] slots@[k], pair, true),
        decreases slots@.len() - i,
    {
        let filled: bool = match &slots[i] {
            Slot::First => true,
            Slot::Second => pair,
            Slot::Mark(name) => defines(template, name),
        };
        assert(fills(template, slots@[i as int], pair, filled));
        if !filled {
            return None;
        }
        i = i + 1;
    }
    if once && has_repeats(slots.as_slice()) {
        return None;
    }
    Some(places.len())
}

fn make_template(template: &TemplateProcessing, pair: bool, once: bool) -> (made: Option<usize>)
    ensures
        template_makes(template, pair, once, made),
{
    let pieces = pieces_of(template);
    match &pieces {
        None => None,
        Some((single, double)) => if pair {
            make_places(template, double.as_slice(), true, once)
        } else {
            make_places(template, single.as_slice(), false, once)
        },
    }
}

fn make_frame(frame: &PostProcessorWrapper, n: usize, once: bool, depth: usize) -> (made: Option<
    usize,
>)
    ensures
        frame_makes(frame, n, once, made, depth as nat),
    decreases depth, 0nat,
{
    let form = form_of(frame);
    match form {
        Form::Around => Some(n),
        Form::Template(template) => if n == 1 || n == 2 {
            make_template(template, n == 2, once)
        } else {
            None
        },
        Form::Chain(frames) => if depth == 0 {
            None
        } else {
            let made = make_chain(frames, 0, n, once, depth - 1);
            assert(frames@.skip(0) =~= frames@);
            made
        },
    }
}

fn make_chain(
    frames: &[PostProcessorWrapper],
    at: usize,
    n: usize,
    once: bool,
    depth: usize,
) -> (made: Option<usize>)
    requires
        at <= frames@.len(),
    ensures
        chain_makes(frames@.skip(at as int), n, once, made, depth as nat),
    decreases depth, frames@.len() - at + 1,
{
    if at == frames.len() {
        return Some(n);
    }
    let ghost left = frames@.skip(at as int);
    let first = make_frame(&frames[at], n, once, depth);
    assert(left[0] == frames@[at as int]);
    assert(frame_makes(&left[0], n, once, first, depth as nat));
    assert(left.drop_first() =~= frames@.skip(at + 1));
    match first {
        Some(m) => {
            let made = make_chain(frames, at + 1, m, once, depth);
            assert(chain_makes(left.drop_first(), m, once, made, depth as nat));
            assert(handed_on(m));
            made
        },
        None => None,
    }
}

/// More tokens than there is memory for, whatever the machine: each takes far
/// more bytes than the share that is left here.
pub const TOO_LONG: usize = usize::MAX / 128;

/// What a tokenizer says of itself: what is held against how it rewrites a
/// phrase, against how it cuts it into words and against its added tokens, how
/// it cuts what it has read and fills it up, how many marks go around it, and
/// whether there is something for every place of its frame.
pub struct Build {
    pub rewriting: Option<&'static str>,
    pub splitting: Option<&'static str>,
    pub adding: Option<&'static str>,
    pub cut: Option<(usize, usize)>,
    pub padding: Option<(Option<usize>, Option<usize>)>,
    pub marks: usize,
    pub framed: bool,
}

impl Build {
    /// What is left of the cut once the marks are in it holds more than the
    /// overlap, or nothing at all. Without that no phrase is read, not even one
    /// so short that nothing would be cut off it: how many tokens a phrase comes
    /// to is known only from reading it, and where the tokenizer leaves some out
    /// by chance, not even from that.
    pub open spec fn leaves_room(self) -> bool {
        match self.cut {
            None => true,
            Some((most, overlap)) => self.marks == most || self.marks + overlap < most,
        }
    }

    /// What a phrase is filled up to can be held.
    pub open spec fn can_be_held(self) -> bool {
        match self.padding {
            None => true,
            Some((length, multiple)) => {
                &&& length matches Some(n) ==> n < TOO_LONG
                &&& multiple matches Some(n) ==> n < TOO_LONG
            },
        }
    }
}

/// The tokenizer says that it is built like this.
pub open spec fn built(tokenizer: &Tokenizer, build: Build) -> bool {
    &&& exists|rewriter: Option<&NormalizerWrapper>| #[trigger]
        call_ensures(rewriter_of, (tokenizer,), rewriter) && {
            &&& match rewriter {
                None => build.rewriting is None,
                Some(r) => rewriter_faulted(r, seen_str(build.rewriting), NESTING as nat),
            }
            &&& added_faulted(
                tokenizer,
                if build.rewriting is None {
                    rewriter
                } else {
                    None
                },
                seen_str(build.adding),
            )
        }
    &&& exists|splitter: Option<&PreTokenizerWrapper>| #[trigger]
        call_ensures(splitter_of, (tokenizer,), splitter) && match splitter {
            None => build.splitting is None,
            Some(s) => splitter_faulted(s, seen_str(build.splitting), NESTING as nat),
        }
    &&& call_ensures(cut_of, (tokenizer,), build.cut)
    &&& call_ensures(padding_of, (tokenizer,), build.padding)
    &&& exists|frame: Option<&PostProcessorWrapper>| #[trigger]
        call_ensures(frame_of, (tokenizer,), frame) && match frame {
            None => build.marks == 0 && build.framed,
            Some(frame) => {
                &&& call_ensures(marks_of, (frame,), build.marks)
                &&& exists|made: Option<usize>| #[trigger]
                    frame_makes(frame, 1, build.cut is Some, made, NESTING as nat) && build.framed
                        == (made is Some)
            },
        }
}

/// Asks a tokenizer how it is built.
pub fn build_of(tokenizer: &Tokenizer) -> (build: Build)
    ensures
        built(tokenizer, build),
{
    let rewriter = rewriter_of(tokenizer);
    let rewriting = match rewriter {
        None => None,
        Some(r) => rewriter_fault(r, NESTING),
    };
    let adding = added_fault(
        tokenizer,
        if rewriting.is_none() {
            rewriter
        } else {
            None
        },
    );
    let splitter = splitter_of(tokenizer);
    let splitting = match splitter {
        None => None,
        Some(s) => splitter_fault(s, NESTING),
    };
    let cut: Option<(usize, usize)> = cut_of(tokenizer);
    let padding: Option<(Option<usize>, Option<usize>)> = padding_of(tokenizer);
    let frame = frame_of(tokenizer);
    match frame {
        None => Build { rewriting, splitting, adding, cut, padding, marks: 0, framed: true },
        Some(post) => {
            let marks: usize = marks_of(post);
            let made = make_frame(post, 1, cut.is_some(), NESTING);
            assert(frame_makes(post, 1, cut is Some, made, NESTING as nat));
            Build { rewriting, splitting, adding, cut, padding, marks, framed: made.is_some() }
        },
    }
}

/// Why a tokenizer built like this cannot be used, where it cannot.
pub open spec fn unusable(build: Build) -> Option<Seq<char>> {
    if build.rewriting is Some {
        seen_str(build.rewriting)
    } else if build.splitting is Some {
        seen_str(build.splitting)
    } else if build.adding is Some {
        seen_str(build.adding)
    } else if !build.leaves_room() {
        Some(NO_ROOM@)
    } else if !build.framed {
        Some(NO_FRAME@)
    } else if !build.can_be_held() {
        Some(NO_END@)
    } else {
        None
    }
}

/// Says why a tokenizer built like this cannot be used, where it cannot.
pub fn objection(build: &Build) -> (why: Option<&'static str>)
    ensures
        seen_str(why) == unusable(*build),
{
    let room: bool = match build.cut {
        None => true,
        Some((most, overlap)) => build.marks == most || (build.marks < most && overlap < most
            - build.marks),
    };
    let held: bool = match build.padding {
        None => true,
        Some((length, multiple)) => (match length {
            Some(n) => n < TOO_LONG,
            None => true,
        }) && (match multiple {
            Some(n) => n < TOO_LONG,
            None => true,
        }),
    };
    if build.rewriting.is_some() {
        build.rewriting
    } else if build.splitting.is_some() {
        build.splitting
    } else if build.adding.is_some() {
        build.adding
    } else if !room {
        Some(NO_ROOM)
    } else if !build.framed {
        Some(NO_FRAME)
    } else if !held {
        Some(NO_END)
    } else {
        None
    }
}

/// The tokenizer says that nothing stands against its reading a phrase and
/// putting its marks around it.
pub open spec fn can_read(tokenizer: &Tokenizer) -> bool {
    exists|build: Build| #[trigger] built(tokenizer, build) && unusable(build) is None
}

/// Calls `Tokenizer::encode` on a phrase, with the marks: its token ids and its
/// attention mask, or why it has none. Nothing is claimed of either: they
/// follow from what the tokenizer's file held, which also may let chance in.
///
/// The call can panic, on some phrase, where the normalizer reads a precompiled
/// table, replaces a pattern or prepends nothing, where the pre-tokenizer splits
/// by a pattern or into pieces of no length, where added tokens strip spaces on
/// both sides or are normalized to nothing, where the cut leaves no more room than its
/// overlap, where a template names the second text or a mark it does not define,
/// and where the padding is longer than anything can be. A template that repeats
/// a text that is cut can ask for more memory than there is. All of those are
/// left out, whatever the phrase: many of them would read most phrases, but
/// which ones follows from the phrase and the file together.
#[verifier::external_body]
pub fn encode(tokenizer: &Tokenizer, text: &str, special: bool) -> (encoded: Result<
    (Vec<u32>, Vec<u32>),
    String,
>)
    requires
        special,
        can_read(tokenizer),
{
    match tokenizer.encode(text, special) {
        Ok(encoding) => Ok((encoding.get_ids().to_vec(), encoding.get_attention_mask().to_vec())),
        Err(error) => Err(error.to_string()),
    }
}

} // verus!
