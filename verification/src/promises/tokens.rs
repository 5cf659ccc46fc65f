//! Which tokenizers are used, and what is made of what they say.

use crate::text::{debug_of, read_as, Tokens};
use crate::tokenizer::{
    form_of, frame_makes, rewriter_faulted, rewriters_faulted, rewriting_of, splitter_faulted,
    splitters_faulted, splitting_of, strip_both, unusable, Added, Build, Form, Rewriting, Splitting,
};
use tokenizers::normalizers::NormalizerWrapper;
use tokenizers::pre_tokenizers::PreTokenizerWrapper;
use tokenizers::processors::PostProcessorWrapper;
use vstd::prelude::*;

verus! {

/// A tokenizer is used unless something is held against it: how it rewrites,
/// cuts into words or adds tokens, a cut that has no more room beside the marks
/// than its overlap, a frame with an empty place, or padding that nothing can
/// hold.
pub proof fn a_tokenizer_is_used_unless_something_is_against_it(build: Build)
    ensures
        unusable(build) is None <==> {
            &&& build.rewriting is None
            &&& build.splitting is None
            &&& build.adding is None
            &&& build.cut matches Some(cut) ==> build.marks == cut.0 || build.marks + cut.1 < cut.0
            &&& build.framed
            &&& build.padding matches Some(padding) ==> (padding.0 matches Some(n) ==> n
                < usize::MAX / 128) && (padding.1 matches Some(n) ==> n < usize::MAX / 128)
        },
        build.rewriting is Some ==> unusable(build) == Some(build.rewriting->0@),
        build.rewriting is None && build.splitting is Some ==> unusable(build) == Some(
            build.splitting->0@,
        ),
        build.rewriting is None && build.splitting is None && build.adding is Some ==> unusable(
            build,
        ) == Some(build.adding->0@),
        build.rewriting is None && build.splitting is None && build.adding is None && (
        build.cut matches Some(cut) && build.marks != cut.0 && build.marks + cut.1 >= cut.0)
            ==> unusable(build) == Some("its truncation leaves no room beside its marks"@),
        build.rewriting is None && build.splitting is None && build.adding is None && build.cut
            is None && !build.framed ==> unusable(build) == Some("its template cannot be filled"@),
        build.rewriting is None && build.splitting is None && build.adding is None && build.cut
            is None && build.framed && unusable(build) is Some ==> unusable(build) == Some(
            "its padding is too long to be held"@,
        ),
{
}

/// What rewrites character by character, or puts something in front, is not
/// held against a tokenizer. A compiled table, a pattern and an empty text in
/// front are, each by its name.
pub proof fn a_rewriter_is_judged_by_its_way(
    rewriter: &NormalizerWrapper,
    why: Option<Seq<char>>,
    depth: nat,
)
    requires
        rewriter_faulted(rewriter, why, depth),
    ensures
        exists|way: Rewriting<'_>| #[trigger]
            call_ensures(rewriting_of, (rewriter,), way) && {
                &&& way is Plain ==> why is None
                &&& way matches Rewriting::Prefix(front) ==> (why is None <==> front@.len() > 0)
                &&& way matches Rewriting::Prefix(front) ==> (why is Some ==> why == Some(
                    "its normalizer prepends an empty text"@,
                ))
                &&& way is Table ==> why == Some("its normalizer reads a precompiled table"@)
                &&& way is Pattern ==> why == Some("its normalizer replaces by a pattern"@)
                &&& way matches Rewriting::Chain(chain) ==> depth > 0 ==> rewriters_faulted(
                    chain@,
                    why,
                    (depth - 1) as nat,
                )
                &&& way is Chain && depth == 0 ==> why == Some(
                    "its parts lie too deep in each other"@,
                )
            },
{
    let way = choose|way: Rewriting<'_>| #[trigger]
        call_ensures(rewriting_of, (rewriter,), way) && match way {
            Rewriting::Plain => why is None,
            Rewriting::Table => why == Some(crate::tokenizer::PRECOMPILED@),
            Rewriting::Pattern => why == Some(crate::tokenizer::REPLACES@),
            Rewriting::Prefix(front) => why == if front@.len() == 0 {
                Some(crate::tokenizer::NO_PREFIX@)
            } else {
                None
            },
            Rewriting::Chain(rewriters) => if depth == 0 {
                why == Some(crate::tokenizer::TOO_DEEP@)
            } else {
                rewriters_faulted(rewriters@, why, (depth - 1) as nat)
            },
        };
    assert(call_ensures(rewriting_of, (rewriter,), way));
}

/// A chain is accepted only where each of its parts is, and what is held
/// against it is held against one of them.
pub proof fn a_chain_is_judged_by_its_parts(
    rewriters: Seq<NormalizerWrapper>,
    splitters: Seq<PreTokenizerWrapper>,
    why: Option<Seq<char>>,
    depth: nat,
)
    ensures
        rewriters_faulted(rewriters, None, depth) <==> forall|i: int|
            0 <= i < rewriters.len() ==> rewriter_faulted(&#[trigger] rewriters[i], None, depth),
        rewriters_faulted(rewriters, why, depth) && why is Some ==> exists|i: int|
            0 <= i < rewriters.len() && rewriter_faulted(&#[trigger] rewriters[i], why, depth),
        splitters_faulted(splitters, None, depth) <==> forall|i: int|
            0 <= i < splitters.len() ==> splitter_faulted(&#[trigger] splitters[i], None, depth),
        splitters_faulted(splitters, why, depth) && why is Some ==> exists|i: int|
            0 <= i < splitters.len() && splitter_faulted(&#[trigger] splitters[i], why, depth),
{
    lemma_rewriters(rewriters, why, depth);
    lemma_splitters(splitters, why, depth);
}

proof fn lemma_rewriters(rewriters: Seq<NormalizerWrapper>, why: Option<Seq<char>>, depth: nat)
    ensures
        rewriters_faulted(rewriters, None, depth) <==> forall|i: int|
            0 <= i < rewriters.len() ==> rewriter_faulted(&#[trigger] rewriters[i], None, depth),
        rewriters_faulted(rewriters, why, depth) && why is Some ==> exists|i: int|
            0 <= i < rewriters.len() && rewriter_faulted(&#[trigger] rewriters[i], why, depth),
    decreases rewriters.len(),
{
    if rewriters.len() > 0 {
        let rest = rewriters.drop_first();
        lemma_rewriters(rest, why, depth);
        if rewriters_faulted(rewriters, None, depth) {
            assert forall|i: int| 0 <= i < rewriters.len() implies rewriter_faulted(
                &#[trigger] rewriters[i],
                None,
                depth,
            ) by {
                if i > 0 {
                    assert(rest[i - 1] == rewriters[i]);
                }
            }
        }
        if forall|i: int|
            0 <= i < rewriters.len() ==> rewriter_faulted(&#[trigger] rewriters[i], None, depth) {
            assert(rewriter_faulted(&rewriters[0], None, depth));
            assert forall|i: int| 0 <= i < rest.len() implies rewriter_faulted(
                &#[trigger] rest[i],
                None,
                depth,
            ) by {
                assert(rest[i] == rewriters[i + 1]);
            }
        }
        if rewriters_faulted(rewriters, why, depth) && why is Some && !rewriter_faulted(
            &rewriters[0],
            why,
            depth,
        ) {
            let i = choose|i: int|
                0 <= i < rest.len() && rewriter_faulted(&#[trigger] rest[i], why, depth);
            assert(rewriters[i + 1] == rest[i]);
        }
    }
}

proof fn lemma_splitters(splitters: Seq<PreTokenizerWrapper>, why: Option<Seq<char>>, depth: nat)
    ensures
        splitters_faulted(splitters, None, depth) <==> forall|i: int|
            0 <= i < splitters.len() ==> splitter_faulted(&#[trigger] splitters[i], None, depth),
        splitters_faulted(splitters, why, depth) && why is Some ==> exists|i: int|
            0 <= i < splitters.len() && splitter_faulted(&#[trigger] splitters[i], why, depth),
    decreases splitters.len(),
{
    if splitters.len() > 0 {
        let rest = splitters.drop_first();
        lemma_splitters(rest, why, depth);
        if splitters_faulted(splitters, None, depth) {
            assert forall|i: int| 0 <= i < splitters.len() implies splitter_faulted(
                &#[trigger] splitters[i],
                None,
                depth,
            ) by {
                if i > 0 {
                    assert(rest[i - 1] == splitters[i]);
                }
            }
        }
        if forall|i: int|
            0 <= i < splitters.len() ==> splitter_faulted(&#[trigger] splitters[i], None, depth) {
            assert(splitter_faulted(&splitters[0], None, depth));
            assert forall|i: int| 0 <= i < rest.len() implies splitter_faulted(
                &#[trigger] rest[i],
                None,
                depth,
            ) by {
                assert(rest[i] == splitters[i + 1]);
            }
        }
        if splitters_faulted(splitters, why, depth) && why is Some && !splitter_faulted(
            &splitters[0],
            why,
            depth,
        ) {
            let i = choose|i: int|
                0 <= i < rest.len() && splitter_faulted(&#[trigger] rest[i], why, depth);
            assert(splitters[i + 1] == rest[i]);
        }
    }
}

/// What cuts at characters, or after so many, is not held against a tokenizer.
/// A pattern and pieces of no length are, each by its name.
pub proof fn a_splitter_is_judged_by_its_way(
    splitter: &PreTokenizerWrapper,
    why: Option<Seq<char>>,
    depth: nat,
)
    requires
        splitter_faulted(splitter, why, depth),
    ensures
        exists|way: Splitting<'_>| #[trigger]
            call_ensures(splitting_of, (splitter,), way) && {
                &&& way is Plain ==> why is None
                &&& way matches Splitting::Length(n) ==> (why is None <==> n > 0)
                &&& way matches Splitting::Length(n) ==> (why is Some ==> why == Some(
                    "its pre-tokenizer cuts pieces of no length"@,
                ))
                &&& way is Pattern ==> why == Some("its pre-tokenizer splits by a pattern"@)
                &&& way matches Splitting::Chain(chain) ==> depth > 0 ==> splitters_faulted(
                    chain@,
                    why,
                    (depth - 1) as nat,
                )
                &&& way is Chain && depth == 0 ==> why == Some(
                    "its parts lie too deep in each other"@,
                )
            },
{
    let way = choose|way: Splitting<'_>| #[trigger]
        call_ensures(splitting_of, (splitter,), way) && match way {
            Splitting::Plain => why is None,
            Splitting::Pattern => why == Some(crate::tokenizer::SPLITS@),
            Splitting::Length(n) => why == if n == 0 {
                Some(crate::tokenizer::NO_LENGTH@)
            } else {
                None
            },
            Splitting::Chain(splitters) => if depth == 0 {
                why == Some(crate::tokenizer::TOO_DEEP@)
            } else {
                splitters_faulted(splitters@, why, (depth - 1) as nat)
            },
        };
    assert(call_ensures(splitting_of, (splitter,), way));
}

/// Added tokens that take spaces on one side only, all of them the same, are
/// not held against a tokenizer; it takes one for either side.
pub proof fn spaces_on_one_side_are_no_matter(added: Seq<Added>)
    ensures
        (forall|i: int| 0 <= i < added.len() ==> !(#[trigger] added[i]).left) ==> !strip_both(added),
        (forall|i: int| 0 <= i < added.len() ==> !(#[trigger] added[i]).right) ==> !strip_both(
            added,
        ),
        forall|i: int, j: int|
            0 <= i < added.len() && 0 <= j < added.len() && (#[trigger] added[i]).left && (
            #[trigger] added[j]).right ==> strip_both(added),
{
}

/// A frame that only puts marks around makes as many texts as it is handed.
pub proof fn marks_around_a_text_leave_it_one(
    frame: &PostProcessorWrapper,
    n: usize,
    once: bool,
    made: Option<usize>,
    depth: nat,
)
    requires
        frame_makes(frame, n, once, made, depth),
        forall|form: Form<'_>| #[trigger] call_ensures(form_of, (frame,), form) ==> form is Around,
    ensures
        made == Some(n),
{
}

/// What is fed is one row, as long as the phrase has tokens, of the numbers
/// that the tokenizer gave; a phrase it could not read is named with the reason.
pub proof fn a_phrase_is_fed_as_it_was_read(
    text: Seq<char>,
    encoded: Result<(Vec<u32>, Vec<u32>), String>,
    tokens: Result<Tokens, String>,
)
    requires
        read_as(text, encoded, tokens),
    ensures
        match encoded {
            Ok(given) => tokens matches Ok(fed) && {
                &&& fed.shape@[0] == 1
                &&& fed.shape@[1] == given.0@.len() as i64
                &&& fed.ids@.len() == given.0@.len()
                &&& fed.mask@.len() == given.1@.len()
                &&& forall|i: int|
                    0 <= i < fed.ids@.len() ==> #[trigger] fed.ids@[i] == given.0@[i] as i64
                &&& forall|i: int|
                    0 <= i < fed.mask@.len() ==> #[trigger] fed.mask@[i] == given.1@[i] as i64
            },
            Err(why) => tokens matches Err(message) && message@ == "tokenising "@ + debug_of(text)
                + ": "@ + why@,
        },
{
}

} // verus!
