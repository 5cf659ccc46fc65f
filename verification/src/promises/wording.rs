//! What reading and taking apart texts has to live up to.

use crate::strings::{
    ascii_upper_of, begins_with, digits, digits_value, number_of, occurs_at, occurs_in, pieces_of,
    signed_digits, trim_end_char_of, trim_end_of, trim_of, trim_start_of, two_places, white,
    words_of, words_so_far,
};
use vstd::prelude::*;

verus! {

/// A text is trimmed down to what lies between its first and its last character
/// that is no space.
pub proof fn a_trimmed_text_is_what_lies_between(s: Seq<char>) -> (ends: (int, int))
    ensures
        0 <= ends.0 <= ends.1 <= s.len(),
        trim_of(s) == s.subrange(ends.0, ends.1),
        forall|i: int| 0 <= i < ends.0 ==> white(#[trigger] s[i]),
        forall|i: int| ends.1 <= i < s.len() ==> white(#[trigger] s[i]),
        ends.0 < ends.1 ==> !white(s[ends.0]) && !white(s[ends.1 - 1]),
{
    let a = lemma_trim_start(s);
    let t = trim_start_of(s);
    let b = lemma_trim_end(t);
    assert(trim_of(s) =~= s.subrange(a, a + b));
    assert forall|i: int| a + b <= i < s.len() implies white(#[trigger] s[i]) by {
        assert(t[i - a] == s[i]);
    }
    if b > 0 {
        assert(t[0] == s[a] && t[b - 1] == s[a + b - 1]);
    }
    (a, a + b)
}

pub(crate) proof fn lemma_trim_start(s: Seq<char>) -> (a: int)
    ensures
        0 <= a <= s.len(),
        trim_start_of(s) == s.skip(a),
        forall|i: int| 0 <= i < a ==> white(#[trigger] s[i]),
        a < s.len() ==> !white(s[a]),
    decreases s.len(),
{
    if s.len() > 0 && white(s[0]) {
        let rest = s.drop_first();
        let a = lemma_trim_start(rest);
        assert(rest.skip(a) =~= s.skip(a + 1));
        assert forall|i: int| 0 <= i < a + 1 implies white(#[trigger] s[i]) by {
            if i > 0 {
                assert(rest[i - 1] == s[i]);
            }
        }
        a + 1
    } else {
        assert(s.skip(0) =~= s);
        0
    }
}

proof fn lemma_trim_end(s: Seq<char>) -> (b: int)
    ensures
        0 <= b <= s.len(),
        trim_end_of(s) == s.take(b),
        forall|i: int| b <= i < s.len() ==> white(#[trigger] s[i]),
        b > 0 ==> !white(s[b - 1]),
    decreases s.len(),
{
    if s.len() > 0 && white(s.last()) {
        let rest = s.drop_last();
        let b = lemma_trim_end(rest);
        assert(rest.take(b) =~= s.take(b));
        assert forall|i: int| b <= i < s.len() implies white(#[trigger] s[i]) by {
            if i < rest.len() {
                assert(rest[i] == s[i]);
            }
        }
        b
    } else {
        assert(s.take(s.len() as int) =~= s);
        s.len() as int
    }
}

/// Only the characters asked for go from the end, and all of them.
pub proof fn a_text_loses_what_it_ends_in(s: Seq<char>, c: char)
    ensures
        trim_end_char_of(s, c).len() <= s.len(),
        trim_end_char_of(s, c) == s.take(trim_end_char_of(s, c).len() as int),
        forall|i: int| trim_end_char_of(s, c).len() <= i < s.len() ==> #[trigger] s[i] == c,
        trim_end_char_of(s, c).len() > 0 ==> trim_end_char_of(s, c).last() != c,
    decreases s.len(),
{
    let t = trim_end_char_of(s, c);
    if s.len() > 0 && s.last() == c {
        let rest = s.drop_last();
        a_text_loses_what_it_ends_in(rest, c);
        assert(rest.take(t.len() as int) =~= s.take(t.len() as int));
        assert forall|i: int| t.len() <= i < s.len() implies #[trigger] s[i] == c by {
            if i < rest.len() {
                assert(rest[i] == s[i]);
            }
        }
    } else {
        assert(s.take(s.len() as int) =~= s);
    }
}

/// From `span.0` up to `span.1` stands a whole word of the text: no space in it,
/// and a space or an end on either side.
pub open spec fn is_whole_word(s: Seq<char>, span: (int, int)) -> bool {
    &&& 0 <= span.0 < span.1 <= s.len()
    &&& forall|i: int| span.0 <= i < span.1 ==> !white(#[trigger] s[i])
    &&& span.0 == 0 || white(s[span.0 - 1])
    &&& span.1 == s.len() || white(s[span.1])
}

/// The `i`th character stands within one of the spans.
pub open spec fn stands_within(spans: Seq<(int, int)>, i: int) -> bool {
    exists|k: int| 0 <= k < spans.len() && (#[trigger] spans[k]).0 <= i < spans[k].1
}

/// The words of a text are its whole words, all of them and in their order.
pub proof fn words_are_the_whole_words(s: Seq<char>) -> (spans: Seq<(int, int)>)
    ensures
        spans.len() == words_of(s).len(),
        forall|k: int|
            0 <= k < spans.len() ==> is_whole_word(s, #[trigger] spans[k]) && words_of(s)[k]
                == s.subrange(spans[k].0, spans[k].1),
        forall|k: int, l: int|
            0 <= k < l < spans.len() ==> (#[trigger] spans[k]).1 < (#[trigger] spans[l]).0,
        forall|i: int|
            0 <= i < s.len() && !white(#[trigger] s[i]) ==> stands_within(spans, i),
{
    let (spans, from) = lemma_words_stand(s);
    let (closed, open) = words_so_far(s);
    if open.len() > 0 {
        let all = spans.push((from, s.len() as int));
        assert(words_of(s) == closed.push(open));
        assert forall|k: int| 0 <= k < all.len() implies is_whole_word(s, #[trigger] all[k])
            && words_of(s)[k] == s.subrange(all[k].0, all[k].1) by {
            if k < spans.len() {
                assert(all[k] == spans[k]);
            }
        }
        assert forall|k: int, l: int| 0 <= k < l < all.len() implies (#[trigger] all[k]).1 < (
        #[trigger] all[l]).0 by {
            assert(all[k] == spans[k]);
            if l < spans.len() {
                assert(all[l] == spans[l]);
            }
        }
        assert forall|i: int| 0 <= i < s.len() && !white(#[trigger] s[i]) implies stands_within(all, i) by {
            if i < from {
                let k = choose|k: int|
                    0 <= k < spans.len() && (#[trigger] spans[k]).0 <= i < spans[k].1;
                assert(all[k] == spans[k]);
            } else {
                assert(all[spans.len() as int] == (from, s.len() as int));
            }
        }
        all
    } else {
        spans
    }
}

/// The closed words stand at `spans`, and the open one from `from` to the end.
proof fn lemma_words_stand(s: Seq<char>) -> (found: (Seq<(int, int)>, int))
    ensures
        found.0.len() == words_so_far(s).0.len(),
        0 <= found.1 <= s.len(),
        words_so_far(s).1 == s.skip(found.1),
        forall|i: int| found.1 <= i < s.len() ==> !white(#[trigger] s[i]),
        found.1 == 0 || white(s[found.1 - 1]),
        forall|k: int|
            0 <= k < found.0.len() ==> is_whole_word(s, #[trigger] found.0[k]) && words_so_far(s).0[k]
                == s.subrange(found.0[k].0, found.0[k].1) && found.0[k].1 < found.1,
        forall|k: int, l: int|
            0 <= k < l < found.0.len() ==> (#[trigger] found.0[k]).1 < (#[trigger] found.0[l]).0,
        forall|i: int|
            0 <= i < found.1 && !white(#[trigger] s[i]) ==> stands_within(found.0, i),
    decreases s.len(),
{
    if s.len() == 0 {
        assert(s.skip(0) =~= Seq::<char>::empty());
        (Seq::empty(), 0)
    } else {
        let t = s.drop_last();
        let n = t.len() as int;
        let (spans, from) = lemma_words_stand(t);
        let (closed, open) = words_so_far(t);
        assert forall|k: int| 0 <= k < spans.len() implies is_whole_word(s, #[trigger] spans[k])
            && closed[k] == s.subrange(spans[k].0, spans[k].1) by {
            assert(is_whole_word(t, spans[k]));
            assert(t.subrange(spans[k].0, spans[k].1) =~= s.subrange(spans[k].0, spans[k].1));
            assert forall|i: int| spans[k].0 <= i < spans[k].1 implies !white(#[trigger] s[i]) by {
                assert(t[i] == s[i]);
            }
            assert(s[spans[k].1] == t[spans[k].1]);
        }
        if !white(s.last()) {
            assert(open.push(s.last()) =~= s.skip(from));
            assert forall|i: int| from <= i < s.len() implies !white(#[trigger] s[i]) by {
                if i < n {
                    assert(t[i] == s[i]);
                }
            }
            assert forall|i: int| 0 <= i < from && !white(#[trigger] s[i]) implies stands_within(spans, i) by {
                assert(t[i] == s[i]);
            }
            (spans, from)
        } else {
            let more = if open.len() > 0 {
                spans.push((from, n))
            } else {
                spans
            };
            assert(s.skip(s.len() as int) =~= Seq::<char>::empty());
            if open.len() > 0 {
                assert(open =~= s.subrange(from, n));
                assert forall|i: int| from <= i < n implies !white(#[trigger] s[i]) by {
                    assert(t[i] == s[i]);
                }
                assert(is_whole_word(s, (from, n)));
            }
            assert forall|k: int| 0 <= k < more.len() implies is_whole_word(s, #[trigger] more[k])
                && words_so_far(s).0[k] == s.subrange(more[k].0, more[k].1) && more[k].1
                < s.len() by {
                if k < spans.len() {
                    assert(more[k] == spans[k]);
                }
            }
            assert forall|k: int, l: int| 0 <= k < l < more.len() implies (#[trigger] more[k]).1 < (
            #[trigger] more[l]).0 by {
                assert(more[k] == spans[k]);
                if l < spans.len() {
                    assert(more[l] == spans[l]);
                }
            }
            assert forall|i: int| 0 <= i < s.len() && !white(#[trigger] s[i]) implies stands_within(more, i) by {
                assert(i < n);
                assert(t[i] == s[i]);
                if i < from {
                    let k = choose|k: int|
                        0 <= k < spans.len() && (#[trigger] spans[k]).0 <= i < spans[k].1;
                    assert(more[k] == spans[k]);
                } else {
                    assert(open.len() > 0);
                    assert(more[spans.len() as int] == (from, n));
                }
            }
            (more, s.len() as int)
        }
    }
}

/// The pieces, put together again with the separator between them.
pub open spec fn put_together(pieces: Seq<Seq<char>>, sep: char) -> Seq<char>
    decreases pieces.len(),
{
    if pieces.len() == 0 {
        Seq::empty()
    } else if pieces.len() == 1 {
        pieces[0]
    } else {
        put_together(pieces.drop_last(), sep) + seq![sep] + pieces.last()
    }
}

/// Cut at a separator, no piece holds it, and put together again with it they are
/// the text.
pub proof fn pieces_make_the_text_again(s: Seq<char>, sep: char)
    ensures
        pieces_of(s, sep).len() > 0,
        forall|k: int|
            0 <= k < pieces_of(s, sep).len() ==> !(#[trigger] pieces_of(s, sep)[k]).contains(sep),
        put_together(pieces_of(s, sep), sep) == s,
    decreases s.len(),
{
    let pieces = pieces_of(s, sep);
    if s.len() > 0 {
        let t = s.drop_last();
        let rest = pieces_of(t, sep);
        pieces_make_the_text_again(t, sep);
        let last = rest.len() - 1;
        if s.last() == sep {
            assert(pieces.drop_last() =~= rest);
            assert(put_together(pieces, sep) =~= t + seq![sep]);
            assert(t + seq![sep] =~= s);
        } else {
            let grown = rest.last().push(s.last());
            assert forall|k: int| 0 <= k < pieces.len() implies !(#[trigger] pieces[k]).contains(
                sep,
            ) by {
                if k == last {
                    if grown.contains(sep) {
                        let i = choose|i: int| 0 <= i < grown.len() && grown[i] == sep;
                        assert(rest[last][i] == sep);
                        assert(rest[last].contains(sep));
                    }
                } else {
                    assert(pieces[k] == rest[k]);
                }
            }
            if rest.len() == 1 {
                assert(pieces[0] == grown);
                assert(grown =~= s);
            } else {
                assert(pieces.drop_last() =~= rest.drop_last());
                assert(pieces.last() == grown);
                assert(put_together(pieces, sep) =~= put_together(rest, sep).push(s.last()));
                assert(t.push(s.last()) =~= s);
            }
        }
    } else {
        assert(put_together(pieces, sep) =~= s);
    }
}

/// A letter of the alphabet is put in upper case, anything else stays.
pub proof fn letters_are_put_in_upper_case(s: Seq<char>, i: int)
    requires
        0 <= i < s.len(),
    ensures
        ascii_upper_of(s).len() == s.len(),
        97 <= s[i] as int <= 122 ==> ascii_upper_of(s)[i] as int == s[i] as int - 32,
        !(97 <= s[i] as int <= 122) ==> ascii_upper_of(s)[i] == s[i],
{
}

/// A text occurs in another where a part of it is that text, and begins it where
/// that part comes first.
pub proof fn a_text_occurs_as_a_part(hay: Seq<char>, needle: Seq<char>)
    ensures
        occurs_in(hay, needle) <==> exists|before: Seq<char>, after: Seq<char>|
            hay == #[trigger] (before + needle + after),
        begins_with(hay, needle) <==> exists|after: Seq<char>| hay == #[trigger] (needle + after),
{
    if occurs_in(hay, needle) {
        let at = choose|at: int| occurs_at(hay, needle, at);
        let before = hay.take(at);
        let after = hay.skip(at + needle.len());
        assert(hay =~= before + needle + after);
    }
    if exists|before: Seq<char>, after: Seq<char>| hay == #[trigger] (before + needle + after) {
        let (before, after) = choose|before: Seq<char>, after: Seq<char>|
            hay == #[trigger] (before + needle + after);
        let at = before.len() as int;
        assert(hay.subrange(at, at + needle.len()) =~= needle);
        assert(occurs_at(hay, needle, at));
    }
    if begins_with(hay, needle) {
        let after = hay.skip(needle.len() as int);
        assert(hay =~= needle + after);
    }
    if exists|after: Seq<char>| hay == #[trigger] (needle + after) {
        let after = choose|after: Seq<char>| hay == #[trigger] (needle + after);
        assert(hay.subrange(0, needle.len() as int) =~= needle);
    }
}

// ------------------------------------------------------------------ numbers

/// What a run of the digits from nought to nine is worth to the base of ten.
pub open spec fn amount(s: Seq<char>) -> int
    decreases s.len(),
{
    if s.len() == 0 {
        0
    } else {
        10 * amount(s.take(s.len() - 1)) + (s[s.len() - 1] as int - '0' as int)
    }
}

/// There is something, and it is all digits from nought to nine.
pub open spec fn is_figure(s: Seq<char>) -> bool {
    s.len() > 0 && forall|i: int| 0 <= i < s.len() ==> '0' <= #[trigger] s[i] <= '9'
}

proof fn lemma_amount(s: Seq<char>)
    requires
        forall|i: int| 0 <= i < s.len() ==> '0' <= #[trigger] s[i] <= '9',
    ensures
        digits_value(s) == amount(s),
    decreases s.len(),
{
    if s.len() > 0 {
        let less = s.drop_last();
        assert(less =~= s.take(s.len() - 1));
        assert forall|i: int| 0 <= i < less.len() implies '0' <= #[trigger] less[i] <= '9' by {
            assert(less[i] == s[i]);
        }
        lemma_amount(less);
    }
}

/// A number is written in digits, without a nought before the others, and they
/// are worth that number.
pub proof fn a_number_is_written_in_its_digits(n: nat)
    ensures
        is_figure(digits(n)),
        amount(digits(n)) == n,
        n > 0 ==> digits(n)[0] != '0',
        signed_digits(n as int) == digits(n),
        n > 0 ==> signed_digits(-(n as int)) == seq!['-'] + digits(n),
    decreases n,
{
    if n >= 10 {
        a_number_is_written_in_its_digits(n / 10);
        let s = digits(n);
        assert(s.take(s.len() - 1) =~= digits(n / 10));
        assert forall|i: int| 0 <= i < s.len() implies '0' <= #[trigger] s[i] <= '9' by {
            if i < s.len() - 1 {
                assert(s[i] == digits(n / 10)[i]);
            }
        }
        assert(s[0] == digits(n / 10)[0]);
    } else {
        let s = digits(n);
        assert(s.take(0) =~= Seq::empty());
        assert(amount(s.take(0)) == 0);
    }
}

/// A number is read where there are only digits, with a sign before them or
/// none, and it is what they are worth.
pub proof fn a_number_is_what_its_digits_are_worth(s: Seq<char>)
    ensures
        is_figure(s) ==> number_of(s) == Some(amount(s)),
        number_of(seq!['-'] + s) == (if is_figure(s) {
            Some(-amount(s))
        } else {
            None
        }),
        number_of(seq!['+'] + s) == (if is_figure(s) {
            Some(amount(s))
        } else {
            None
        }),
        !is_figure(s) && (s.len() == 0 || (s[0] != '+' && s[0] != '-')) ==> number_of(s) is None,
{
    assert((seq!['-'] + s).skip(1) =~= s);
    assert((seq!['+'] + s).skip(1) =~= s);
    if is_figure(s) {
        lemma_amount(s);
    }
}

/// Below a hundred a number is written in two digits.
pub proof fn two_digits_are_written(n: nat)
    requires
        n < 100,
    ensures
        two_places(n).len() == 2,
        is_figure(two_places(n)),
        amount(two_places(n)) == n,
{
    let s = two_places(n);
    a_number_is_written_in_its_digits(n);
    if n < 10 {
        assert(s =~= seq!['0', digits(n)[0]]);
        assert(s.take(1) =~= seq!['0']);
        assert(s.take(1).take(0) =~= Seq::empty());
        assert(amount(s.take(1).take(0)) == 0);
        assert(amount(s.take(1)) == 0);
        assert(digits(n).take(0) =~= Seq::empty());
        assert(amount(digits(n).take(0)) == 0);
    } else {
        assert(digits(n) == digits(n / 10).push(crate::strings::digit_char(n % 10)));
        assert(digits(n / 10).len() == 1);
    }
}

/// White space is the tab to the carriage return, the space, and what Unicode
/// has besides: twenty-five characters in all.
pub proof fn these_characters_are_white(c: char)
    ensures
        white(c) <==> 9 <= c as int <= 13 || c as int == 32 || c as int == 133 || c as int == 160
            || c as int == 5760 || 8192 <= c as int <= 8202 || c as int == 8232 || c as int == 8233
            || c as int == 8239 || c as int == 8287 || c as int == 12288,
{
}

} // verus!
