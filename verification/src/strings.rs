//! Text as sequences of characters: the handful of string operations the
//! library is built from.

use vstd::prelude::*;

verus! {

// ------------------------------------------------------------ outside calls

/// `String::push` appends the character to the end of the string.
pub assume_specification[ String::push ](s: &mut String, c: char)
    ensures
        final(s)@ == old(s)@.push(c),
;

/// What `str::to_lowercase` makes of a text. Unicode's lowercase mapping,
/// locale-independent, so the same text always gives the same result.
pub uninterp spec fn lower_of(s: Seq<char>) -> Seq<char>;

/// Calls `str::to_lowercase`. The result is named, not spelled out: the
/// mapping is Unicode's table.
#[verifier::external_body]
pub(crate) fn lowercase(s: &str) -> (low: String)
    ensures
        low@ == lower_of(s@),
{
    s.to_lowercase()
}

// ------------------------------------------------------------- conversions

pub fn chars_of(s: &str) -> (chars: Vec<char>)
    ensures
        chars@ == s@,
{
    let mut chars: Vec<char> = Vec::new();
    for c in it: s.chars()
        invariant
            chars@ == s@.take(it.index()),
            it.seq() == s@,
    {
        chars.push(c);
    }
    assert(s@.take(s@.len() as int) =~= s@);
    chars
}

pub fn text_of(chars: &[char]) -> (text: String)
    ensures
        text@ == chars@,
{
    let mut text = String::new();
    let mut i: usize = 0;
    while i < chars.len()
        invariant
            i <= chars@.len(),
            text@ == chars@.take(i as int),
        decreases chars@.len() - i,
    {
        text.push(chars[i]);
        i = i + 1;
    }
    assert(chars@.take(chars@.len() as int) =~= chars@);
    text
}

/// `chars[from..to]` as text.
pub fn slice_text(chars: &[char], from: usize, to: usize) -> (text: String)
    requires
        from <= to <= chars@.len(),
    ensures
        text@ == chars@.subrange(from as int, to as int),
{
    let mut text = String::new();
    let mut i: usize = from;
    while i < to
        invariant
            from <= i <= to <= chars@.len(),
            text@ == chars@.subrange(from as int, i as int),
        decreases to - i,
    {
        text.push(chars[i]);
        i = i + 1;
    }
    text
}

/// Whether two texts are the same.
pub fn same(a: &str, b: &str) -> (yes: bool)
    ensures
        yes == (a@ == b@),
{
    a.to_owned() == b.to_owned()
}

pub fn push_text(out: &mut String, text: &str)
    ensures
        final(out)@ == old(out)@ + text@,
{
    let ghost start = out@;
    for c in it: text.chars()
        invariant
            out@ == start + text@.take(it.index()),
            it.seq() == text@,
    {
        out.push(c);
    }
    assert(text@.take(text@.len() as int) =~= text@);
}

/// `a` followed by `b`.
pub fn joined(a: &str, b: &str) -> (out: String)
    ensures
        out@ == a@ + b@,
{
    let mut out = String::new();
    push_text(&mut out, a);
    push_text(&mut out, b);
    out
}

// -------------------------------------------------------------- whitespace

/// Unicode's `White_Space` property, which is what `char::is_whitespace`
/// tests.
pub open spec fn white(c: char) -> bool {
    ||| '\u{9}' <= c <= '\u{d}'
    ||| c == ' '
    ||| c == '\u{85}'
    ||| c == '\u{a0}'
    ||| c == '\u{1680}'
    ||| '\u{2000}' <= c <= '\u{200a}'
    ||| c == '\u{2028}'
    ||| c == '\u{2029}'
    ||| c == '\u{202f}'
    ||| c == '\u{205f}'
    ||| c == '\u{3000}'
}

pub fn is_white(c: char) -> (yes: bool)
    ensures
        yes == white(c),
{
    ('\u{9}' <= c && c <= '\u{d}') || c == ' ' || c == '\u{85}' || c == '\u{a0}' || c == '\u{1680}'
        || ('\u{2000}' <= c && c <= '\u{200a}') || c == '\u{2028}' || c == '\u{2029}' || c
        == '\u{202f}' || c == '\u{205f}' || c == '\u{3000}'
}

/// `s` without its leading whitespace.
pub open spec fn trim_start_of(s: Seq<char>) -> Seq<char>
    decreases s.len(),
{
    if s.len() > 0 && white(s[0]) {
        trim_start_of(s.drop_first())
    } else {
        s
    }
}

/// `s` without its trailing whitespace.
pub open spec fn trim_end_of(s: Seq<char>) -> Seq<char>
    decreases s.len(),
{
    if s.len() > 0 && white(s.last()) {
        trim_end_of(s.drop_last())
    } else {
        s
    }
}

/// `s` without its surrounding whitespace.
pub open spec fn trim_of(s: Seq<char>) -> Seq<char> {
    trim_end_of(trim_start_of(s))
}

/// `s` without the `c`s it ends in.
pub open spec fn trim_end_char_of(s: Seq<char>, c: char) -> Seq<char>
    decreases s.len(),
{
    if s.len() > 0 && s.last() == c {
        trim_end_char_of(s.drop_last(), c)
    } else {
        s
    }
}

fn start_of_text(chars: &[char]) -> (from: usize)
    ensures
        from <= chars@.len(),
        chars@.skip(from as int) == trim_start_of(chars@),
{
    let mut from: usize = 0;
    assert(chars@.skip(0) =~= chars@);
    while from < chars.len() && is_white(chars[from])
        invariant
            from <= chars@.len(),
            trim_start_of(chars@.skip(from as int)) == trim_start_of(chars@),
        decreases chars@.len() - from,
    {
        proof {
            let rest = chars@.skip(from as int);
            assert(rest[0] == chars@[from as int]);
            assert(rest.drop_first() =~= chars@.skip(from + 1));
        }
        from = from + 1;
    }
    from
}

pub fn trim_start(text: &str) -> (out: String)
    ensures
        out@ == trim_start_of(text@),
{
    let chars = chars_of(text);
    let from: usize = start_of_text(&chars);
    let out = slice_text(&chars, from, chars.len());
    assert(out@ =~= chars@.skip(from as int));
    out
}

pub fn trim(text: &str) -> (out: String)
    ensures
        out@ == trim_of(text@),
{
    let chars = chars_of(text);
    let from: usize = start_of_text(&chars);
    let mut to: usize = chars.len();
    assert(chars@.subrange(from as int, to as int) =~= chars@.skip(from as int));
    while from < to && is_white(chars[to - 1])
        invariant
            from <= to <= chars@.len(),
            trim_end_of(chars@.subrange(from as int, to as int)) == trim_of(chars@),
        decreases to - from,
    {
        proof {
            let kept = chars@.subrange(from as int, to as int);
            assert(kept.last() == chars@[to - 1]);
            assert(kept.drop_last() =~= chars@.subrange(from as int, to - 1));
        }
        to = to - 1;
    }
    slice_text(&chars, from, to)
}

pub fn trim_end_char(text: &str, c: char) -> (out: String)
    ensures
        out@ == trim_end_char_of(text@, c),
{
    let chars = chars_of(text);
    let mut to: usize = chars.len();
    assert(chars@.subrange(0, to as int) =~= chars@);
    while to > 0 && chars[to - 1] == c
        invariant
            to <= chars@.len(),
            trim_end_char_of(chars@.subrange(0, to as int), c) == trim_end_char_of(chars@, c),
        decreases to,
    {
        proof {
            let kept = chars@.subrange(0, to as int);
            assert(kept.last() == chars@[to - 1]);
            assert(kept.drop_last() =~= chars@.subrange(0, to - 1));
        }
        to = to - 1;
    }
    slice_text(&chars, 0, to)
}

// ------------------------------------------------------------------- words

/// Splitting on runs of whitespace, read from the left: the words already
/// closed by whitespace, and the one still open at the end.
pub open spec fn words_so_far(s: Seq<char>) -> (Seq<Seq<char>>, Seq<char>)
    decreases s.len(),
{
    if s.len() == 0 {
        (Seq::empty(), Seq::empty())
    } else {
        let (closed, open) = words_so_far(s.drop_last());
        if !white(s.last()) {
            (closed, open.push(s.last()))
        } else if open.len() > 0 {
            (closed.push(open), Seq::empty())
        } else {
            (closed, open)
        }
    }
}

/// The words of `s`: its maximal runs of characters that are not whitespace.
pub open spec fn words_of(s: Seq<char>) -> Seq<Seq<char>> {
    let (closed, open) = words_so_far(s);
    if open.len() > 0 {
        closed.push(open)
    } else {
        closed
    }
}

/// A text a whitespace split can produce: not empty, and free of whitespace.
pub open spec fn is_word(w: Seq<char>) -> bool {
    w.len() > 0 && forall|i: int| 0 <= i < w.len() ==> !white(#[trigger] w[i])
}

/// The views of a list of texts.
pub open spec fn views(texts: Seq<String>) -> Seq<Seq<char>> {
    texts.map_values(|t: String| t@)
}

proof fn lemma_words_so_far(s: Seq<char>)
    ensures
        forall|k: int|
            0 <= k < words_so_far(s).0.len() ==> is_word(#[trigger] words_so_far(s).0[k]),
        forall|i: int| 0 <= i < words_so_far(s).1.len() ==> !white(#[trigger] words_so_far(s).1[i]),
    decreases s.len(),
{
    if s.len() > 0 {
        lemma_words_so_far(s.drop_last());
        let (closed, open) = words_so_far(s.drop_last());
        assert forall|k: int| 0 <= k < words_so_far(s).0.len() implies is_word(
            #[trigger] words_so_far(s).0[k],
        ) by {
            if k < closed.len() {
                assert(words_so_far(s).0[k] == closed[k]);
            } else {
                assert(words_so_far(s).0[k] == open);
            }
        }
        assert forall|i: int| 0 <= i < words_so_far(s).1.len() implies !white(
            #[trigger] words_so_far(s).1[i],
        ) by {
            if i < open.len() {
                assert(words_so_far(s).1[i] == open[i]);
            }
        }
    }
}

/// Every piece that splitting on whitespace gives is a word.
pub proof fn words_are_words(s: Seq<char>)
    ensures
        forall|k: int| 0 <= k < words_of(s).len() ==> is_word(#[trigger] words_of(s)[k]),
{
    lemma_words_so_far(s);
}

pub fn words(text: &str) -> (out: Vec<String>)
    ensures
        views(out@) == words_of(text@),
{
    let chars = chars_of(text);
    let mut out: Vec<String> = Vec::new();
    let mut open = String::new();
    let mut empty: bool = true;
    let mut i: usize = 0;
    assert(views(out@) =~= Seq::empty());
    assert(chars@.take(0) =~= Seq::empty());
    while i < chars.len()
        invariant
            i <= chars@.len(),
            views(out@) == words_so_far(chars@.take(i as int)).0,
            open@ == words_so_far(chars@.take(i as int)).1,
            empty == (open@.len() == 0),
        decreases chars@.len() - i,
    {
        let c = chars[i];
        proof {
            assert(chars@.take(i + 1).drop_last() =~= chars@.take(i as int));
            assert(chars@.take(i + 1).last() == c);
        }
        if !is_white(c) {
            open.push(c);
            empty = false;
        } else if !empty {
            let ghost earlier = out@;
            out.push(open);
            assert(views(out@) =~= views(earlier).push(open@));
            open = String::new();
            empty = true;
        }
        i = i + 1;
    }
    assert(chars@.take(chars@.len() as int) =~= chars@);
    if !empty {
        let ghost earlier = out@;
        out.push(open);
        assert(views(out@) =~= views(earlier).push(open@));
    }
    out
}

// --------------------------------------------------------------- searching

/// `needle` stands in `hay` at `at`.
pub open spec fn occurs_at(hay: Seq<char>, needle: Seq<char>, at: int) -> bool {
    0 <= at && at + needle.len() <= hay.len() && hay.subrange(at, at + needle.len()) == needle
}

pub open spec fn occurs_in(hay: Seq<char>, needle: Seq<char>) -> bool {
    exists|at: int| occurs_at(hay, needle, at)
}

pub open spec fn begins_with(s: Seq<char>, prefix: Seq<char>) -> bool {
    occurs_at(s, prefix, 0)
}

/// Whether `needle` stands in `hay` at `at`.
pub fn matches_at(hay: &[char], needle: &[char], at: usize) -> (yes: bool)
    requires
        at <= hay@.len(),
    ensures
        yes == occurs_at(hay@, needle@, at as int),
{
    if needle.len() > hay.len() - at {
        return false;
    }
    let mut i: usize = 0;
    while i < needle.len()
        invariant
            i <= needle@.len(),
            at + needle@.len() <= hay@.len(),
            hay@.len() <= usize::MAX,
            forall|k: int| 0 <= k < i ==> hay@[at + k] == #[trigger] needle@[k],
        decreases needle@.len() - i,
    {
        if hay[at + i] != needle[i] {
            assert(hay@.subrange(at as int, at + needle@.len())[i as int] == hay@[at + i]);
            return false;
        }
        i = i + 1;
    }
    assert(hay@.subrange(at as int, at + needle@.len()) =~= needle@);
    true
}

pub fn contains_chars(hay: &[char], needle: &[char]) -> (yes: bool)
    ensures
        yes == occurs_in(hay@, needle@),
{
    let mut at: usize = 0;
    while at < hay.len()
        invariant
            at <= hay@.len(),
            forall|k: int| 0 <= k < at ==> !occurs_at(hay@, needle@, k),
        decreases hay@.len() - at,
    {
        if matches_at(hay, needle, at) {
            return true;
        }
        at = at + 1;
    }
    let last: bool = matches_at(hay, needle, at);
    proof {
        if occurs_in(hay@, needle@) {
            let k = choose|k: int| occurs_at(hay@, needle@, k);
            assert(k == at);
        }
    }
    last
}

/// Whether `needle` stands anywhere in `hay`.
pub fn contains(hay: &str, needle: &str) -> (yes: bool)
    ensures
        yes == occurs_in(hay@, needle@),
{
    contains_chars(&chars_of(hay), &chars_of(needle))
}

pub fn starts_with(text: &str, prefix: &str) -> (yes: bool)
    ensures
        yes == begins_with(text@, prefix@),
{
    matches_at(&chars_of(text), &chars_of(prefix), 0)
}

// --------------------------------------------------------------- splitting

/// The pieces of `s` between occurrences of `sep`. There is always one more
/// piece than there are separators.
pub open spec fn pieces_of(s: Seq<char>, sep: char) -> Seq<Seq<char>>
    decreases s.len(),
{
    if s.len() == 0 {
        seq![Seq::<char>::empty()]
    } else {
        let rest = pieces_of(s.drop_last(), sep);
        if s.last() == sep {
            rest.push(Seq::<char>::empty())
        } else {
            rest.update(rest.len() - 1, rest.last().push(s.last()))
        }
    }
}

pub proof fn pieces_are_never_none(s: Seq<char>, sep: char)
    ensures
        pieces_of(s, sep).len() > 0,
    decreases s.len(),
{
    if s.len() > 0 {
        pieces_are_never_none(s.drop_last(), sep);
    }
}

pub fn pieces(text: &str, sep: char) -> (out: Vec<String>)
    ensures
        views(out@) == pieces_of(text@, sep),
        out@.len() > 0,
{
    let chars = chars_of(text);
    let mut closed: Vec<String> = Vec::new();
    let mut open = String::new();
    let mut i: usize = 0;
    assert(chars@.take(0) =~= Seq::empty());
    assert(views(closed@).push(open@) =~= seq![Seq::<char>::empty()]);
    while i < chars.len()
        invariant
            i <= chars@.len(),
            views(closed@).push(open@) == pieces_of(chars@.take(i as int), sep),
        decreases chars@.len() - i,
    {
        let c = chars[i];
        let ghost rest = views(closed@).push(open@);
        proof {
            assert(chars@.take(i + 1).drop_last() =~= chars@.take(i as int));
            assert(chars@.take(i + 1).last() == c);
        }
        if c == sep {
            let ghost earlier = closed@;
            closed.push(open);
            assert(views(closed@) =~= views(earlier).push(open@));
            open = String::new();
            assert(views(closed@).push(open@) =~= rest.push(Seq::<char>::empty()));
        } else {
            open.push(c);
            assert(views(closed@).push(open@) =~= rest.update(
                rest.len() - 1,
                rest.last().push(c),
            ));
        }
        i = i + 1;
    }
    assert(chars@.take(chars@.len() as int) =~= chars@);
    let ghost earlier = closed@;
    closed.push(open);
    assert(views(closed@) =~= views(earlier).push(open@));
    closed
}

// ----------------------------------------------------------------- numbers

pub open spec fn is_digit(c: char) -> bool {
    '0' <= c <= '9'
}

pub open spec fn all_digits(s: Seq<char>) -> bool {
    forall|i: int| 0 <= i < s.len() ==> is_digit(#[trigger] s[i])
}

pub open spec fn digit_char(n: nat) -> char {
    (48 + n) as char
}

/// A number in decimal, without sign or leading zeros.
pub open spec fn digits(n: nat) -> Seq<char>
    decreases n,
{
    if n < 10 {
        seq![digit_char(n)]
    } else {
        digits(n / 10).push(digit_char(n % 10))
    }
}

/// A whole number in decimal, with a minus sign where it is negative.
pub open spec fn signed_digits(n: int) -> Seq<char> {
    if n < 0 {
        seq!['-'] + digits((-n) as nat)
    } else {
        digits(n as nat)
    }
}

/// What a run of decimal digits stands for.
pub open spec fn digits_value(s: Seq<char>) -> nat
    decreases s.len(),
{
    if s.len() == 0 {
        0
    } else {
        (digits_value(s.drop_last()) * 10 + (s.last() as int - 48)) as nat
    }
}

/// The digits of a number read back as that number.
pub proof fn digits_read_back(n: nat)
    ensures
        digits(n).len() > 0,
        all_digits(digits(n)),
        digits_value(digits(n)) == n,
    decreases n,
{
    if n < 10 {
        let one = digits(n);
        assert(one.drop_last() =~= Seq::<char>::empty());
        assert(digits_value(one.drop_last()) == 0);
        assert(one.last() == digit_char(n));
    } else {
        digits_read_back(n / 10);
        let all = digits(n);
        assert(all.drop_last() =~= digits(n / 10));
        assert(all.last() == digit_char(n % 10));
        assert forall|i: int| 0 <= i < all.len() implies is_digit(#[trigger] all[i]) by {
            if i < all.len() - 1 {
                assert(all[i] == digits(n / 10)[i]);
            }
        }
    }
}

proof fn lemma_value_grows(s: Seq<char>, upto: int)
    requires
        all_digits(s),
        0 <= upto <= s.len(),
    ensures
        digits_value(s.take(upto)) <= digits_value(s),
    decreases s.len() - upto,
{
    if upto < s.len() {
        lemma_value_grows(s, upto + 1);
        assert(s.take(upto + 1).drop_last() =~= s.take(upto));
        assert(is_digit(s[upto]));
    } else {
        assert(s.take(upto) =~= s);
    }
}

/// The decimal digits of `n`.
pub fn decimal(n: u128) -> (text: String)
    ensures
        text@ == digits(n as nat),
    decreases n,
{
    let mut text = if n < 10 {
        String::new()
    } else {
        decimal(n / 10)
    };
    text.push((48u8 + (n % 10) as u8) as char);
    assert(n < 10 ==> text@ =~= digits(n as nat));
    text
}

pub fn decimal_signed(n: i64) -> (text: String)
    ensures
        text@ == signed_digits(n as int),
{
    if n < 0 {
        let mut text = String::new();
        text.push('-');
        let size: i128 = -(n as i128);
        push_text(&mut text, decimal(size as u128).as_str());
        assert(text@ =~= signed_digits(n as int));
        text
    } else {
        decimal(n as u128)
    }
}

/// The number a text of digits holds, where it is one that fits.
fn digits_from(chars: &[char], from: usize) -> (value: Option<u64>)
    requires
        from <= chars@.len(),
    ensures
        value == (if from < chars@.len() && all_digits(chars@.skip(from as int)) && digits_value(
            chars@.skip(from as int),
        ) <= u64::MAX {
            Some(digits_value(chars@.skip(from as int)) as u64)
        } else {
            None
        }),
{
    let ghost run = chars@.skip(from as int);
    if from == chars.len() {
        return None;
    }
    let mut value: u64 = 0;
    let mut i: usize = from;
    assert(run.take(0) =~= Seq::<char>::empty());
    while i < chars.len()
        invariant
            from <= i <= chars@.len(),
            run == chars@.skip(from as int),
            forall|k: int| 0 <= k < i - from ==> is_digit(#[trigger] run[k]),
            value == digits_value(run.take(i - from)),
        decreases chars@.len() - i,
    {
        let c: char = chars[i];
        proof {
            assert(run[i - from] == c);
            assert(run.take(i - from + 1).drop_last() =~= run.take(i - from));
            assert(run.take(i - from + 1).last() == c);
            if all_digits(run) {
                lemma_value_grows(run, i - from + 1);
            }
        }
        if !('0' <= c && c <= '9') {
            return None;
        }
        let digit: u64 = (c as u8 - 48) as u64;
        if value > (u64::MAX - digit) / 10 {
            return None;
        }
        value = value * 10 + digit;
        i = i + 1;
    }
    assert(run.take(run.len() as int) =~= run);
    Some(value)
}

/// The whole number a text stands for: an optional sign, then digits and
/// nothing else.
pub open spec fn number_of(s: Seq<char>) -> Option<int> {
    let signed = s.len() > 0 && (s[0] == '+' || s[0] == '-');
    let run = if signed {
        s.skip(1)
    } else {
        s
    };
    if run.len() > 0 && all_digits(run) {
        Some(
            if s[0] == '-' {
                -(digits_value(run) as int)
            } else {
                digits_value(run) as int
            },
        )
    } else {
        None
    }
}

/// Reads an `i64`, as `str::parse` does.
pub fn parse_i64(text: &str) -> (value: Option<i64>)
    ensures
        value == (match number_of(text@) {
            Some(n) => if i64::MIN <= n <= i64::MAX {
                Some(n as i64)
            } else {
                None
            },
            None => None,
        }),
{
    let chars = chars_of(text);
    let negative: bool = chars.len() > 0 && chars[0] == '-';
    let signed: bool = negative || (chars.len() > 0 && chars[0] == '+');
    let from: usize = if signed {
        1
    } else {
        0
    };
    assert(chars@.skip(0) =~= chars@);
    match digits_from(&chars, from) {
        None => None,
        Some(size) => if negative {
            if size <= 9223372036854775808 {
                Some((-(size as i128)) as i64)
            } else {
                None
            }
        } else if size <= 9223372036854775807 {
            Some(size as i64)
        } else {
            None
        },
    }
}

/// Reads a `usize`, as `str::parse` does: a plus sign is accepted, a minus
/// sign is not.
pub fn parse_usize(text: &str) -> (value: Option<usize>)
    ensures
        value == (match number_of(text@) {
            Some(n) => if text@[0] != '-' && n <= usize::MAX {
                Some(n as usize)
            } else {
                None
            },
            None => None,
        }),
{
    let chars = chars_of(text);
    if chars.len() > 0 && chars[0] == '-' {
        return None;
    }
    let from: usize = if chars.len() > 0 && chars[0] == '+' {
        1
    } else {
        0
    };
    assert(chars@.skip(0) =~= chars@);
    match digits_from(&chars, from) {
        None => None,
        Some(size) => if size <= usize::MAX as u64 {
            Some(size as usize)
        } else {
            None
        },
    }
}

/// A number written by `decimal_signed` reads back as itself.
pub proof fn a_written_number_reads_back(n: int)
    ensures
        number_of(signed_digits(n)) == Some(n),
{
    let size: nat = if n < 0 {
        (-n) as nat
    } else {
        n as nat
    };
    digits_read_back(size);
    assert(is_digit(digits(size)[0]));
    if n < 0 {
        assert(signed_digits(n).skip(1) =~= digits(size));
    }
}

/// Padded with a zero to two places, as a clock shows its seconds.
pub open spec fn two_places(n: nat) -> Seq<char> {
    if n < 10 {
        seq!['0'] + digits(n)
    } else {
        digits(n)
    }
}

pub fn two_digits(n: u64) -> (text: String)
    ensures
        text@ == two_places(n as nat),
{
    if n < 10 {
        let mut text = String::new();
        text.push('0');
        push_text(&mut text, decimal(n as u128).as_str());
        assert(text@ =~= two_places(n as nat));
        text
    } else {
        decimal(n as u128)
    }
}

// --------------------------------------------------------------- ascii case

pub open spec fn upper_char(c: char) -> char {
    if 'a' <= c <= 'z' {
        (c as int - 32) as char
    } else {
        c
    }
}

/// `s` with its ASCII letters in upper case, every other character kept.
pub open spec fn ascii_upper_of(s: Seq<char>) -> Seq<char> {
    s.map_values(|c: char| upper_char(c))
}

pub fn ascii_upper(text: &str) -> (out: String)
    ensures
        out@ == ascii_upper_of(text@),
{
    let chars = chars_of(text);
    let mut out = String::new();
    let mut i: usize = 0;
    while i < chars.len()
        invariant
            i <= chars@.len(),
            out@ == ascii_upper_of(chars@.take(i as int)),
        decreases chars@.len() - i,
    {
        let c: char = chars[i];
        if 'a' <= c && c <= 'z' {
            out.push((c as u8 - 32) as char);
        } else {
            out.push(c);
        }
        assert(out@ =~= ascii_upper_of(chars@.take(i + 1)));
        i = i + 1;
    }
    assert(chars@.take(chars@.len() as int) =~= chars@);
    out
}

/// Upper-casing twice is upper-casing once.
pub proof fn ascii_upper_settles(s: Seq<char>)
    ensures
        ascii_upper_of(ascii_upper_of(s)) == ascii_upper_of(s),
{
    assert(ascii_upper_of(ascii_upper_of(s)) =~= ascii_upper_of(s));
}

} // verus!
