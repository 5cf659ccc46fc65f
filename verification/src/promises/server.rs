//! What is said to the server and read from it.

use crate::api::{hex_of, SyncFile};
use crate::backend::remote::{
    data_lines, drained, encoded, encoded_byte, frame_end, lines_of, plain_byte, refusal_text,
    stale, upper_hex_digit, url_text,
};
use crate::logbuffer::Logged;
use crate::promises::wording::lemma_trim_start;
use crate::strings::{begins_with, pieces_of, trim_of, white};
use vstd::prelude::*;
use vstd::utf8::encode_utf8;

verus! {

// ------------------------------------------------------------- in an address

/// What a digit to the base of sixteen is worth.
pub open spec fn worth(c: char) -> int {
    if '0' <= c <= '9' {
        c as int - '0' as int
    } else {
        c as int - 'A' as int + 10
    }
}

/// The bytes that a part of an address stands for: a percent sign and two
/// digits for one byte, any other character for its own.
pub open spec fn decoded(text: Seq<char>) -> Seq<u8>
    decreases text.len(),
{
    if text.len() == 0 {
        Seq::empty()
    } else if text[0] == '%' && text.len() >= 3 {
        seq![(16 * worth(text[1]) + worth(text[2])) as u8] + decoded(text.skip(3))
    } else {
        seq![text[0] as u8] + decoded(text.skip(1))
    }
}

/// A letter, a digit or one of the four signs that mean nothing to an address.
pub open spec fn is_harmless(c: char) -> bool {
    ||| 'A' <= c <= 'Z'
    ||| 'a' <= c <= 'z'
    ||| '0' <= c <= '9'
    ||| c == '-'
    ||| c == '_'
    ||| c == '.'
    ||| c == '~'
}

proof fn lemma_a_byte_is_read_back(b: u8, rest: Seq<char>)
    ensures
        decoded(encoded_byte(b) + rest) == seq![b] + decoded(rest),
        is_harmless(b as char) ==> encoded_byte(b) == seq![b as char],
        !is_harmless(b as char) ==> encoded_byte(b).len() == 3 && encoded_byte(b)[0] == '%',
{
    let text = encoded_byte(b) + rest;
    assert(plain_byte(b) == is_harmless(b as char));
    if plain_byte(b) {
        assert(text[0] == b as char);
        assert(text[0] != '%');
        assert((b as char) as u8 == b);
        assert(text.skip(1) =~= rest);
    } else {
        let high = b as int / 16;
        let low = b as int % 16;
        assert(0 <= high < 16 && 0 <= low < 16 && b == 16 * high + low);
        assert(text[0] == '%');
        assert(text[1] == upper_hex_digit(high));
        assert(text[2] == upper_hex_digit(low));
        assert(worth(upper_hex_digit(high)) == high);
        assert(worth(upper_hex_digit(low)) == low);
        assert(text.skip(3) =~= rest);
    }
}

proof fn lemma_encoded_from_the_front(bytes: Seq<u8>)
    requires
        bytes.len() > 0,
    ensures
        encoded(bytes) == encoded_byte(bytes[0]) + encoded(bytes.drop_first()),
    decreases bytes.len(),
{
    let less = bytes.drop_last();
    if less.len() == 0 {
        assert(bytes.drop_first() =~= Seq::empty());
        assert(encoded(less) =~= Seq::empty());
        assert(encoded(bytes) =~= encoded_byte(bytes[0]) + encoded(bytes.drop_first()));
    } else {
        lemma_encoded_from_the_front(less);
        assert(bytes.drop_first().drop_last() =~= less.drop_first());
        assert(encoded(bytes) =~= encoded_byte(bytes[0]) + encoded(bytes.drop_first()));
    }
}

proof fn lemma_encoding_reads_back(bytes: Seq<u8>)
    ensures
        decoded(encoded(bytes)) == bytes,
        (forall|i: int| 0 <= i < bytes.len() ==> is_harmless(#[trigger] bytes[i] as char))
            ==> encoded(bytes) == bytes.map_values(|b: u8| b as char),
    decreases bytes.len(),
{
    if bytes.len() == 0 {
        assert(encoded(bytes) =~= Seq::empty());
        assert(decoded(encoded(bytes)) =~= bytes);
        assert(encoded(bytes) =~= bytes.map_values(|b: u8| b as char));
    } else {
        let rest = bytes.drop_first();
        lemma_encoding_reads_back(rest);
        lemma_encoded_from_the_front(bytes);
        lemma_a_byte_is_read_back(bytes[0], encoded(rest));
        assert(seq![bytes[0]] + rest =~= bytes);
        if forall|i: int| 0 <= i < bytes.len() ==> is_harmless(#[trigger] bytes[i] as char) {
            assert forall|i: int| 0 <= i < rest.len() implies is_harmless(
                #[trigger] rest[i] as char,
            ) by {
                assert(rest[i] == bytes[i + 1]);
            }
            assert(encoded(bytes) =~= bytes.map_values(|b: u8| b as char));
        }
    }
}

/// A text in an address reads back as its bytes, and one of letters, digits
/// and the harmless signs alone stands as it is.
pub proof fn an_address_reads_back(text: Seq<char>)
    ensures
        decoded(url_text(text)) == encode_utf8(text),
        (forall|i: int|
            0 <= i < encode_utf8(text).len() ==> is_harmless(
                #[trigger] encode_utf8(text)[i] as char,
            )) ==> url_text(text) == encode_utf8(text).map_values(|b: u8| b as char),
{
    lemma_encoding_reads_back(encode_utf8(text));
}

// ------------------------------------------------------------------- the log

/// After more lines a log holds the last 400 of all it was told, and has
/// counted every one.
pub proof fn a_log_holds_the_latest(log: Logged, more: Seq<Seq<char>>)
    requires
        log.lines.len() <= 400,
        log.pushed + more.len() <= u64::MAX,
    ensures
        ({
            let all = log.lines + more;
            let now = log.with_all(more);
            &&& now.pushed == log.pushed + more.len()
            &&& now.lines.len() == (if all.len() < 400 {
                all.len() as int
            } else {
                400
            })
            &&& forall|i: int|
                0 <= i < now.lines.len() ==> #[trigger] now.lines[i] == all[all.len()
                    - now.lines.len() + i]
        }),
    decreases more.len(),
{
    let all = log.lines + more;
    let now = log.with_all(more);
    if more.len() > 0 {
        let less = more.drop_last();
        a_log_holds_the_latest(log, less);
        let before = log.with_all(less);
        let part = log.lines + less;
        assert(part.push(more.last()) =~= all);
        assert forall|i: int| 0 <= i < now.lines.len() implies #[trigger] now.lines[i] == all[all.len()
            - now.lines.len() + i] by {
            let grown = before.lines.push(more.last());
            let off = grown.len() - now.lines.len();
            assert(now.lines[i] == grown[i + off]);
            if i + off < before.lines.len() {
                assert(before.lines[i + off] == part[part.len() - before.lines.len() + i + off]);
            }
        }
    } else {
        assert(all =~= log.lines);
    }
}

/// A reader is given what was said since the number it has, the latest of it
/// where it is not all held any more, and nothing where it has it all.
pub proof fn a_reader_is_given_what_is_new(log: Logged, since: u64)
    requires
        log.lines.len() <= log.pushed,
    ensures
        ({
            let new = if since < log.pushed {
                log.pushed - since
            } else {
                0
            };
            let told = log.unseen(since);
            &&& told.len() == (if new < log.lines.len() {
                new
            } else {
                log.lines.len() as int
            })
            &&& forall|i: int|
                0 <= i < told.len() ==> #[trigger] told[i] == log.lines[log.lines.len() - told.len()
                    + i]
        }),
{
}

/// Clearing drops what is held and counts on from where the log was.
pub proof fn a_cleared_log_counts_on(log: Logged, line: Seq<char>)
    requires
        log.pushed < u64::MAX,
    ensures
        log.cleared().lines.len() == 0,
        log.cleared().with(line).lines == seq![line],
        log.cleared().with(line).pushed == log.pushed + 1,
        log.cleared().with(line).unseen(log.pushed) == seq![line],
{
    let now = log.cleared().with(line);
    assert(now.lines =~= seq![line]);
    assert(now.unseen(log.pushed) =~= seq![line]);
}

// ---------------------------------------------------------------- the stream

pub(crate) proof fn lemma_pieces_join(a: Seq<char>, b: Seq<char>, sep: char)
    ensures
        pieces_of(a + seq![sep] + b, sep) == pieces_of(a, sep) + pieces_of(b, sep),
    decreases b.len(),
{
    crate::strings::pieces_are_never_none(a, sep);
    crate::strings::pieces_are_never_none(b, sep);
    let all = a + seq![sep] + b;
    if b.len() == 0 {
        assert(all.drop_last() =~= a);
        assert(pieces_of(all, sep) =~= pieces_of(a, sep) + pieces_of(b, sep));
    } else {
        let less = b.drop_last();
        lemma_pieces_join(a, less, sep);
        crate::strings::pieces_are_never_none(less, sep);
        assert(all.drop_last() =~= a + seq![sep] + less);
        assert(pieces_of(all, sep) =~= pieces_of(a, sep) + pieces_of(b, sep));
    }
}

pub(crate) proof fn lemma_one_piece(s: Seq<char>, sep: char)
    requires
        forall|i: int| 0 <= i < s.len() ==> #[trigger] s[i] != sep,
    ensures
        pieces_of(s, sep) == seq![s],
    decreases s.len(),
{
    if s.len() == 0 {
        assert(s =~= Seq::empty());
    } else {
        let less = s.drop_last();
        assert forall|i: int| 0 <= i < less.len() implies #[trigger] less[i] != sep by {
            assert(less[i] == s[i]);
        }
        lemma_one_piece(less, sep);
        assert(less.push(s.last()) =~= s);
        assert(pieces_of(s, sep) =~= seq![s]);
    }
}

/// The line without the carriage return that it ends in, where it does.
pub open spec fn without_return(line: Seq<char>) -> Seq<char> {
    if line.len() > 0 && line[line.len() - 1] == '\r' {
        line.take(line.len() - 1)
    } else {
        line
    }
}

/// A text that has a newline is its first line, without a carriage return
/// before that newline, and the lines of what follows. One that has none is
/// one line, or no line where there is nothing in it.
pub proof fn a_text_is_read_line_by_line(line: Seq<char>, rest: Seq<char>)
    requires
        forall|i: int| 0 <= i < line.len() ==> #[trigger] line[i] != '\n',
    ensures
        lines_of(line + seq!['\n'] + rest) == seq![without_return(line)] + lines_of(rest),
        lines_of(line) == (if line.len() == 0 {
            Seq::empty()
        } else {
            seq![line]
        }),
{
    let cut = |line: Seq<char>|
        if line.len() > 0 && line.last() == '\r' {
            line.drop_last()
        } else {
            line
        };
    lemma_one_piece(line, '\n');
    lemma_pieces_join(line, rest, '\n');
    crate::strings::pieces_are_never_none(rest, '\n');
    let all = pieces_of(line + seq!['\n'] + rest, '\n');
    let later = pieces_of(rest, '\n');
    assert(all.drop_last() =~= seq![line] + later.drop_last());
    assert(all.last() == later.last());
    assert(all.drop_last().map_values(cut) =~= seq![cut(line)] + later.drop_last().map_values(cut));
    assert(cut(line) =~= without_return(line));
    assert(lines_of(line + seq!['\n'] + rest) =~= seq![without_return(line)] + lines_of(rest));
    assert(lines_of(line) =~= (if line.len() == 0 {
        Seq::empty()
    } else {
        seq![line]
    }));
}

/// The line says `data:` first.
pub open spec fn says_data(line: Seq<char>) -> bool {
    line.len() >= 5 && line[0] == 'd' && line[1] == 'a' && line[2] == 't' && line[3] == 'a'
        && line[4] == ':'
}

/// Of a frame's lines those that say `data:` are told, in their order, each
/// without that word and without the space before what follows.
pub proof fn only_data_is_told(lines: Seq<Seq<char>>, line: Seq<char>)
    ensures
        data_lines(Seq::empty()).len() == 0,
        !says_data(line) ==> data_lines(lines.push(line)) == data_lines(lines),
        says_data(line) ==> exists|at: int| #[trigger]
            opens_at(line, at) && data_lines(lines.push(line)) == data_lines(lines).push(
                line.skip(at),
            ),
{
    reveal_strlit("data:");
    assert(lines.push(line).drop_last() =~= lines);
    let mark = "data:"@;
    assert(begins_with(line, mark) == says_data(line)) by {
        if says_data(line) {
            assert(line.subrange(0, 5) =~= mark);
        }
        if begins_with(line, mark) {
            assert(line.subrange(0, 5) =~= mark);
            assert(line.subrange(0, 5)[0] == line[0] && line.subrange(0, 5)[1] == line[1]
                && line.subrange(0, 5)[2] == line[2] && line.subrange(0, 5)[3] == line[3]
                && line.subrange(0, 5)[4] == line[4]);
        }
    }
    if says_data(line) {
        let at = lemma_trim_start(line.skip(5));
        assert(line.skip(5).skip(at) =~= line.skip(at + 5));
        assert forall|i: int| 5 <= i < at + 5 implies white(#[trigger] line[i]) by {
            assert(line.skip(5)[i - 5] == line[i]);
        }
        assert(opens_at(line, at + 5));
    }
}

/// What a data line tells starts at `at`: after the word, where the space ends.
pub open spec fn opens_at(line: Seq<char>, at: int) -> bool {
    &&& 5 <= at <= line.len()
    &&& forall|i: int| 5 <= i < at ==> white(#[trigger] line[i])
    &&& at < line.len() ==> !white(line[at])
}

/// Nowhere in the text do two newlines follow one another.
pub open spec fn has_no_gap(text: Seq<char>) -> bool {
    forall|i: int| 0 <= i < text.len() - 1 ==> !(#[trigger] text[i] == '\n' && text[i + 1] == '\n')
}

proof fn lemma_no_frame_end(s: Seq<char>)
    requires
        has_no_gap(s),
    ensures
        frame_end(s) is None,
    decreases s.len(),
{
    if s.len() >= 2 {
        assert(!(s[0] == '\n' && s[1] == '\n'));
        let t = s.drop_first();
        assert forall|i: int| 0 <= i < t.len() - 1 implies !(#[trigger] t[i] == '\n' && t[i + 1]
            == '\n') by {
            assert(t[i] == s[i + 1]);
        }
        lemma_no_frame_end(t);
    }
}

proof fn lemma_first_frame_end(frame: Seq<char>, rest: Seq<char>)
    requires
        has_no_gap(frame),
        frame.len() > 0 ==> frame[frame.len() - 1] != '\n',
    ensures
        frame_end(frame + seq!['\n', '\n'] + rest) == Some(frame.len() as int),
    decreases frame.len(),
{
    let all = frame + seq!['\n', '\n'] + rest;
    if frame.len() == 0 {
        assert(all[0] == '\n' && all[1] == '\n');
    } else {
        let t = frame.drop_first();
        assert forall|i: int| 0 <= i < t.len() - 1 implies !(#[trigger] t[i] == '\n' && t[i + 1]
            == '\n') by {
            assert(t[i] == frame[i + 1]);
        }
        lemma_first_frame_end(t, rest);
        assert(all.drop_first() =~= t + seq!['\n', '\n'] + rest);
        assert(all[0] == frame[0]);
        if frame.len() > 1 {
            assert(all[1] == frame[1]);
        }
        assert(!(all[0] == '\n' && all[1] == '\n'));
    }
}

/// A frame goes up to the first empty line. What its data lines say is told,
/// and then what the rest of the stream tells; what has no empty line yet is
/// kept for later.
pub proof fn a_stream_is_read_frame_by_frame(frame: Seq<char>, rest: Seq<char>)
    requires
        has_no_gap(frame),
        frame.len() > 0 ==> frame[frame.len() - 1] != '\n',
    ensures
        drained(frame + seq!['\n', '\n'] + rest).0 == data_lines(lines_of(frame)) + drained(rest).0,
        drained(frame + seq!['\n', '\n'] + rest).1 == drained(rest).1,
        drained(frame).0.len() == 0,
        drained(frame).1 == frame,
{
    let all = frame + seq!['\n', '\n'] + rest;
    lemma_first_frame_end(frame, rest);
    assert(all.take(frame.len() as int) =~= frame);
    assert(all.skip(frame.len() as int + 2) =~= rest);
    lemma_no_frame_end(frame);
}

/// A line that the server sends is the line that is read.
pub proof fn a_line_that_is_sent_is_read(line: Seq<char>, rest: Seq<char>)
    requires
        line.len() > 0,
        !white(line[0]),
        forall|i: int| 0 <= i < line.len() ==> #[trigger] line[i] != '\n',
    ensures
        ({
            let sent = seq!['d', 'a', 't', 'a', ':', ' '] + line;
            drained(sent + seq!['\n', '\n'] + rest).0 == seq![line] + drained(rest).0
        }),
{
    let sent = seq!['d', 'a', 't', 'a', ':', ' '] + line;
    assert forall|i: int| 0 <= i < sent.len() implies #[trigger] sent[i] != '\n' by {
        if i >= 6 {
            assert(sent[i] == line[i - 6]);
        }
    }
    assert(sent[sent.len() - 1] == line[line.len() - 1]);
    a_stream_is_read_frame_by_frame(sent, rest);
    a_text_is_read_line_by_line(sent, rest);
    let none = Seq::<Seq<char>>::empty();
    assert(none.push(sent) =~= seq![sent]);
    only_data_is_told(none, sent);
    assert(says_data(sent));
    let at = choose|at: int| #[trigger]
        opens_at(sent, at) && data_lines(none.push(sent)) == data_lines(none).push(sent.skip(at));
    assert(sent[5] == ' ');
    assert(white(' '));
    assert(sent[6] == line[0]);
    assert(at == 6) by {
        if at > 6 {
            assert(white(sent[6]));
        }
    }
    assert(sent.skip(6) =~= line);
    assert(data_lines(lines_of(sent)) =~= seq![line]);
}

// ------------------------------------------------------------------ answers

/// What is refused says with what words and what the server said, and a
/// missing page without a word of its own that the server is too old.
pub proof fn a_refusal_says_what_the_server_said(code: u16, status: Seq<char>, message: Seq<char>)
    ensures
        code == 401 ==> refusal_text(code, status, message)
            == "the server rejected this device's token ("@ + status + "): "@ + message,
        code == 403 ==> refusal_text(code, status, message)
            == "this device is not paired for that ("@ + status + "): "@ + message,
        code != 401 && code != 403 && (code != 404 || exists|i: int|
            0 <= i < message.len() && !white(#[trigger] message[i])) ==> refusal_text(
            code,
            status,
            message,
        ) == "server returned "@ + status + ": "@ + message,
        code == 404 && (forall|i: int| 0 <= i < message.len() ==> white(#[trigger] message[i]))
            ==> refusal_text(code, status, message)
            == "the server does not have this feature yet (404), it is older than this app; update it to use this"@,
{
    let ends = crate::promises::wording::a_trimmed_text_is_what_lies_between(message);
    if exists|i: int| 0 <= i < message.len() && !white(#[trigger] message[i]) {
        let i = choose|i: int| 0 <= i < message.len() && !white(#[trigger] message[i]);
        assert(ends.0 <= i < ends.1);
        assert(trim_of(message).len() > 0);
    }
    if forall|i: int| 0 <= i < message.len() ==> white(#[trigger] message[i]) {
        if ends.0 < ends.1 {
            assert(white(message[ends.0]));
        }
        assert(trim_of(message).len() == 0);
    }
}

/// A lower-case digit to the base of sixteen stands for `n`.
pub open spec fn is_digit_for(c: char, n: int) -> bool {
    if n < 10 {
        '0' <= c <= '9' && c as int - '0' as int == n
    } else {
        'a' <= c <= 'f' && c as int - 'a' as int + 10 == n
    }
}

/// Bytes are written two digits each, the high one first.
pub proof fn bytes_are_written_in_hex(bytes: Seq<u8>)
    ensures
        hex_of(bytes).len() == 2 * bytes.len(),
        forall|i: int|
            0 <= i < bytes.len() ==> is_digit_for(hex_of(bytes)[2 * i], #[trigger] bytes[i] as int / 16)
                && is_digit_for(hex_of(bytes)[2 * i + 1], bytes[i] as int % 16),
    decreases bytes.len(),
{
    if bytes.len() > 0 {
        let less = bytes.drop_last();
        bytes_are_written_in_hex(less);
        assert forall|i: int| 0 <= i < bytes.len() implies is_digit_for(
            hex_of(bytes)[2 * i],
            #[trigger] bytes[i] as int / 16,
        ) && is_digit_for(hex_of(bytes)[2 * i + 1], bytes[i] as int % 16) by {
            if i < less.len() {
                assert(less[i] == bytes[i]);
            }
        }
    }
}

/// A file is fetched where there is none here, or one with another digest.
pub proof fn a_file_is_fetched_where_it_differs(bytes: Seq<u8>, file: SyncFile)
    ensures
        stale(None, file),
        stale(Some(bytes), file) <==> hex_of(crate::api::md5_of(bytes)) != file.digest@,
{
}

} // verus!
