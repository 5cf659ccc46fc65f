//! What is asked of a server, and what its answers mean.

use crate::api::{digest, hex_of, md5_of, SyncFile};
use crate::logbuffer::LogBuffer;
use crate::strings::{
    begins_with, chars_of, decimal, decimal_signed, digits, joined, matches_at, pieces,
    pieces_of, push_text, same, signed_digits, slice_text, trim, trim_end_char, trim_end_char_of,
    trim_of, trim_start, trim_start_of, views,
};
use vstd::prelude::*;
use vstd::utf8::encode_utf8;

verus! {

/// Seconds to wait before a dropped log stream is opened again.
pub const RECONNECT_SECONDS: u64 = 3;

/// A paired server.
pub struct Remote {
    /// No trailing slash.
    pub base: String,
    pub token: String,
    /// Where synced files land, and where the engine loads them from.
    pub data_dir: String,
    pub log: LogBuffer,
    /// Whether something is already filling the log.
    pub streaming: bool,
}

// ----------------------------------------------------------------- encoding

/// A byte that stands for itself in a URL.
pub open spec fn plain_byte(b: u8) -> bool {
    ||| 0x41 <= b <= 0x5a
    ||| 0x61 <= b <= 0x7a
    ||| 0x30 <= b <= 0x39
    ||| b == 0x2d
    ||| b == 0x5f
    ||| b == 0x2e
    ||| b == 0x7e
}

pub open spec fn upper_hex_digit(n: int) -> char {
    if n < 10 {
        (48 + n) as char
    } else {
        (55 + n) as char
    }
}

/// A byte as it stands in a URL.
pub open spec fn encoded_byte(b: u8) -> Seq<char> {
    if plain_byte(b) {
        seq![b as char]
    } else {
        seq!['%', upper_hex_digit(b as int / 16), upper_hex_digit(b as int % 16)]
    }
}

pub open spec fn encoded(bytes: Seq<u8>) -> Seq<char>
    decreases bytes.len(),
{
    if bytes.len() == 0 {
        Seq::empty()
    } else {
        encoded(bytes.drop_last()) + encoded_byte(bytes.last())
    }
}

/// A text as it stands in a URL.
pub open spec fn url_text(text: Seq<char>) -> Seq<char> {
    encoded(encode_utf8(text))
}

fn upper_hex_char(n: u8) -> (c: char)
    requires
        n < 16,
    ensures
        c == upper_hex_digit(n as int),
{
    if n < 10 {
        (48 + n) as char
    } else {
        (55 + n) as char
    }
}

/// Percent-encodes everything but letters, digits and `-_.~`.
pub fn urlencode(text: &str) -> (out: String)
    ensures
        out@ == url_text(text@),
{
    let bytes: &[u8] = text.as_bytes();
    let mut out = String::new();
    let mut i: usize = 0;
    assert(bytes@.take(0) =~= Seq::empty());
    while i < bytes.len()
        invariant
            i <= bytes@.len(),
            out@ == encoded(bytes@.take(i as int)),
        decreases bytes@.len() - i,
    {
        assert(bytes@.take(i + 1).drop_last() =~= bytes@.take(i as int));
        let b: u8 = bytes[i];
        let ghost earlier = out@;
        if (0x41 <= b && b <= 0x5a) || (0x61 <= b && b <= 0x7a) || (0x30 <= b && b <= 0x39) || b
            == 0x2d || b == 0x5f || b == 0x2e || b == 0x7e {
            out.push(b as char);
            assert(out@ =~= earlier + encoded_byte(b));
        } else {
            out.push('%');
            out.push(upper_hex_char(b / 16));
            out.push(upper_hex_char(b % 16));
            assert(out@ =~= earlier + encoded_byte(b));
        }
        i = i + 1;
    }
    assert(bytes@.take(bytes@.len() as int) =~= bytes@);
    out
}

/// A character that may stand in an encoded text.
pub open spec fn url_safe(c: char) -> bool {
    ||| 'A' <= c <= 'Z'
    ||| 'a' <= c <= 'z'
    ||| '0' <= c <= '9'
    ||| c == '-'
    ||| c == '_'
    ||| c == '.'
    ||| c == '~'
    ||| c == '%'
}

/// Whatever is encoded, nothing in the result means anything to a URL but the
/// percent signs of the encoding itself.
pub proof fn an_encoded_text_is_safe(bytes: Seq<u8>)
    ensures
        forall|i: int| 0 <= i < encoded(bytes).len() ==> url_safe(#[trigger] encoded(bytes)[i]),
    decreases bytes.len(),
{
    if bytes.len() > 0 {
        an_encoded_text_is_safe(bytes.drop_last());
        let sooner = encoded(bytes.drop_last());
        let last = encoded_byte(bytes.last());
        assert forall|i: int| 0 <= i < encoded(bytes).len() implies url_safe(
            #[trigger] encoded(bytes)[i],
        ) by {
            if i < sooner.len() {
                assert(encoded(bytes)[i] == sooner[i]);
            } else {
                assert(encoded(bytes)[i] == last[i - sooner.len()]);
            }
        }
    }
}

/// A percent sign has two characters of its own after it.
proof fn lemma_no_late_percent(bytes: Seq<u8>)
    ensures
        encoded(bytes).len() >= 1 ==> encoded(bytes).last() != '%',
        encoded(bytes).len() >= 2 ==> encoded(bytes)[encoded(bytes).len() - 2] != '%',
    decreases bytes.len(),
{
    if bytes.len() > 0 {
        let sooner = encoded(bytes.drop_last());
        let last = encoded_byte(bytes.last());
        lemma_no_late_percent(bytes.drop_last());
        assert(encoded(bytes) == sooner + last);
        if plain_byte(bytes.last()) {
            assert(last[0] != '%');
            if sooner.len() >= 1 {
                assert(encoded(bytes)[encoded(bytes).len() - 2] == sooner.last());
            }
        }
    }
}

/// Different bytes never read the same once they are encoded.
proof fn lemma_encoding_tells_bytes_apart(a: Seq<u8>, b: Seq<u8>)
    requires
        encoded(a) == encoded(b),
    ensures
        a == b,
    decreases a.len(),
{
    if a.len() == 0 || b.len() == 0 {
        if a.len() > 0 {
            assert(encoded(a).len() >= encoded_byte(a.last()).len() > 0);
            assert(encoded(b).len() == 0);
        }
        if b.len() > 0 {
            assert(encoded(b).len() >= encoded_byte(b.last()).len() > 0);
            assert(encoded(a).len() == 0);
        }
        assert(a =~= b);
    } else {
        let (sooner_a, sooner_b) = (encoded(a.drop_last()), encoded(b.drop_last()));
        let (last_a, last_b) = (encoded_byte(a.last()), encoded_byte(b.last()));
        let text = encoded(a);
        let n = text.len() as int;
        assert(text == sooner_a + last_a && text == sooner_b + last_b);
        lemma_no_late_percent(a.drop_last());
        lemma_no_late_percent(b.drop_last());
        // The last byte is written out exactly where a percent sign stands
        // third from the end.
        if plain_byte(a.last()) && sooner_a.len() >= 2 {
            assert(text[n - 3] == sooner_a[sooner_a.len() - 2]);
        }
        if plain_byte(b.last()) && sooner_b.len() >= 2 {
            assert(text[n - 3] == sooner_b[sooner_b.len() - 2]);
        }
        if !plain_byte(a.last()) {
            assert(text[n - 3] == last_a[0]);
            assert(text[n - 2] == last_a[1]);
        }
        if !plain_byte(b.last()) {
            assert(text[n - 3] == last_b[0]);
            assert(text[n - 2] == last_b[1]);
        }
        assert(text[n - 1] == last_a.last() && text[n - 1] == last_b.last());
        assert(a.last() == b.last());
        assert(sooner_a =~= text.take(n - last_a.len()));
        assert(sooner_b =~= text.take(n - last_b.len()));
        lemma_encoding_tells_bytes_apart(a.drop_last(), b.drop_last());
        assert(a =~= a.drop_last().push(a.last()));
        assert(b =~= b.drop_last().push(b.last()));
    }
}

/// Two texts that stand the same way in a URL are the same text.
pub proof fn an_encoded_text_names_one_text(a: Seq<char>, b: Seq<char>)
    requires
        url_text(a) == url_text(b),
    ensures
        a == b,
{
    lemma_encoding_tells_bytes_apart(encode_utf8(a), encode_utf8(b));
    vstd::utf8::encode_utf8_decode_utf8(a);
    vstd::utf8::encode_utf8_decode_utf8(b);
}

// --------------------------------------------------------------- the answers

pub const UNAUTHORIZED: u16 = 401;

pub const FORBIDDEN: u16 = 403;

pub const NOT_FOUND: u16 = 404;

/// What an answer that is no success is reported as. `status` is the status in
/// words, and `message` what the server said about it.
pub open spec fn refusal_text(code: u16, status: Seq<char>, message: Seq<char>) -> Seq<char> {
    if code == UNAUTHORIZED {
        "the server rejected this device's token ("@ + status + "): "@ + message
    } else if code == FORBIDDEN {
        "this device is not paired for that ("@ + status + "): "@ + message
    } else if code == NOT_FOUND && trim_of(message).len() == 0 {
        "the server does not have this feature yet (404), it is older than this app; update it to use this"@
    } else {
        "server returned "@ + status + ": "@ + message
    }
}

/// Turns an answer that is no success into the message the server would have
/// logged.
///
/// A handler's own "not found" carries a message; an empty one is a server
/// that has no such route at all, built before the feature existed. Worth
/// saying so, since the client and the server are deployed separately.
pub fn refusal(code: u16, status: &str, message: &str) -> (text: String)
    ensures
        text@ == refusal_text(code, status@, message@),
{
    if code == NOT_FOUND && trim(message).as_str().is_empty() {
        return "the server does not have this feature yet (404), it is older than this app; update it to use this".to_owned();
    }
    let opening = if code == UNAUTHORIZED {
        "the server rejected this device's token ("
    } else if code == FORBIDDEN {
        "this device is not paired for that ("
    } else {
        "server returned "
    };
    let mut text = joined(opening, status);
    push_text(
        &mut text,
        if code == UNAUTHORIZED || code == FORBIDDEN {
            "): "
        } else {
            ": "
        },
    );
    push_text(&mut text, message);
    text
}

/// Whether an answer is a success.
pub fn is_success(code: u16) -> (yes: bool)
    ensures
        yes == (200 <= code < 300),
{
    200 <= code && code < 300
}

/// Checks an answer: passes a success on, and turns anything else into a
/// message.
pub fn check(code: u16, status: &str, message: &str) -> (verdict: Result<(), String>)
    ensures
        verdict is Ok <==> 200 <= code < 300,
        verdict matches Err(text) ==> text@ == refusal_text(code, status@, message@),
{
    if is_success(code) {
        Ok(())
    } else {
        Err(refusal(code, status, message))
    }
}

// ------------------------------------------------------------- what is asked

pub open spec fn with_number(before: Seq<char>, n: nat) -> Seq<char> {
    before + digits(n)
}

fn numbered(before: &str, n: usize) -> (out: String)
    ensures
        out@ == with_number(before@, n as nat),
{
    joined(before, decimal(n as u128).as_str())
}

pub fn search_path(query: &str, limit: usize) -> (path: String)
    ensures
        path@ == with_number("/api/search?q="@ + url_text(query@) + "&limit="@, limit as nat),
{
    let mut path = joined("/api/search?q=", urlencode(query).as_str());
    push_text(&mut path, "&limit=");
    numbered(path.as_str(), limit)
}

pub fn favourite_tracks_path(cap: usize) -> (path: String)
    ensures
        path@ == with_number("/api/favourites/tracks?cap="@, cap as nat),
{
    numbered("/api/favourites/tracks?cap=", cap)
}

pub fn favourite_albums_path(cap: usize) -> (path: String)
    ensures
        path@ == with_number("/api/favourites/albums?cap="@, cap as nat),
{
    numbered("/api/favourites/albums?cap=", cap)
}

pub fn favourite_artists_path(cap: usize) -> (path: String)
    ensures
        path@ == with_number("/api/favourites/artists?cap="@, cap as nat),
{
    numbered("/api/favourites/artists?cap=", cap)
}

pub fn playlists_path(cap: usize) -> (path: String)
    ensures
        path@ == with_number("/api/playlists?cap="@, cap as nat),
{
    numbered("/api/playlists?cap=", cap)
}

pub fn playlist_tracks_path(playlist_id: i64, cap: usize) -> (path: String)
    ensures
        path@ == with_number(
            "/api/playlists/"@ + signed_digits(playlist_id as int) + "?cap="@,
            cap as nat,
        ),
{
    let mut path = joined("/api/playlists/", decimal_signed(playlist_id).as_str());
    push_text(&mut path, "?cap=");
    numbered(path.as_str(), cap)
}

pub fn album_tracks_path(album_id: &str) -> (path: String)
    ensures
        path@ == "/api/albums/"@ + url_text(album_id@),
{
    joined("/api/albums/", urlencode(album_id).as_str())
}

pub fn artist_albums_path(artist_id: i64, cap: usize) -> (path: String)
    ensures
        path@ == with_number(
            "/api/artists/"@ + signed_digits(artist_id as int) + "/albums?cap="@,
            cap as nat,
        ),
{
    let mut path = joined("/api/artists/", decimal_signed(artist_id).as_str());
    push_text(&mut path, "/albums?cap=");
    numbered(path.as_str(), cap)
}

pub fn similar_artists_path(artist_id: i64, limit: usize) -> (path: String)
    ensures
        path@ == with_number(
            "/api/artists/"@ + signed_digits(artist_id as int) + "/similar?limit="@,
            limit as nat,
        ),
{
    let mut path = joined("/api/artists/", decimal_signed(artist_id).as_str());
    push_text(&mut path, "/similar?limit=");
    numbered(path.as_str(), limit)
}

pub fn file_url_path(track_id: i64, format_id: u32) -> (path: String)
    ensures
        path@ == with_number(
            "/api/tracks/"@ + signed_digits(track_id as int) + "/url?format="@,
            format_id as nat,
        ),
{
    let mut path = joined("/api/tracks/", decimal_signed(track_id).as_str());
    push_text(&mut path, "/url?format=");
    joined(path.as_str(), decimal(format_id as u128).as_str())
}

pub fn favourite_path(kind: &str, id: &str) -> (path: String)
    ensures
        path@ == "/api/favourites/"@ + kind@ + "/"@ + id@,
{
    let mut path = joined("/api/favourites/", kind);
    push_text(&mut path, "/");
    push_text(&mut path, id);
    path
}

pub fn blocked_path(artist_id: i64) -> (path: String)
    ensures
        path@ == "/api/blocked/"@ + signed_digits(artist_id as int),
{
    joined("/api/blocked/", decimal_signed(artist_id).as_str())
}

pub fn fetch_artist_path(artist_id: i64) -> (path: String)
    ensures
        path@ == "/api/artists/"@ + signed_digits(artist_id as int) + "/fetch"@,
{
    let mut path = joined("/api/artists/", decimal_signed(artist_id).as_str());
    push_text(&mut path, "/fetch");
    path
}

pub fn fetch_album_path(album_id: &str) -> (path: String)
    ensures
        path@ == "/api/albums/"@ + url_text(album_id@) + "/fetch"@,
{
    let mut path = joined("/api/albums/", urlencode(album_id).as_str());
    push_text(&mut path, "/fetch");
    path
}

pub fn device_path(device_id: i64) -> (path: String)
    ensures
        path@ == "/api/devices/"@ + signed_digits(device_id as int),
{
    joined("/api/devices/", decimal_signed(device_id).as_str())
}

pub fn sync_path(name: &str) -> (path: String)
    ensures
        path@ == "/api/sync/"@ + url_text(name@),
{
    joined("/api/sync/", urlencode(name).as_str())
}

// ----------------------------------------------------------------- the stream

/// What `String::from_utf8_lossy` makes of a byte string: its text, with what
/// is no text replaced.
pub uninterp spec fn lossy_of(bytes: Seq<u8>) -> Seq<char>;

/// Calls `String::from_utf8_lossy`. The result is named; how much a broken
/// sequence is replaced by is not spelled out.
#[verifier::external_body]
fn lossy_text(bytes: &[u8]) -> (text: String)
    ensures
        text@ == lossy_of(bytes@),
{
    String::from_utf8_lossy(bytes).into_owned()
}

/// Where the first blank line starts, where there is one.
pub open spec fn frame_end(s: Seq<char>) -> Option<int>
    decreases s.len(),
{
    if s.len() < 2 {
        None
    } else if s[0] == '\n' && s[1] == '\n' {
        Some(0)
    } else {
        match frame_end(s.drop_first()) {
            Some(at) => Some(at + 1),
            None => None,
        }
    }
}

/// The lines of a text: what stands between its newlines, without the carriage
/// return before one, and without an empty end.
pub open spec fn lines_of(s: Seq<char>) -> Seq<Seq<char>> {
    let all = pieces_of(s, '\n');
    let ended = all.drop_last().map_values(
        |line: Seq<char>|
            if line.len() > 0 && line.last() == '\r' {
                line.drop_last()
            } else {
                line
            },
    );
    if all.last().len() == 0 {
        ended
    } else {
        ended.push(all.last())
    }
}

/// What a line of a frame adds to the log, where it is a data line.
pub open spec fn data_of(line: Seq<char>) -> Option<Seq<char>> {
    if begins_with(line, "data:"@) {
        Some(trim_start_of(line.skip(5)))
    } else {
        None
    }
}

pub open spec fn data_lines(lines: Seq<Seq<char>>) -> Seq<Seq<char>>
    decreases lines.len(),
{
    if lines.len() == 0 {
        Seq::empty()
    } else {
        let sooner = data_lines(lines.drop_last());
        match data_of(lines.last()) {
            Some(data) => sooner.push(data),
            None => sooner,
        }
    }
}

/// What can be read out of a buffer: the log lines of its complete frames, and
/// what is left over.
pub open spec fn drained(buffer: Seq<char>) -> (Seq<Seq<char>>, Seq<char>)
    decreases buffer.len(),
{
    match frame_end(buffer) {
        Some(end) => if 0 <= end && end + 2 <= buffer.len() {
            let (later, rest) = drained(buffer.skip(end + 2));
            (data_lines(lines_of(buffer.take(end))) + later, rest)
        } else {
            (Seq::empty(), buffer)
        },
        None => (Seq::empty(), buffer),
    }
}

proof fn lemma_frame_end(s: Seq<char>)
    ensures
        frame_end(s) matches Some(at) ==> 0 <= at && at + 2 <= s.len() && s[at] == '\n' && s[at + 1]
            == '\n',
        forall|k: int|
            0 <= k && k + 1 < s.len() && (frame_end(s) matches Some(at) ==> k < at) ==> !(
            #[trigger] s[k] == '\n' && s[k + 1] == '\n'),
    decreases s.len(),
{
    if s.len() >= 2 && !(s[0] == '\n' && s[1] == '\n') {
        let t = s.drop_first();
        lemma_frame_end(t);
        assert forall|k: int|
            0 <= k && k + 1 < s.len() && (frame_end(s) matches Some(at) ==> k < at) implies !(
        #[trigger] s[k] == '\n' && s[k + 1] == '\n') by {
            if k > 0 {
                assert(t[k - 1] == s[k]);
                assert(t[k] == s[k + 1]);
            }
        }
    }
}

fn find_frame_end(chars: &[char], from: usize) -> (end: Option<usize>)
    requires
        from <= chars@.len(),
    ensures
        match end {
            Some(at) => from <= at && at + 2 <= chars@.len() && frame_end(chars@.skip(from as int))
                == Some(at - from),
            None => frame_end(chars@.skip(from as int)) is None,
        },
{
    let ghost rest = chars@.skip(from as int);
    let n: usize = chars.len();
    let mut i: usize = from;
    while n - i > 1
        invariant
            from <= i,
            i <= n,
            n == chars@.len(),
            rest == chars@.skip(from as int),
            forall|k: int| 0 <= k < i - from ==> !(#[trigger] rest[k] == '\n' && rest[k + 1] == '\n'),
        decreases n - i,
    {
        if chars[i] == '\n' && chars[i + 1] == '\n' {
            proof {
                lemma_frame_end(rest);
                assert(rest[i - from] == '\n' && rest[i - from + 1] == '\n');
                assert(frame_end(rest) is Some);
                let at = frame_end(rest)->0;
                assert(rest[at] == '\n' && rest[at + 1] == '\n');
            }
            return Some(i);
        }
        assert(rest[i - from] == chars@[i as int]);
        assert(rest[i - from + 1] == chars@[i + 1]);
        i = i + 1;
    }
    proof {
        lemma_frame_end(rest);
        if frame_end(rest) is Some {
            let at = frame_end(rest)->0;
            assert(rest[at] == '\n' && rest[at + 1] == '\n');
        }
    }
    None
}

/// The lines of a text, as `lines_of` says.
pub fn lines(text: &str) -> (out: Vec<String>)
    ensures
        views(out@) == lines_of(text@),
{
    let all = pieces(text, '\n');
    let last: usize = all.len() - 1;
    let ghost pieces = pieces_of(text@, '\n');
    let ghost ended = pieces.drop_last().map_values(
        |line: Seq<char>|
            if line.len() > 0 && line.last() == '\r' {
                line.drop_last()
            } else {
                line
            },
    );
    let mut out: Vec<String> = Vec::new();
    let mut i: usize = 0;
    assert(views(out@) =~= ended.take(0));
    while i < last
        invariant
            last == all@.len() - 1,
            i <= last,
            views(all@) == pieces,
            ended == pieces.drop_last().map_values(
                |line: Seq<char>|
                    if line.len() > 0 && line.last() == '\r' {
                        line.drop_last()
                    } else {
                        line
                    },
            ),
            views(out@) == ended.take(i as int),
        decreases last - i,
    {
        let chars = chars_of(all[i].as_str());
        let n: usize = chars.len();
        assert(pieces[i as int] == chars@);
        let ghost earlier = out@;
        if n > 0 && chars[n - 1] == '\r' {
            out.push(slice_text(&chars, 0, n - 1));
            assert(out@.last()@ =~= chars@.drop_last());
        } else {
            out.push(all[i].clone());
        }
        assert(views(out@) =~= views(earlier).push(out@.last()@));
        assert(ended.take(i + 1) =~= ended.take(i as int).push(ended[i as int]));
        i = i + 1;
    }
    assert(ended.take(ended.len() as int) =~= ended);
    assert(views(all@)[last as int] == all@[last as int]@);
    if !all[last].as_str().is_empty() {
        let ghost earlier = out@;
        out.push(all[last].clone());
        assert(views(out@) =~= views(earlier).push(out@.last()@));
    }
    out
}

/// A stream of frames, each ended by a blank line, as it arrives piece by
/// piece.
pub struct Frames {
    pub buffer: String,
}

impl Frames {
    pub fn new() -> (frames: Self)
        ensures
            frames.buffer@.len() == 0,
    {
        Frames { buffer: String::new() }
    }

    /// Takes in the next piece of the stream and gives out the log lines it
    /// completes.
    pub fn feed_text(&mut self, chunk: &str) -> (out: Vec<String>)
        ensures
            (views(out@), final(self).buffer@) == drained(old(self).buffer@ + chunk@),
    {
        push_text(&mut self.buffer, chunk);
        let chars = chars_of(self.buffer.as_str());
        let total: usize = chars.len();
        let ghost whole = drained(chars@);
        let mut out: Vec<String> = Vec::new();
        let mut from: usize = 0;
        let mut more: bool = true;
        proof {
            assert(views(out@) =~= Seq::empty());
            assert(chars@.skip(0) =~= chars@);
            assert(views(out@) + whole.0 =~= whole.0);
        }
        while more
            invariant
                from <= chars@.len(),
                total == chars@.len(),
                whole == drained(chars@),
                whole.0 == views(out@) + drained(chars@.skip(from as int)).0,
                whole.1 == drained(chars@.skip(from as int)).1,
                !more ==> frame_end(chars@.skip(from as int)) is None,
            decreases
                    chars@.len() - from,
                    (if more {
                        1int
                    } else {
                        0
                    }),
        {
            match find_frame_end(&chars, from) {
                None => {
                    more = false;
                },
                Some(end) => {
                    let ghost rest = chars@.skip(from as int);
                    let frame = slice_text(&chars, from, end);
                    let frame_lines = lines(frame.as_str());
                    proof {
                        assert(rest.take(end - from) =~= frame@);
                        assert(rest.skip(end - from + 2) =~= chars@.skip(end + 2));
                    }
                    let ghost before = views(out@);
                    let ghost told = lines_of(frame@);
                    let mut i: usize = 0;
                    assert(told.take(0) =~= Seq::empty());
                    assert(before + data_lines(told.take(0)) =~= before);
                    while i < frame_lines.len()
                        invariant
                            i <= frame_lines@.len(),
                            views(frame_lines@) == told,
                            views(out@) == before + data_lines(told.take(i as int)),
                        decreases frame_lines@.len() - i,
                    {
                        let line = chars_of(frame_lines[i].as_str());
                        let mark = chars_of("data:");
                        proof {
                            reveal_strlit("data:");
                            assert(told.take(i + 1).drop_last() =~= told.take(i as int));
                            assert(told[i as int] == line@);
                        }
                        if matches_at(&line, &mark, 0) {
                            let rest_of_line = slice_text(&line, 5, line.len());
                            assert(rest_of_line@ =~= line@.skip(5));
                            let ghost earlier = out@;
                            out.push(trim_start(rest_of_line.as_str()));
                            assert(views(out@) =~= views(earlier).push(out@.last()@));
                            assert(views(out@) =~= before + data_lines(told.take(i + 1)));
                        }
                        i = i + 1;
                    }
                    proof {
                        assert(told.take(told.len() as int) =~= told);
                        let later = drained(chars@.skip(end + 2));
                        assert(drained(rest) == (data_lines(told) + later.0, later.1));
                        assert(before + (data_lines(told) + later.0) =~= views(out@) + later.0);
                    }
                    from = end + 2;
                },
            }
        }
        self.buffer = slice_text(&chars, from, chars.len());
        proof {
            assert(self.buffer@ =~= chars@.skip(from as int));
            assert(views(out@) + Seq::<Seq<char>>::empty() =~= views(out@));
        }
        out
    }

    /// The same, from the bytes as they arrive.
    pub fn feed(&mut self, chunk: &[u8]) -> (out: Vec<String>)
        ensures
            (views(out@), final(self).buffer@) == drained(old(self).buffer@ + lossy_of(chunk@)),
    {
        let text = lossy_text(chunk);
        self.feed_text(text.as_str())
    }
}

/// Reading a stream leaves no complete frame behind.
pub proof fn nothing_complete_is_left_over(buffer: Seq<char>)
    ensures
        frame_end(drained(buffer).1) is None,
    decreases buffer.len(),
{
    lemma_frame_end(buffer);
    match frame_end(buffer) {
        Some(end) => nothing_complete_is_left_over(buffer.skip(end + 2)),
        None => {},
    }
}

proof fn lemma_frame_end_stays(a: Seq<char>, b: Seq<char>)
    requires
        frame_end(a) is Some,
    ensures
        frame_end(a + b) == frame_end(a),
    decreases a.len(),
{
    if !(a[0] == '\n' && a[1] == '\n') {
        lemma_frame_end_stays(a.drop_first(), b);
        assert((a + b).drop_first() =~= a.drop_first() + b);
    }
}

/// A stream gives the same lines however it is cut into pieces.
pub proof fn the_cuts_in_a_stream_do_not_matter(a: Seq<char>, b: Seq<char>)
    ensures
        drained(a + b).0 == drained(a).0 + drained(drained(a).1 + b).0,
        drained(a + b).1 == drained(drained(a).1 + b).1,
    decreases a.len(),
{
    lemma_frame_end(a);
    match frame_end(a) {
        Some(end) => {
            lemma_frame_end_stays(a, b);
            let rest = a.skip(end + 2);
            the_cuts_in_a_stream_do_not_matter(rest, b);
            assert((a + b).skip(end + 2) =~= rest + b);
            assert((a + b).take(end) =~= a.take(end));
            let told = data_lines(lines_of(a.take(end)));
            assert(told + (drained(rest).0 + drained(drained(rest).1 + b).0) =~= (told + drained(
                rest,
            ).0) + drained(drained(rest).1 + b).0);
        },
        None => {
            assert(Seq::<Seq<char>>::empty() + drained(a + b).0 =~= drained(a + b).0);
        },
    }
}

// ------------------------------------------------------------------ the server

/// What became of the log stream.
pub enum StreamEvent {
    /// The server answered the request for it.
    Answered { code: u16, status: String },
    /// It was open, and is not any more.
    Ended,
    /// The request did not get through.
    Failed { error: String },
}

/// What the reader of the log stream does next.
#[derive(Clone, Copy, PartialEq, Eq, Structural, Debug)]
pub enum StreamNext {
    /// Read what comes in.
    Read,
    /// Ask again, after `RECONNECT_SECONDS`.
    Reconnect,
    /// Leave it be.
    Stop,
}

impl Remote {
    pub fn new(base: &str, token: String, data_dir: String) -> (remote: Self)
        ensures
            remote.base@ == trim_end_char_of(base@, '/'),
            remote.token == token,
            remote.data_dir == data_dir,
            remote.log@.lines.len() == 0,
            remote.log@.pushed == 0,
            !remote.streaming,
    {
        Remote {
            base: trim_end_char(base, '/'),
            token,
            data_dir,
            log: LogBuffer::new(),
            streaming: false,
        }
    }

    pub fn url(&self, path: &str) -> (url: String)
        ensures
            url@ == self.base@ + path@,
    {
        joined(self.base.as_str(), path)
    }

    /// Whether a reader has to be started for the log. Asking claims the place
    /// of the one reader there is.
    pub fn ensure_streaming(&mut self) -> (start: bool)
        ensures
            start == !old(self).streaming,
            final(self).streaming,
            final(self).log == old(self).log,
            final(self).base == old(self).base,
            final(self).token == old(self).token,
            final(self).data_dir == old(self).data_dir,
    {
        let start: bool = !self.streaming;
        self.streaming = true;
        start
    }

    /// The log, as mirrored here.
    pub fn pipeline_log(&self) -> (lines: Vec<String>)
        ensures
            views(lines@) == self.log@.lines,
    {
        self.log.all()
    }

    /// Local only: the server's log is shared by every device, so one clearing
    /// its view must not blank another's.
    pub fn pipeline_clear_log(&mut self)
        ensures
            final(self).log@ == old(self).log@.cleared(),
            final(self).streaming == old(self).streaming,
            final(self).base == old(self).base,
            final(self).token == old(self).token,
            final(self).data_dir == old(self).data_dir,
    {
        self.log.clear();
    }

    /// What a piece of the log stream adds to the log.
    pub fn take_chunk(&mut self, frames: &mut Frames, chunk: &[u8])
        requires
            old(self).log@.bounded(),
        ensures
            final(self).log@.bounded(),
            ({
                let (lines, rest) = drained(old(frames).buffer@ + lossy_of(chunk@));
                &&& final(self).log@ == old(self).log@.with_all(lines)
                &&& final(frames).buffer@ == rest
            }),
            final(self).streaming == old(self).streaming,
            final(self).base == old(self).base,
            final(self).token == old(self).token,
            final(self).data_dir == old(self).data_dir,
    {
        let lines = frames.feed(chunk);
        let ghost all = views(lines@);
        let ghost start = self.log@;
        let mut i: usize = 0;
        assert(all.take(0) =~= Seq::empty());
        while i < lines.len()
            invariant
                i <= lines@.len(),
                all == views(lines@),
                self.log@.bounded(),
                self.log@ == start.with_all(all.take(i as int)),
                self.streaming == old(self).streaming,
                self.base == old(self).base,
                self.token == old(self).token,
                self.data_dir == old(self).data_dir,
            decreases lines@.len() - i,
        {
            assert(all.take(i + 1).drop_last() =~= all.take(i as int));
            assert(all.take(i + 1).last() == lines@[i as int]@);
            self.log.push(lines[i].clone());
            i = i + 1;
        }
        assert(all.take(all.len() as int) =~= all);
    }

    /// The server would not open the stream: say so, and give up the reader's
    /// place.
    pub fn stream_refused(&mut self, status: &str)
        requires
            old(self).log@.bounded(),
        ensures
            final(self).log@.bounded(),
            final(self).log@ == old(self).log@.with("log stream refused: "@ + status@),
            !final(self).streaming,
            final(self).base == old(self).base,
            final(self).token == old(self).token,
            final(self).data_dir == old(self).data_dir,
    {
        self.log.push(joined("log stream refused: ", status));
        self.streaming = false;
    }

    /// The stream broke off: say so. The reader stays, and opens it again.
    pub fn stream_lost(&mut self, error: &str)
        requires
            old(self).log@.bounded(),
        ensures
            final(self).log@.bounded(),
            final(self).log@ == old(self).log@.with("log stream lost: "@ + error@),
            final(self).streaming == old(self).streaming,
            final(self).base == old(self).base,
            final(self).token == old(self).token,
            final(self).data_dir == old(self).data_dir,
    {
        self.log.push(joined("log stream lost: ", error));
    }

    /// What the reader of the log stream does next. A dropped connection is
    /// ordinary, so it comes back to it; a server that says no is left alone.
    pub fn stream_event(&mut self, event: &StreamEvent) -> (next: StreamNext)
        requires
            old(self).log@.bounded(),
        ensures
            final(self).log@.bounded(),
            final(self).base == old(self).base,
            final(self).token == old(self).token,
            final(self).data_dir == old(self).data_dir,
            match *event {
                StreamEvent::Answered { code, status } => if 200 <= code < 300 {
                    next == StreamNext::Read && *final(self) == *old(self)
                } else {
                    &&& next == StreamNext::Stop
                    &&& !final(self).streaming
                    &&& final(self).log@ == old(self).log@.with("log stream refused: "@ + status@)
                },
                StreamEvent::Ended => next == StreamNext::Reconnect && *final(self) == *old(self),
                StreamEvent::Failed { error } => {
                    &&& next == StreamNext::Reconnect
                    &&& final(self).streaming == old(self).streaming
                    &&& final(self).log@ == old(self).log@.with("log stream lost: "@ + error@)
                },
            },
    {
        match event {
            StreamEvent::Answered { code, status } => if is_success(*code) {
                StreamNext::Read
            } else {
                self.stream_refused(status.as_str());
                StreamNext::Stop
            },
            StreamEvent::Ended => StreamNext::Reconnect,
            StreamEvent::Failed { error } => {
                self.stream_lost(error.as_str());
                StreamNext::Reconnect
            },
        }
    }
}

// ------------------------------------------------------------------- syncing

/// Whether the copy of a file here, where there is one, is not the one the
/// server holds. By digest, not by generation: a restart resets the counter.
pub open spec fn stale(local: Option<Seq<u8>>, file: SyncFile) -> bool {
    match local {
        Some(bytes) => hex_of(md5_of(bytes)) != file.digest@,
        None => true,
    }
}

/// The digest of a file's contents, where it is there to be read.
pub fn local_digest(contents: Option<&[u8]>) -> (sum: Option<String>)
    ensures
        match contents {
            Some(bytes) => sum is Some && sum->0@ == hex_of(md5_of(bytes@)),
            None => sum is None,
        },
{
    match contents {
        Some(bytes) => Some(digest(bytes)),
        None => None,
    }
}

pub fn needs_download(contents: Option<&[u8]>, file: &SyncFile) -> (yes: bool)
    ensures
        yes == stale(
            match contents {
                Some(bytes) => Some(bytes@),
                None => None,
            },
            *file,
        ),
{
    match local_digest(contents) {
        Some(sum) => !same(sum.as_str(), file.digest.as_str()),
        None => true,
    }
}

/// A copy that is exactly what the server holds is never fetched again.
pub proof fn a_current_copy_is_kept(bytes: Seq<u8>, file: SyncFile)
    requires
        file.digest@ == hex_of(md5_of(bytes)),
    ensures
        !stale(Some(bytes), file),
{
}

} // verus!
