//! Catalogue items as the app shows them: the flattened shapes the server
//! sends, and how they are read out of the catalogue's own JSON.

use crate::db::clone_text;
use crate::json::{
    bool_value, either_member, id_at, int_at, member, member_or_null, seen, text_at, text_value, Json,
};
use crate::strings::{
    ascii_upper, ascii_upper_of, ascii_upper_settles, chars_of, decimal, digits, joined, push_text, slice_text,
    trim, trim_end_of, trim_of, trim_start_of, two_digits, two_places, white,
};
use vstd::prelude::*;

verus! {

/// Format ids.
pub const FORMAT_MP3_320: u32 = 5;

pub const FORMAT_FLAC_CD: u32 = 6;

pub const FORMAT_FLAC_HIRES: u32 = 7;

// --------------------------------------------------------------- catalogue

#[derive(Debug, PartialEq)]
pub struct RemoteTrack {
    pub id: i64,
    pub title: String,
    pub artist: String,
    pub artist_id: Option<i64>,
    pub album: String,
    pub album_id: Option<String>,
    pub duration: Option<i64>,
    /// Whether a stream exists; greying the rest out saves a round trip that
    /// would fail with a confusing error.
    pub streamable: bool,
    pub hires: bool,
    /// The album's cover; a track has no art of its own.
    pub image: Option<String>,
    /// The recording, as opposed to this particular catalogue entry. One song
    /// reached through a single, an album and a deluxe reissue is three track
    /// ids but one ISRC.
    pub isrc: Option<String>,
    /// The release this entry belongs to, not necessarily the track's own
    /// field.
    pub released: Option<String>,
    /// The credit string: composer, lyricist, producer and so on, each tagged
    /// with their role, semicolon-separated.
    pub performers: Option<String>,
}

#[derive(Debug, PartialEq, Eq, Hash)]
pub enum TrackIdentity {
    /// An ISRC, upper-cased: the catalogue is not consistent about the case.
    Recording(String),
    /// A track id, for the tracks that carry no ISRC.
    Entry(i64),
}

#[derive(Debug, PartialEq)]
pub struct RemoteAlbum {
    pub id: String,
    pub title: String,
    pub artist: String,
    pub artist_id: Option<i64>,
    pub released: Option<String>,
    pub genre: Option<String>,
    pub tracks_count: Option<i64>,
    pub image: Option<String>,
    pub label: Option<String>,
}

#[derive(Debug, PartialEq)]
pub struct RemoteArtist {
    pub id: i64,
    pub name: String,
    pub albums_count: Option<i64>,
    pub image: Option<String>,
}

#[derive(Debug, PartialEq)]
pub struct RemotePlaylist {
    pub id: i64,
    pub name: String,
    pub tracks_count: Option<i64>,
    pub owner: Option<String>,
}

/// Everything a catalogue search returns, in one go.
#[derive(Debug, PartialEq)]
pub struct SearchResults {
    pub tracks: Vec<RemoteTrack>,
    pub albums: Vec<RemoteAlbum>,
    pub artists: Vec<RemoteArtist>,
}

impl Default for SearchResults {
    fn default() -> (results: Self)
        ensures
            results.tracks@.len() == 0,
            results.albums@.len() == 0,
            results.artists@.len() == 0,
    {
        SearchResults { tracks: Vec::new(), albums: Vec::new(), artists: Vec::new() }
    }
}

impl Clone for RemoteTrack {
    fn clone(&self) -> (copy: Self)
        ensures
            copy == *self,
    {
        RemoteTrack {
            id: self.id,
            title: self.title.clone(),
            artist: self.artist.clone(),
            artist_id: self.artist_id,
            album: self.album.clone(),
            album_id: clone_text(&self.album_id),
            duration: self.duration,
            streamable: self.streamable,
            hires: self.hires,
            image: clone_text(&self.image),
            isrc: clone_text(&self.isrc),
            released: clone_text(&self.released),
            performers: clone_text(&self.performers),
        }
    }
}

impl Default for RemoteTrack {
    fn default() -> (track: Self)
        ensures
            track.id == 0,
            track.title@.len() == 0,
            track.artist@.len() == 0,
            track.artist_id is None,
            track.album@.len() == 0,
            track.album_id is None,
            track.duration is None,
            !track.streamable,
            !track.hires,
            track.image is None,
            track.isrc is None,
            track.released is None,
            track.performers is None,
    {
        RemoteTrack {
            id: 0,
            title: String::new(),
            artist: String::new(),
            artist_id: None,
            album: String::new(),
            album_id: None,
            duration: None,
            streamable: false,
            hires: false,
            image: None,
            isrc: None,
            released: None,
            performers: None,
        }
    }
}

impl Clone for RemoteAlbum {
    fn clone(&self) -> (copy: Self)
        ensures
            copy == *self,
    {
        RemoteAlbum {
            id: self.id.clone(),
            title: self.title.clone(),
            artist: self.artist.clone(),
            artist_id: self.artist_id,
            released: clone_text(&self.released),
            genre: clone_text(&self.genre),
            tracks_count: self.tracks_count,
            image: clone_text(&self.image),
            label: clone_text(&self.label),
        }
    }
}

impl Default for RemoteAlbum {
    fn default() -> (album: Self)
        ensures
            album.id@.len() == 0,
            album.title@.len() == 0,
            album.artist@.len() == 0,
            album.artist_id is None,
            album.released is None,
            album.genre is None,
            album.tracks_count is None,
            album.image is None,
            album.label is None,
    {
        RemoteAlbum {
            id: String::new(),
            title: String::new(),
            artist: String::new(),
            artist_id: None,
            released: None,
            genre: None,
            tracks_count: None,
            image: None,
            label: None,
        }
    }
}

impl Clone for RemoteArtist {
    fn clone(&self) -> (copy: Self)
        ensures
            copy == *self,
    {
        RemoteArtist {
            id: self.id,
            name: self.name.clone(),
            albums_count: self.albums_count,
            image: clone_text(&self.image),
        }
    }
}

impl Clone for RemotePlaylist {
    fn clone(&self) -> (copy: Self)
        ensures
            copy == *self,
    {
        RemotePlaylist {
            id: self.id,
            name: self.name.clone(),
            tracks_count: self.tracks_count,
            owner: clone_text(&self.owner),
        }
    }
}

// ----------------------------------------------------------------- identity

/// The ISRC a field really holds: trimmed, upper-cased, and none where that
/// leaves nothing.
pub open spec fn recording_of(isrc: Option<Seq<char>>) -> Option<Seq<char>> {
    match isrc {
        Some(text) => if trim_of(text).len() > 0 {
            Some(ascii_upper_of(trim_of(text)))
        } else {
            None
        },
        None => None,
    }
}

/// What makes two entries the same music: the recording, or, where there is
/// none, the entry itself.
pub open spec fn identity_of(id: i64, isrc: Option<Seq<char>>) -> (Option<Seq<char>>, i64) {
    match recording_of(isrc) {
        Some(recording) => (Some(recording), 0),
        None => (None, id),
    }
}

pub open spec fn identity_key(track: RemoteTrack) -> (Option<Seq<char>>, i64) {
    identity_of(track.id, seen(track.isrc))
}

impl Clone for TrackIdentity {
    fn clone(&self) -> (copy: Self)
        ensures
            copy == *self,
    {
        match self {
            TrackIdentity::Recording(isrc) => TrackIdentity::Recording(isrc.clone()),
            TrackIdentity::Entry(id) => TrackIdentity::Entry(*id),
        }
    }
}

impl View for TrackIdentity {
    type V = (Option<Seq<char>>, i64);

    open spec fn view(&self) -> (Option<Seq<char>>, i64) {
        match self {
            TrackIdentity::Recording(isrc) => (Some(isrc@), 0),
            TrackIdentity::Entry(id) => (None, *id),
        }
    }
}

impl TrackIdentity {
    /// The identity of an entry with that id and that ISRC field.
    ///
    /// Falling back to the id means an untagged track is only ever a duplicate
    /// of itself, which is the safe direction: a missed duplicate is a
    /// nuisance, a wrongly dropped track is a bug.
    pub fn of(id: i64, isrc: &Option<String>) -> (identity: Self)
        ensures
            identity@ == identity_of(id, seen(*isrc)),
    {
        match isrc {
            Some(text) => {
                let trimmed = trim(text.as_str());
                if trimmed.as_str().is_empty() {
                    TrackIdentity::Entry(id)
                } else {
                    TrackIdentity::Recording(ascii_upper(trimmed.as_str()))
                }
            },
            None => TrackIdentity::Entry(id),
        }
    }

    pub fn same_as(&self, other: &Self) -> (yes: bool)
        ensures
            yes == (self@ == other@),
    {
        match (self, other) {
            (TrackIdentity::Recording(a), TrackIdentity::Recording(b)) => crate::strings::same(
                a.as_str(),
                b.as_str(),
            ),
            (TrackIdentity::Entry(a), TrackIdentity::Entry(b)) => *a == *b,
            _ => false,
        }
    }
}

/// Two entries with the same ISRC are the same music whatever their ids and
/// whatever its case; two without one are the same only if their ids are; and
/// an entry with one is never the same as an entry without.
pub proof fn identity_names_the_recording(a: RemoteTrack, b: RemoteTrack)
    ensures
        recording_of(seen(a.isrc)) is Some && recording_of(seen(b.isrc)) is Some ==> (identity_key(a)
            == identity_key(b) <==> recording_of(seen(a.isrc)) == recording_of(seen(b.isrc))),
        recording_of(seen(a.isrc)) is None && recording_of(seen(b.isrc)) is None ==> (identity_key(a)
            == identity_key(b) <==> a.id == b.id),
        recording_of(seen(a.isrc)) is Some && recording_of(seen(b.isrc)) is None ==> identity_key(a)
            != identity_key(b),
{
}

proof fn lemma_trim_start_keeps_case(s: Seq<char>)
    ensures
        trim_start_of(ascii_upper_of(s)) == ascii_upper_of(trim_start_of(s)),
    decreases s.len(),
{
    if s.len() > 0 && white(s[0]) {
        assert(ascii_upper_of(s).drop_first() =~= ascii_upper_of(s.drop_first()));
        lemma_trim_start_keeps_case(s.drop_first());
    }
}

proof fn lemma_trim_end_keeps_case(s: Seq<char>)
    ensures
        trim_end_of(ascii_upper_of(s)) == ascii_upper_of(trim_end_of(s)),
    decreases s.len(),
{
    if s.len() > 0 && white(s.last()) {
        assert(ascii_upper_of(s).drop_last() =~= ascii_upper_of(s.drop_last()));
        lemma_trim_end_keeps_case(s.drop_last());
    }
}

/// An ISRC and its upper-cased form name the same recording.
pub proof fn the_case_of_an_isrc_does_not_matter(text: Seq<char>)
    ensures
        recording_of(Some(ascii_upper_of(text))) == recording_of(Some(text)),
{
    lemma_trim_start_keeps_case(text);
    lemma_trim_end_keeps_case(trim_start_of(text));
    ascii_upper_settles(trim_of(text));
}

impl RemoteTrack {
    /// What makes two queue entries "the same music".
    pub fn identity(&self) -> (identity: TrackIdentity)
        ensures
            identity@ == identity_key(*self),
    {
        TrackIdentity::of(self.id, &self.isrc)
    }
}

// -------------------------------------------------------------------- images

/// The first of these sizes an image bag has.
pub open spec fn sized(bag: Json) -> Option<Seq<char>> {
    if text_at(bag, "small"@) is Some {
        text_at(bag, "small"@)
    } else if text_at(bag, "medium"@) is Some {
        text_at(bag, "medium"@)
    } else if text_at(bag, "large"@) is Some {
        text_at(bag, "large"@)
    } else if text_at(bag, "thumbnail"@) is Some {
        text_at(bag, "thumbnail"@)
    } else if text_at(bag, "extralarge"@) is Some {
        text_at(bag, "extralarge"@)
    } else {
        text_at(bag, "mega"@)
    }
}

/// The portrait assembled from a hash, where there is one.
pub open spec fn portrait(value: Json) -> Option<Seq<char>> {
    match member(value, "images"@) {
        Some(images) => match member(images, "portrait"@) {
            Some(inner) => match text_at(inner, "hash"@) {
                Some(hash) => Some(
                    "https://static.qobuz.com/images/artists/covers/medium/"@ + hash + ".jpg"@,
                ),
                None => None,
            },
            None => None,
        },
        None => None,
    }
}

/// A cover or portrait URL. These are nested under `image` as a bag of named
/// sizes, and the names differ between albums and artists. Newer artist
/// payloads drop `image` for a portrait hash.
pub open spec fn image_of(value: Json) -> Option<Seq<char>> {
    match member(value, "image"@) {
        Some(Json::Text(url)) => if url@.len() > 0 {
            Some(url@)
        } else {
            portrait(value)
        },
        Some(Json::Object(bag)) => match sized(Json::Object(bag)) {
            Some(url) => Some(url),
            None => portrait(value),
        },
        _ => portrait(value),
    }
}

fn sized_image(bag: &Json) -> (url: Option<String>)
    ensures
        seen(url) == sized(*bag),
{
    if let Some(url) = bag.text("small") {
        return Some(url);
    }
    if let Some(url) = bag.text("medium") {
        return Some(url);
    }
    if let Some(url) = bag.text("large") {
        return Some(url);
    }
    if let Some(url) = bag.text("thumbnail") {
        return Some(url);
    }
    if let Some(url) = bag.text("extralarge") {
        return Some(url);
    }
    bag.text("mega")
}

pub fn image(value: &Json) -> (url: Option<String>)
    ensures
        seen(url) == image_of(*value),
{
    match value.get("image") {
        Some(Json::Text(url)) => if !url.as_str().is_empty() {
            return Some(url.clone());
        },
        Some(bag) => if let Json::Object(_) = bag {
            if let Some(url) = sized_image(bag) {
                return Some(url);
            }
        },
        None => {},
    }
    match value.get("images") {
        Some(images) => match images.get("portrait") {
            Some(inner) => match inner.text("hash") {
                Some(hash) => {
                    let mut url = joined(
                        "https://static.qobuz.com/images/artists/covers/medium/",
                        hash.as_str(),
                    );
                    push_text(&mut url, ".jpg");
                    Some(url)
                },
                None => None,
            },
            None => None,
        },
        None => None,
    }
}

pub open spec fn ascii_alphanumeric(c: char) -> bool {
    '0' <= c <= '9' || 'a' <= c <= 'z' || 'A' <= c <= 'Z'
}

/// The cover URL of an album id, where it is long enough to file one under:
/// the last two characters, then the two before those, then the id.
pub open spec fn cover_of(album_id: Seq<char>) -> Option<Seq<char>> {
    let id = album_id.filter(|c: char| ascii_alphanumeric(c));
    if id.len() < 4 {
        None
    } else {
        Some(
            "https://static.qobuz.com/images/covers/"@ + id.subrange(
                id.len() - 2,
                id.len() as int,
            ) + "/"@ + id.subrange(id.len() - 4, id.len() - 2) + "/"@ + id + "_230.jpg"@,
        )
    }
}

/// The cover for an album id, assembled rather than looked up.
///
/// Worth the guess because a track that came out of the space carries only an
/// album id: generated sequences would otherwise be the one list in the app
/// with no art at all.
pub fn cover_url(album_id: &str) -> (url: Option<String>)
    ensures
        seen(url) == cover_of(album_id@),
{
    let all = chars_of(album_id);
    let mut id: Vec<char> = Vec::new();
    let ghost keep = |c: char| ascii_alphanumeric(c);
    let mut i: usize = 0;
    proof {
        assert(all@.take(0) =~= Seq::empty());
        assert(Seq::<char>::empty().filter(keep) =~= Seq::empty()) by {
            reveal(Seq::filter);
        }
    }
    while i < all.len()
        invariant
            i <= all@.len(),
            keep == (|c: char| ascii_alphanumeric(c)),
            id@ == all@.take(i as int).filter(keep),
        decreases all@.len() - i,
    {
        let c: char = all[i];
        proof {
            reveal(Seq::filter);
            assert(all@.take(i + 1).drop_last() =~= all@.take(i as int));
            assert(all@.take(i + 1).last() == c);
        }
        if ('0' <= c && c <= '9') || ('a' <= c && c <= 'z') || ('A' <= c && c <= 'Z') {
            id.push(c);
        }
        i = i + 1;
    }
    assert(all@.take(all@.len() as int) =~= all@);
    let n: usize = id.len();
    if n < 4 {
        return None;
    }
    let mut url = joined(
        "https://static.qobuz.com/images/covers/",
        slice_text(&id, n - 2, n).as_str(),
    );
    push_text(&mut url, "/");
    push_text(&mut url, slice_text(&id, n - 4, n - 2).as_str());
    push_text(&mut url, "/");
    push_text(&mut url, slice_text(&id, 0, n).as_str());
    push_text(&mut url, "_230.jpg");
    assert(id@.subrange(0, n as int) =~= id@);
    Some(url)
}

// ------------------------------------------------------------------- parsing

pub open spec fn or_else(a: Option<Seq<char>>, b: Option<Seq<char>>) -> Option<Seq<char>> {
    if a is Some {
        a
    } else {
        b
    }
}

pub open spec fn or_text(a: Option<Seq<char>>, b: Seq<char>) -> Seq<char> {
    match a {
        Some(text) => text,
        None => b,
    }
}

fn or_else_text(a: Option<String>, b: Option<String>) -> (out: Option<String>)
    ensures
        seen(out) == or_else(seen(a), seen(b)),
{
    match a {
        Some(text) => Some(text),
        None => b,
    }
}

fn text_or(a: Option<String>, b: &str) -> (out: String)
    ensures
        out@ == or_text(seen(a), b@),
{
    match a {
        Some(text) => text,
        None => b.to_owned(),
    }
}

/// What an album description passed down says, where there is one.
pub open spec fn passed_down(
    context: Option<RemoteAlbum>,
    field: spec_fn(RemoteAlbum) -> Option<Seq<char>>,
) -> Option<Seq<char>> {
    match context {
        Some(parent) => field(parent),
        None => None,
    }
}

/// Who a track is by: its performer, or its album's artist, or whoever the
/// album it was listed under is by.
pub open spec fn track_artist(value: Json, context: Option<RemoteAlbum>) -> Option<Seq<char>> {
    or_else(
        or_else(
            text_at(either_member(value, "performer"@, "artist"@), "name"@),
            text_at(member_or_null(member_or_null(value, "album"@), "artist"@), "name"@),
        ),
        passed_down(context, |parent: RemoteAlbum| Some(parent.artist@)),
    )
}

/// The id of the same: of the performer where that has a name, of the album's
/// artist otherwise.
pub open spec fn track_artist_id(value: Json, context: Option<RemoteAlbum>) -> Option<i64> {
    let performer = either_member(value, "performer"@, "artist"@);
    let own = if text_at(performer, "name"@) is Some {
        int_at(performer, "id"@)
    } else {
        int_at(member_or_null(member_or_null(value, "album"@), "artist"@), "id"@)
    };
    match (own, context) {
        (Some(id), _) => Some(id),
        (None, Some(parent)) => parent.artist_id,
        (None, None) => None,
    }
}

pub open spec fn track_title(value: Json) -> Seq<char> {
    match (text_at(value, "title"@), text_at(value, "version"@)) {
        (Some(title), Some(version)) => title + " ("@ + version + ")"@,
        (Some(title), None) => title,
        (None, _) => "Unknown Track"@,
    }
}

/// A track's own date, if it has one; otherwise that of the release it belongs
/// to, nested or passed down.
pub open spec fn track_released(value: Json, context: Option<RemoteAlbum>) -> Option<Seq<char>> {
    or_else(
        or_else(
            or_else(text_at(value, "release_date_original"@), text_at(value, "released_at"@)),
            text_at(member_or_null(value, "album"@), "release_date_original"@),
        ),
        passed_down(context, |parent: RemoteAlbum| seen(parent.released)),
    )
}

pub open spec fn either_flag(value: Json, first: Seq<char>, second: Seq<char>) -> Option<bool> {
    match member(value, first) {
        Some(found) => bool_value(Some(found)),
        None => bool_value(member(value, second)),
    }
}

impl RemoteTrack {
    /// Says what a track object says.
    pub open spec fn reads(self, value: Json, context: Option<RemoteAlbum>) -> bool {
        let album = member_or_null(value, "album"@);
        &&& int_at(value, "id"@) == Some(self.id)
        &&& self.title@ == track_title(value)
        &&& self.artist@ == or_text(track_artist(value, context), "Unknown Artist"@)
        &&& self.artist_id == track_artist_id(value, context)
        &&& self.album@ == or_text(
            or_else(
                text_at(album, "title"@),
                passed_down(context, |parent: RemoteAlbum| Some(parent.title@)),
            ),
            Seq::empty(),
        )
        &&& seen(self.album_id) == or_else(
            id_at(album, "id"@),
            passed_down(context, |parent: RemoteAlbum| Some(parent.id@)),
        )
        &&& self.duration == int_at(value, "duration"@)
        // An endpoint that does not say is assumed to mean playable.
        &&& self.streamable == (match bool_value(member(value, "streamable"@)) {
            Some(b) => b,
            None => true,
        })
        &&& self.hires == (match either_flag(value, "hires_streamable"@, "hires"@) {
            Some(b) => b,
            None => false,
        })
        &&& seen(self.image) == or_else(
            image_of(album),
            passed_down(context, |parent: RemoteAlbum| seen(parent.image)),
        )
        &&& seen(self.isrc) == text_at(value, "isrc"@)
        &&& seen(self.released) == track_released(value, context)
        &&& seen(self.performers) == text_at(value, "performers"@)
    }

    /// Reads a track object. Tracks nested in an album leave out the album and
    /// often the performer, so the caller passes down `context`.
    pub fn parse(value: &Json, context: Option<&RemoteAlbum>) -> (track: Option<Self>)
        ensures
            track is Some <==> int_at(*value, "id"@) is Some,
            track matches Some(t) ==> t.reads(
                *value,
                match context {
                    Some(parent) => Some(*parent),
                    None => None,
                },
            ),
    {
        let id: i64 = match value.as_i64("id") {
            Some(id) => id,
            None => return None,
        };
        let nothing = Json::Null;
        let performer: &Json = match value.get("performer") {
            Some(found) => found,
            None => match value.get("artist") {
                Some(found) => found,
                None => &nothing,
            },
        };
        let album: &Json = match value.get("album") {
            Some(found) => found,
            None => &nothing,
        };
        let mut artist = performer.text("name");
        let mut artist_id: Option<i64> = performer.as_i64("id");
        let mut album_title = album.text("title");
        let mut album_id = album.as_id_string("id");
        if artist.is_none() {
            let album_artist: &Json = match album.get("artist") {
                Some(found) => found,
                None => &nothing,
            };
            artist = album_artist.text("name");
            artist_id = album_artist.as_i64("id");
        }
        let mut parent_image: Option<String> = None;
        let mut parent_released: Option<String> = None;
        if let Some(parent) = context {
            artist = or_else_text(artist, Some(parent.artist.clone()));
            if artist_id.is_none() {
                artist_id = parent.artist_id;
            }
            album_title = or_else_text(album_title, Some(parent.title.clone()));
            album_id = or_else_text(album_id, Some(parent.id.clone()));
            parent_image = clone_text(&parent.image);
            parent_released = clone_text(&parent.released);
        }
        let streamable: bool = match value.flag("streamable") {
            Some(b) => b,
            None => true,
        };
        let title = match value.text("title") {
            Some(title) => match value.text("version") {
                Some(version) => {
                    let mut both = joined(title.as_str(), " (");
                    push_text(&mut both, version.as_str());
                    push_text(&mut both, ")");
                    both
                },
                None => title,
            },
            None => "Unknown Track".to_owned(),
        };
        let own_date = or_else_text(
            value.text("release_date_original"),
            value.text("released_at"),
        );
        let released = or_else_text(
            or_else_text(own_date, album.text("release_date_original")),
            parent_released,
        );
        let hires: Option<bool> = match value.get("hires_streamable") {
            Some(_) => value.flag("hires_streamable"),
            None => value.flag("hires"),
        };
        Some(
            RemoteTrack {
                id,
                title,
                artist: text_or(artist, "Unknown Artist"),
                artist_id,
                album: match album_title {
                    Some(text) => text,
                    None => String::new(),
                },
                album_id,
                duration: value.as_i64("duration"),
                streamable,
                hires: match hires {
                    Some(b) => b,
                    None => false,
                },
                image: or_else_text(image(album), parent_image),
                isrc: value.text("isrc"),
                released,
                performers: value.text("performers"),
            },
        )
    }

    pub open spec fn clock(self) -> Seq<char> {
        match self.duration {
            Some(seconds) => if seconds > 0 {
                digits((seconds / 60) as nat) + ":"@ + two_places((seconds % 60) as nat)
            } else {
                Seq::empty()
            },
            None => Seq::empty(),
        }
    }

    /// `m:ss`, blank where no duration is reported.
    pub fn duration_label(&self) -> (label: String)
        ensures
            label@ == self.clock(),
    {
        match self.duration {
            Some(seconds) => if seconds > 0 {
                let total: u64 = seconds as u64;
                let mut label = joined(decimal((total / 60) as u128).as_str(), ":");
                push_text(&mut label, two_digits(total % 60).as_str());
                label
            } else {
                String::new()
            },
            None => String::new(),
        }
    }
}

/// The characters that take up exactly the first `n` bytes, where some do.
pub open spec fn first_bytes(s: Seq<char>, n: nat) -> Option<Seq<char>>
    decreases s.len(),
{
    if n == 0 {
        Some(Seq::empty())
    } else if s.len() == 0 || byte_len(s[0]) > n {
        None
    } else {
        match first_bytes(s.drop_first(), (n - byte_len(s[0])) as nat) {
            Some(rest) => Some(seq![s[0]] + rest),
            None => None,
        }
    }
}

/// How many bytes a character takes up.
pub open spec fn byte_len(c: char) -> nat {
    if (c as u32) < 0x80 {
        1
    } else if (c as u32) < 0x800 {
        2
    } else if (c as u32) < 0x10000 {
        3
    } else {
        4
    }
}

fn count_bytes(c: char) -> (n: usize)
    ensures
        n == byte_len(c),
{
    let code: u32 = c as u32;
    if code < 0x80 {
        1
    } else if code < 0x800 {
        2
    } else if code < 0x10000 {
        3
    } else {
        4
    }
}

/// The text of the first `n` bytes, where they end between two characters.
pub fn byte_prefix(text: &str, n: usize) -> (prefix: Option<String>)
    ensures
        seen(prefix) == first_bytes(text@, n as nat),
{
    let chars = chars_of(text);
    let mut left: usize = n;
    let mut i: usize = 0;
    assert(chars@.skip(0) =~= chars@);
    assert(forall|rest: Seq<char>| #[trigger] (chars@.take(0) + rest) =~= rest);
    while left > 0
        invariant
            i <= chars@.len(),
            chars@ == text@,
            match first_bytes(chars@.skip(i as int), left as nat) {
                Some(rest) => first_bytes(chars@, n as nat) == Some(chars@.take(i as int) + rest),
                None => first_bytes(chars@, n as nat) is None,
            },
        decreases left,
    {
        if i == chars.len() {
            return None;
        }
        let size: usize = count_bytes(chars[i]);
        proof {
            let here = chars@.skip(i as int);
            assert(here[0] == chars@[i as int]);
            assert(here.drop_first() =~= chars@.skip(i + 1));
        }
        if size > left {
            return None;
        }
        proof {
            let ahead = chars@.skip(i + 1);
            match first_bytes(ahead, (left - size) as nat) {
                Some(rest) => {
                    assert(chars@.take(i as int) + (seq![chars@[i as int]] + rest) =~= chars@.take(
                        i + 1,
                    ) + rest);
                },
                None => {},
            }
        }
        left = left - size;
        i = i + 1;
    }
    let prefix = slice_text(&chars, 0, i);
    assert(chars@.take(i as int) + Seq::<char>::empty() =~= prefix@);
    Some(prefix)
}

impl RemoteAlbum {
    /// Says what an album object says.
    pub open spec fn reads(self, value: Json) -> bool {
        let artist = either_member(value, "artist"@, "performer"@);
        &&& Some(self.id@) == id_at(value, "id"@)
        &&& self.title@ == or_text(text_at(value, "title"@), "Unknown Album"@)
        &&& self.artist@ == or_text(text_at(artist, "name"@), "Unknown Artist"@)
        &&& self.artist_id == int_at(artist, "id"@)
        &&& seen(self.released) == or_else(
            text_at(value, "release_date_original"@),
            text_at(value, "released_at"@),
        )
        &&& seen(self.genre) == inner_name(value, "genre"@)
        &&& self.tracks_count == int_at(value, "tracks_count"@)
        &&& seen(self.image) == image_of(value)
        &&& seen(self.label) == inner_name(value, "label"@)
    }

    pub fn parse(value: &Json) -> (album: Option<Self>)
        ensures
            album is Some <==> id_at(*value, "id"@) is Some,
            album matches Some(a) ==> a.reads(*value),
    {
        let id = match value.as_id_string("id") {
            Some(id) => id,
            None => return None,
        };
        let nothing = Json::Null;
        let artist: &Json = match value.get("artist") {
            Some(found) => found,
            None => match value.get("performer") {
                Some(found) => found,
                None => &nothing,
            },
        };
        Some(
            RemoteAlbum {
                id,
                title: text_or(value.text("title"), "Unknown Album"),
                artist: text_or(artist.text("name"), "Unknown Artist"),
                artist_id: artist.as_i64("id"),
                released: or_else_text(
                    value.text("release_date_original"),
                    value.text("released_at"),
                ),
                genre: value.name_of("genre"),
                tracks_count: value.as_i64("tracks_count"),
                image: image(value),
                label: value.name_of("label"),
            },
        )
    }

    /// Just the year, which is all the list rows have room for: the first four
    /// bytes of the date, where it has them.
    pub fn year(&self) -> (year: String)
        ensures
            year@ == (match seen(self.released) {
                Some(date) => or_text(first_bytes(date, 4), Seq::empty()),
                None => Seq::empty(),
            }),
    {
        match &self.released {
            Some(date) => match byte_prefix(date.as_str(), 4) {
                Some(year) => year,
                None => String::new(),
            },
            None => String::new(),
        }
    }
}

/// The name of a nested object, empty or not.
pub open spec fn inner_name(value: Json, key: Seq<char>) -> Option<Seq<char>> {
    match member(value, key) {
        Some(inner) => text_value(member(inner, "name"@)),
        None => None,
    }
}

impl RemoteArtist {
    pub fn parse(value: &Json) -> (artist: Option<Self>)
        ensures
            artist is Some <==> int_at(*value, "id"@) is Some,
            artist matches Some(a) ==> {
                &&& int_at(*value, "id"@) == Some(a.id)
                &&& a.name@ == or_text(text_at(*value, "name"@), "Unknown Artist"@)
                &&& a.albums_count == int_at(*value, "albums_count"@)
                &&& seen(a.image) == image_of(*value)
            },
    {
        match value.as_i64("id") {
            Some(id) => Some(
                RemoteArtist {
                    id,
                    name: text_or(value.text("name"), "Unknown Artist"),
                    albums_count: value.as_i64("albums_count"),
                    image: image(value),
                },
            ),
            None => None,
        }
    }
}

impl RemotePlaylist {
    pub fn parse(value: &Json) -> (playlist: Option<Self>)
        ensures
            playlist is Some <==> int_at(*value, "id"@) is Some,
            playlist matches Some(p) ==> {
                &&& int_at(*value, "id"@) == Some(p.id)
                &&& p.name@ == or_text(text_at(*value, "name"@), "Untitled playlist"@)
                &&& p.tracks_count == int_at(*value, "tracks_count"@)
                &&& seen(p.owner) == inner_name(*value, "owner"@)
            },
    {
        match value.as_i64("id") {
            Some(id) => Some(
                RemotePlaylist {
                    id,
                    name: text_or(value.text("name"), "Untitled playlist"),
                    tracks_count: value.as_i64("tracks_count"),
                    owner: value.name_of("owner"),
                },
            ),
            None => None,
        }
    }
}

// --------------------------------------------------------------- discography

/// An album nothing says is someone else's.
pub open spec fn is_own(artist_id: i64, album: RemoteAlbum) -> bool {
    album.artist_id is None || album.artist_id == Some(artist_id)
}

pub open spec fn own_of(artist_id: i64, albums: Seq<RemoteAlbum>) -> Seq<RemoteAlbum> {
    albums.filter(|album: RemoteAlbum| is_own(artist_id, album))
}

/// Keep only the albums whose main artist is `artist_id`.
///
/// A discography as reported is every album the artist is *credited* on, and
/// covers credit the original composer, so a much-covered band's comes back
/// mostly other people's albums. An album whose artist is not reported is
/// kept: nothing says it is someone else's.
pub fn own_releases(artist_id: i64, albums: Vec<RemoteAlbum>) -> (own: Vec<RemoteAlbum>)
    ensures
        own@ == own_of(artist_id, albums@),
{
    let ghost keep = |album: RemoteAlbum| is_own(artist_id, album);
    let mut own: Vec<RemoteAlbum> = Vec::new();
    let mut i: usize = 0;
    proof {
        reveal(Seq::filter);
        assert(albums@.take(0) =~= Seq::empty());
    }
    while i < albums.len()
        invariant
            i <= albums@.len(),
            keep == (|album: RemoteAlbum| is_own(artist_id, album)),
            own@ == albums@.take(i as int).filter(keep),
        decreases albums@.len() - i,
    {
        proof {
            reveal(Seq::filter);
            assert(albums@.take(i + 1).drop_last() =~= albums@.take(i as int));
            assert(albums@.take(i + 1).last() == albums@[i as int]);
        }
        let mine: bool = match albums[i].artist_id {
            None => true,
            Some(id) => id == artist_id,
        };
        if mine {
            own.push(albums[i].clone());
        }
        i = i + 1;
    }
    assert(albums@.take(albums@.len() as int) =~= albums@);
    own
}

/// Filtering a list that is already filtered changes nothing, so it does not
/// matter that both ends of the wire do it.
pub proof fn own_releases_settle(artist_id: i64, albums: Seq<RemoteAlbum>)
    ensures
        own_of(artist_id, own_of(artist_id, albums)) == own_of(artist_id, albums),
    decreases albums.len(),
{
    reveal(Seq::filter);
    if albums.len() > 0 {
        own_releases_settle(artist_id, albums.drop_last());
        let rest = own_of(artist_id, albums.drop_last());
        if is_own(artist_id, albums.last()) {
            let all = rest.push(albums.last());
            assert(all.drop_last() =~= rest);
        }
    }
}

} // verus!
