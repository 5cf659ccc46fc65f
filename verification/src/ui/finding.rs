//! What a search finds: in the space, and in what the catalogue returned.

use crate::db::{Catalog, TrackMeta};
use crate::json::seen;
use crate::qobuz::{cover_of, cover_url, RemoteAlbum, RemoteArtist, RemoteTrack, SearchResults};
use crate::strings::{
    begins_with, contains, is_word, lower_of, lowercase, occurs_at, occurs_in, starts_with, trim,
    trim_of, views, white, words, words_of,
};
use crate::ui::context::{SpaceRow, LIST_CAP, SEARCH_LIMIT};
use crate::ui::library::{holds_every, names_track, Scope, Shelf, View};
use std::collections::HashMap;
use vstd::hash_map::StringHashMap;
use vstd::prelude::*;
use vstd::view::View as _;

verus! {

broadcast use vstd::std_specs::hash::group_hash_axioms;

/// The most rows a scan of the space will hand over. The list shows fewer to
/// begin with and grows on request; this is the ceiling on what is kept ready.
pub const SHOWN: usize = 720;

/// How many similar artists are shown under a discography.
pub const SIMILAR_LIMIT: usize = 20;

/// What was typed, as the words to look for.
pub open spec fn terms_of(query: Seq<char>) -> Seq<Seq<char>> {
    words_of(lower_of(query))
}

pub fn terms(query: &str) -> (out: Vec<String>)
    ensures
        views(out@) == terms_of(query@),
{
    words(lowercase(query).as_str())
}

// ------------------------------------------------------------ the haystacks

/// A track's searchable text, lowercased once. Fields stay separate rather than
/// being joined: terms are split on whitespace, so no term can span a field
/// boundary, which makes "matches any field" and "matches the joined string"
/// the same test, without the join's allocation.
#[derive(Debug, PartialEq)]
pub struct Haystack {
    pub artist: String,
    pub title: String,
    pub album: String,
}

/// Some field of the three holds the term.
pub open spec fn any_holds(
    artist: Seq<char>,
    title: Seq<char>,
    album: Seq<char>,
    term: Seq<char>,
) -> bool {
    occurs_in(artist, term) || occurs_in(title, term) || occurs_in(album, term)
}

/// Every term is held by some field of the three.
pub open spec fn all_held(
    artist: Seq<char>,
    title: Seq<char>,
    album: Seq<char>,
    terms: Seq<Seq<char>>,
) -> bool {
    forall|i: int| 0 <= i < terms.len() ==> any_holds(artist, title, album, #[trigger] terms[i])
}

impl Haystack {
    pub open spec fn holds(self, term: Seq<char>) -> bool {
        any_holds(self.artist@, self.title@, self.album@, term)
    }

    pub open spec fn holds_all(self, terms: Seq<Seq<char>>) -> bool {
        all_held(self.artist@, self.title@, self.album@, terms)
    }

    /// This is the searchable text of a track.
    pub open spec fn reads(self, artist: Seq<char>, title: Seq<char>, album: Seq<char>) -> bool {
        &&& self.artist@ == lower_of(artist)
        &&& self.title@ == lower_of(title)
        &&& self.album@ == lower_of(album)
    }

    pub fn of(artist: &str, title: &str, album: &str) -> (hay: Self)
        ensures
            hay.reads(artist@, title@, album@),
    {
        Haystack { artist: lowercase(artist), title: lowercase(title), album: lowercase(album) }
    }

    pub fn contains(&self, term: &str) -> (yes: bool)
        ensures
            yes == self.holds(term@),
    {
        contains(self.artist.as_str(), term) || contains(self.title.as_str(), term) || contains(
            self.album.as_str(),
            term,
        )
    }

    pub fn contains_all(&self, terms: &Vec<String>) -> (yes: bool)
        ensures
            yes == self.holds_all(views(terms@)),
    {
        let mut i: usize = 0;
        while i < terms.len()
            invariant
                i <= terms@.len(),
                forall|k: int| 0 <= k < i ==> self.holds(#[trigger] views(terms@)[k]),
            decreases terms@.len() - i,
        {
            assert(views(terms@)[i as int] == terms@[i as int]@);
            if !self.contains(terms[i].as_str()) {
                return false;
            }
            i = i + 1;
        }
        true
    }
}

/// The three fields as one text.
pub open spec fn in_one(artist: Seq<char>, title: Seq<char>, album: Seq<char>) -> Seq<char> {
    artist + seq![' '] + title + seq![' '] + album
}

proof fn lemma_a_word_is_on_one_side(a: Seq<char>, b: Seq<char>, term: Seq<char>)
    requires
        is_word(term),
    ensures
        occurs_in(a + seq![' '] + b, term) == (occurs_in(a, term) || occurs_in(b, term)),
{
    let all = a + seq![' '] + b;
    if occurs_in(all, term) {
        let at = choose|at: int| occurs_at(all, term, at);
        assert(white(' '));
        if at + term.len() <= a.len() {
            assert(a.subrange(at, at + term.len()) =~= all.subrange(at, at + term.len()));
            assert(occurs_at(a, term, at));
        } else if at > a.len() {
            let to = at - a.len() - 1;
            assert(b.subrange(to, to + term.len()) =~= all.subrange(at, at + term.len()));
            assert(occurs_at(b, term, to));
        } else {
            let gap = a.len() - at;
            assert(all.subrange(at, at + term.len())[gap] == ' ');
            assert(term[gap] == ' ');
            assert(false);
        }
    }
    if occurs_in(a, term) {
        let at = choose|at: int| occurs_at(a, term, at);
        assert(all.subrange(at, at + term.len()) =~= a.subrange(at, at + term.len()));
        assert(occurs_at(all, term, at));
    }
    if occurs_in(b, term) {
        let at = choose|at: int| occurs_at(b, term, at);
        let to = at + a.len() + 1;
        assert(all.subrange(to, to + term.len()) =~= b.subrange(at, at + term.len()));
        assert(occurs_at(all, term, to));
    }
}

/// A word is held by some field exactly where it stands in the fields joined
/// by spaces.
pub proof fn any_field_is_the_joined_text(
    artist: Seq<char>,
    title: Seq<char>,
    album: Seq<char>,
    term: Seq<char>,
)
    requires
        is_word(term),
    ensures
        any_holds(artist, title, album, term) == occurs_in(in_one(artist, title, album), term),
{
    lemma_a_word_is_on_one_side(artist, title, term);
    lemma_a_word_is_on_one_side(artist + seq![' '] + title, album, term);
}

/// What is typed never asks for anything but words, so a query matches a
/// track field by field exactly where it matches the fields joined by spaces.
pub proof fn a_query_cannot_span_fields(
    artist: Seq<char>,
    title: Seq<char>,
    album: Seq<char>,
    query: Seq<char>,
)
    ensures
        all_held(artist, title, album, terms_of(query)) == holds_every(
            terms_of(query),
            in_one(artist, title, album),
        ),
{
    crate::strings::words_are_words(lower_of(query));
    let terms = terms_of(query);
    assert forall|i: int| 0 <= i < terms.len() implies any_holds(
        artist,
        title,
        album,
        #[trigger] terms[i],
    ) == occurs_in(in_one(artist, title, album), terms[i]) by {
        any_field_is_the_joined_text(artist, title, album, terms[i]);
    }
}

/// One haystack for each row of the catalog. Not filtered by who is hidden:
/// that changes far more often than the space does, and the filter applies it
/// anyway.
pub fn haystacks(catalog: &Catalog) -> (rows: Vec<Haystack>)
    ensures
        rows@.len() == catalog.tracks@.len(),
        forall|i: int|
            0 <= i < rows@.len() ==> (#[trigger] rows@[i]).reads(
                catalog.tracks@[i].artist@,
                catalog.tracks@[i].title@,
                catalog.tracks@[i].album@,
            ),
{
    let mut rows: Vec<Haystack> = Vec::new();
    while rows.len() < catalog.tracks.len()
        invariant
            rows@.len() <= catalog.tracks@.len(),
            forall|i: int|
                0 <= i < rows@.len() ==> (#[trigger] rows@[i]).reads(
                    catalog.tracks@[i].artist@,
                    catalog.tracks@[i].title@,
                    catalog.tracks@[i].album@,
                ),
        decreases catalog.tracks@.len() - rows@.len(),
    {
        let track = &catalog.tracks[rows.len()];
        rows.push(
            Haystack::of(track.artist.as_str(), track.title.as_str(), track.album.as_str()),
        );
    }
    rows
}

// ---------------------------------------------------------------- the space

/// `row` is a track of the space, as the list shows it.
pub open spec fn lists(row: SpaceRow, track: TrackMeta) -> bool {
    &&& row.track_id == track.track_id
    &&& row.artist == track.artist
    &&& row.artist_id == (if track.artist_id >= 0 {
        Some(track.artist_id)
    } else {
        None
    })
    &&& row.title == track.title
    &&& row.album == track.album
    &&& row.album_id == track.album_id
}

pub fn space_row(track: &TrackMeta) -> (row: SpaceRow)
    ensures
        lists(row, *track),
{
    SpaceRow {
        track_id: track.track_id,
        artist: track.artist.clone(),
        artist_id: if track.artist_id >= 0 {
            Some(track.artist_id)
        } else {
            None
        },
        title: track.title.clone(),
        album: track.album.clone(),
        album_id: track.album_id.clone(),
    }
}

/// The rows that lead first, then the others, each in the order they came.
pub open spec fn led(rows: Seq<usize>, leads: spec_fn(usize) -> bool) -> Seq<usize> {
    rows.filter(leads) + rows.filter(|r: usize| !leads(r))
}

fn leading_first(
    rows: &Vec<usize>,
    flags: &Vec<bool>,
    Ghost(leads): Ghost<spec_fn(usize) -> bool>,
) -> (out: Vec<usize>)
    requires
        flags@.len() == rows@.len(),
        forall|k: int| 0 <= k < rows@.len() ==> #[trigger] flags@[k] == leads(rows@[k]),
    ensures
        out@ == led(rows@, leads),
{
    let ghost trails = |r: usize| !leads(r);
    let mut front: Vec<usize> = Vec::new();
    let mut rest: Vec<usize> = Vec::new();
    let mut k: usize = 0;
    proof {
        reveal(Seq::filter);
        assert(rows@.take(0).filter(leads) =~= Seq::empty());
        assert(rows@.take(0).filter(trails) =~= Seq::empty());
    }
    while k < rows.len()
        invariant
            k <= rows@.len(),
            flags@.len() == rows@.len(),
            forall|k: int| 0 <= k < rows@.len() ==> #[trigger] flags@[k] == leads(rows@[k]),
            trails == (|r: usize| !leads(r)),
            front@ == rows@.take(k as int).filter(leads),
            rest@ == rows@.take(k as int).filter(trails),
        decreases rows@.len() - k,
    {
        proof {
            reveal(Seq::filter);
            assert(rows@.take(k + 1).drop_last() =~= rows@.take(k as int));
        }
        if flags[k] {
            front.push(rows[k]);
        } else {
            rest.push(rows[k]);
        }
        k = k + 1;
    }
    assert(rows@.take(rows@.len() as int) =~= rows@);
    front.append(&mut rest);
    front
}

/// The visible rows whose text holds every term. A row the haystacks do not
/// reach is left out: they are about to be rebuilt.
pub open spec fn hits(catalog: Catalog, hays: Seq<Haystack>, terms: Seq<Seq<char>>) -> Seq<usize> {
    catalog.visible_rows(catalog.tracks@.len()).filter(
        |r: usize| r < hays.len() && hays[r as int].holds_all(terms),
    )
}

/// Something starting with what was typed is far likelier to be the thing
/// meant than something merely containing it.
pub open spec fn leads_track(hays: Seq<Haystack>, first: Seq<char>) -> spec_fn(usize) -> bool {
    |r: usize|
        begins_with(hays[r as int].artist@, first) || begins_with(hays[r as int].title@, first)
}

/// The rows a query brings up, in the order they are listed.
pub open spec fn found(catalog: Catalog, hays: Seq<Haystack>, query: Seq<char>) -> Seq<usize> {
    let terms = terms_of(query);
    if terms.len() == 0 {
        catalog.visible_rows(catalog.tracks@.len())
    } else {
        led(hits(catalog, hays, terms), leads_track(hays, terms[0]))
    }
}

proof fn lemma_visible_rows_are_rows(catalog: Catalog, n: nat)
    requires
        n <= catalog.tracks@.len() <= usize::MAX,
    ensures
        forall|k: int|
            0 <= k < catalog.visible_rows(n).len() ==> #[trigger] catalog.visible_rows(n)[k] < n,
    decreases n,
{
    if n > 0 {
        let all = catalog.visible_rows(n);
        let rest = catalog.visible_rows((n - 1) as nat);
        lemma_visible_rows_are_rows(catalog, (n - 1) as nat);
        assert forall|k: int| 0 <= k < all.len() implies #[trigger] all[k] < n by {
            if k < rest.len() {
                assert(all[k] == rest[k]);
            }
        }
    }
}

/// A filtered list holds nothing that the list did not.
proof fn lemma_filter_keeps_below(rows: Seq<usize>, keep: spec_fn(usize) -> bool, n: int)
    requires
        forall|k: int| 0 <= k < rows.len() ==> #[trigger] rows[k] < n,
    ensures
        forall|k: int| 0 <= k < rows.filter(keep).len() ==> #[trigger] rows.filter(keep)[k] < n,
        forall|k: int| 0 <= k < rows.filter(keep).len() ==> keep(#[trigger] rows.filter(keep)[k]),
        rows.filter(keep).len() <= rows.len(),
    decreases rows.len(),
{
    reveal(Seq::filter);
    if rows.len() > 0 {
        lemma_filter_keeps_below(rows.drop_last(), keep, n);
    }
}

proof fn lemma_led_keeps_all(rows: Seq<usize>, leads: spec_fn(usize) -> bool)
    ensures
        led(rows, leads).len() == rows.len(),
    decreases rows.len(),
{
    reveal(Seq::filter);
    if rows.len() > 0 {
        lemma_led_keeps_all(rows.drop_last(), leads);
    }
}

/// The rows a query brings up and how many there are in all.
pub fn filter(catalog: &Catalog, hays: &Vec<Haystack>, query: &str) -> (out: (Vec<SpaceRow>, usize))
    ensures
        ({
            let rows = found(*catalog, hays@, query@);
            &&& out.1 == rows.len()
            &&& out.0@.len() == (if rows.len() < SHOWN {
                rows.len()
            } else {
                SHOWN as nat
            })
            &&& forall|k: int|
                0 <= k < out.0@.len() ==> lists(
                    #[trigger] out.0@[k],
                    catalog.tracks@[rows[k] as int],
                )
        }),
{
    let ghost tracks = catalog.tracks@;
    let n: usize = catalog.tracks.len();
    let asked = terms(query);
    assert(views(asked@).len() == asked@.len());
    let visible = catalog.visible();
    proof {
        lemma_visible_rows_are_rows(*catalog, tracks.len());
    }
    let rows: Vec<usize> = if asked.len() == 0 {
        visible
    } else {
        let ghost want = terms_of(query@);
        let ghost keep = |r: usize| r < hays@.len() && hays@[r as int].holds_all(want);
        let ghost leads = leads_track(hays@, want[0]);
        assert(views(asked@)[0] == asked@[0]@);
        let first = asked[0].as_str();
        let mut kept: Vec<usize> = Vec::new();
        let mut flags: Vec<bool> = Vec::new();
        let mut k: usize = 0;
        proof {
            reveal(Seq::filter);
            assert(visible@.take(0).filter(keep) =~= Seq::empty());
        }
        while k < visible.len()
            invariant
                k <= visible@.len(),
                views(asked@) == want,
                want == terms_of(query@),
                first@ == want[0],
                keep == (|r: usize| r < hays@.len() && hays@[r as int].holds_all(want)),
                leads == leads_track(hays@, want[0]),
                kept@ == visible@.take(k as int).filter(keep),
                flags@.len() == kept@.len(),
                forall|j: int| 0 <= j < kept@.len() ==> #[trigger] flags@[j] == leads(kept@[j]),
            decreases visible@.len() - k,
        {
            proof {
                reveal(Seq::filter);
                assert(visible@.take(k + 1).drop_last() =~= visible@.take(k as int));
            }
            let r: usize = visible[k];
            if r < hays.len() && hays[r].contains_all(&asked) {
                let leading: bool = starts_with(hays[r].artist.as_str(), first) || starts_with(
                    hays[r].title.as_str(),
                    first,
                );
                kept.push(r);
                flags.push(leading);
            }
            k = k + 1;
        }
        proof {
            assert(visible@.take(visible@.len() as int) =~= visible@);
            assert(kept@ == hits(*catalog, hays@, want));
            lemma_filter_keeps_below(visible@, keep, n as int);
            lemma_led_keeps_all(kept@, leads);
            lemma_filter_keeps_below(kept@, leads, n as int);
            lemma_filter_keeps_below(kept@, |r: usize| !leads(r), n as int);
        }
        leading_first(&kept, &flags, Ghost(leads))
    };
    assert(rows@ == found(*catalog, hays@, query@));
    assert(forall|k: int| 0 <= k < rows@.len() ==> #[trigger] rows@[k] < n);
    let mut out: Vec<SpaceRow> = Vec::new();
    while out.len() < rows.len() && out.len() < SHOWN
        invariant
            n == catalog.tracks@.len(),
            out@.len() <= rows@.len(),
            out@.len() <= SHOWN,
            forall|k: int| 0 <= k < rows@.len() ==> #[trigger] rows@[k] < n,
            forall|k: int|
                0 <= k < out@.len() ==> lists(
                    #[trigger] out@[k],
                    catalog.tracks@[rows@[k] as int],
                ),
        decreases rows@.len() - out@.len(),
    {
        let r: usize = rows[out.len()];
        out.push(space_row(catalog.get(r)));
    }
    (out, rows.len())
}

// ----------------------------------------------------- the catalogue's answer

/// A tracks search keeps what is named after the query, and what the test
/// cannot place at all: the catalogue matches more loosely than a substring
/// test. What goes is only what the artist's or album's name brought in.
pub open spec fn keeps_track(terms: Seq<Seq<char>>, track: RemoteTrack) -> bool {
    holds_every(terms, lower_of(track.title@)) || !all_held(
        lower_of(track.artist@),
        lower_of(track.title@),
        lower_of(track.album@),
        terms,
    )
}

/// What the catalogue found, narrowed to what was asked for.
pub fn search_shelf(query: &str, scope: Scope, results: SearchResults) -> (shelf: Shelf)
    ensures
        shelf.tracks@ == (match scope {
            Scope::Everything => results.tracks@,
            Scope::Tracks => results.tracks@.filter(
                |t: RemoteTrack| keeps_track(terms_of(query@), t),
            ),
            _ => Seq::empty(),
        }),
        shelf.albums@ == (if scope == Scope::Everything || scope == Scope::Albums {
            results.albums@
        } else {
            Seq::empty()
        }),
        shelf.artists@ == (if scope == Scope::Everything || scope == Scope::Artists {
            results.artists@
        } else {
            Seq::empty()
        }),
        shelf.playlists@.len() == 0,
        shelf.similar@.len() == 0,
{
    let mut shelf = Shelf::default();
    if scope.albums() {
        shelf.albums = results.albums;
    }
    if scope.artists() {
        shelf.artists = results.artists;
    }
    if scope == Scope::Tracks {
        shelf.tracks = keep_named(query, &results.tracks);
    } else if scope.tracks() {
        shelf.tracks = results.tracks;
    }
    shelf
}

fn keep_named(query: &str, tracks: &Vec<RemoteTrack>) -> (kept: Vec<RemoteTrack>)
    ensures
        kept@ == tracks@.filter(|t: RemoteTrack| keeps_track(terms_of(query@), t)),
{
    let asked = terms(query);
    let ghost want = terms_of(query@);
    let ghost keep = |t: RemoteTrack| keeps_track(want, t);
    let mut kept: Vec<RemoteTrack> = Vec::new();
    let mut i: usize = 0;
    proof {
        reveal(Seq::filter);
        assert(tracks@.take(0).filter(keep) =~= Seq::empty());
    }
    while i < tracks.len()
        invariant
            i <= tracks@.len(),
            views(asked@) == want,
            want == terms_of(query@),
            keep == (|t: RemoteTrack| keeps_track(want, t)),
            kept@ == tracks@.take(i as int).filter(keep),
        decreases tracks@.len() - i,
    {
        proof {
            reveal(Seq::filter);
            assert(tracks@.take(i + 1).drop_last() =~= tracks@.take(i as int));
        }
        let track = &tracks[i];
        let hay = Haystack::of(track.artist.as_str(), track.title.as_str(), track.album.as_str());
        if names_track(&asked, hay.title.as_str()) || !hay.contains_all(&asked) {
            kept.push(track.clone());
        }
        i = i + 1;
    }
    assert(tracks@.take(tracks@.len() as int) =~= tracks@);
    kept
}

// ------------------------------------------------------------------ groups

/// The visible rows whose text holds every term.
pub open spec fn matching(catalog: Catalog, terms: Seq<Seq<char>>) -> Seq<usize> {
    catalog.visible_rows(catalog.tracks@.len()).filter(
        |r: usize|
            all_held(
                lower_of(catalog.tracks@[r as int].artist@),
                lower_of(catalog.tracks@[r as int].title@),
                lower_of(catalog.tracks@[r as int].album@),
                terms,
            ),
    )
}

pub open spec fn has_album(tracks: Seq<TrackMeta>, rows: Seq<usize>, id: Seq<char>) -> bool {
    exists|k: int| 0 <= k < rows.len() && tracks[(#[trigger] rows[k]) as int].album_id@ == id
}

/// The first of the rows on each album, where they are on one.
pub open spec fn album_firsts(tracks: Seq<TrackMeta>, rows: Seq<usize>) -> Seq<usize>
    decreases rows.len(),
{
    if rows.len() == 0 {
        Seq::empty()
    } else {
        let rest = rows.drop_last();
        let id = tracks[rows.last() as int].album_id@;
        if id.len() == 0 || has_album(tracks, rest, id) {
            album_firsts(tracks, rest)
        } else {
            album_firsts(tracks, rest).push(rows.last())
        }
    }
}

pub open spec fn has_artist(tracks: Seq<TrackMeta>, rows: Seq<usize>, id: i64) -> bool {
    exists|k: int| 0 <= k < rows.len() && tracks[(#[trigger] rows[k]) as int].artist_id == id
}

/// The first of the rows by each artist, where they are by one.
pub open spec fn artist_firsts(tracks: Seq<TrackMeta>, rows: Seq<usize>) -> Seq<usize>
    decreases rows.len(),
{
    if rows.len() == 0 {
        Seq::empty()
    } else {
        let rest = rows.drop_last();
        let id = tracks[rows.last() as int].artist_id;
        if id < 0 || has_artist(tracks, rest, id) {
            artist_firsts(tracks, rest)
        } else {
            artist_firsts(tracks, rest).push(rows.last())
        }
    }
}

/// A track whose artist or album is named after what was typed first.
pub open spec fn names_album(track: TrackMeta, first: Seq<char>) -> bool {
    begins_with(lower_of(track.artist@), first) || begins_with(lower_of(track.album@), first)
}

/// Some row on the same album is named so.
pub open spec fn album_leads(
    tracks: Seq<TrackMeta>,
    rows: Seq<usize>,
    first: Seq<char>,
    id: Seq<char>,
) -> bool {
    exists|k: int|
        0 <= k < rows.len() && tracks[(#[trigger] rows[k]) as int].album_id@ == id && names_album(
            tracks[rows[k] as int],
            first,
        )
}

/// Some row by the same artist has the artist named so.
pub open spec fn artist_leads(
    tracks: Seq<TrackMeta>,
    rows: Seq<usize>,
    first: Seq<char>,
    id: i64,
) -> bool {
    exists|k: int|
        0 <= k < rows.len() && tracks[(#[trigger] rows[k]) as int].artist_id == id && begins_with(
            lower_of(tracks[rows[k] as int].artist@),
            first,
        )
}

/// `album` is the album that a track of the space is on.
pub open spec fn album_behind(album: RemoteAlbum, track: TrackMeta) -> bool {
    &&& album.id == track.album_id
    &&& album.title == track.album
    &&& album.artist == track.artist
    &&& album.artist_id == (if track.artist_id >= 0 {
        Some(track.artist_id)
    } else {
        None
    })
    &&& album.released is None
    &&& album.genre is None
    &&& album.tracks_count is None
    &&& seen(album.image) == cover_of(track.album_id@)
    &&& album.label is None
}

/// `artist` is the artist that a track of the space is by.
pub open spec fn artist_behind(artist: RemoteArtist, track: TrackMeta) -> bool {
    &&& artist.id == track.artist_id
    &&& artist.name == track.artist
    &&& artist.albums_count is None
    &&& artist.image is None
}

/// The rows that stand for the albums a query brings up, in the order listed.
pub open spec fn album_rows(catalog: Catalog, query: Seq<char>) -> Seq<usize> {
    let terms = terms_of(query);
    let tracks = catalog.tracks@;
    if terms.len() == 0 {
        Seq::empty()
    } else {
        let rows = matching(catalog, terms);
        led(
            album_firsts(tracks, rows),
            |r: usize| album_leads(tracks, rows, terms[0], tracks[r as int].album_id@),
        )
    }
}

/// The rows that stand for the artists a query brings up, in the order listed.
pub open spec fn artist_rows(catalog: Catalog, query: Seq<char>) -> Seq<usize> {
    let terms = terms_of(query);
    let tracks = catalog.tracks@;
    if terms.len() == 0 {
        Seq::empty()
    } else {
        let rows = matching(catalog, terms);
        led(
            artist_firsts(tracks, rows),
            |r: usize| artist_leads(tracks, rows, terms[0], tracks[r as int].artist_id),
        )
    }
}

fn matching_rows(catalog: &Catalog, asked: &Vec<String>) -> (rows: Vec<usize>)
    ensures
        rows@ == matching(*catalog, views(asked@)),
        forall|k: int| 0 <= k < rows@.len() ==> #[trigger] rows@[k] < catalog.tracks@.len(),
{
    let n: usize = catalog.tracks.len();
    let ghost tracks = catalog.tracks@;
    let ghost want = views(asked@);
    let ghost keep = |r: usize|
        all_held(
            lower_of(tracks[r as int].artist@),
            lower_of(tracks[r as int].title@),
            lower_of(tracks[r as int].album@),
            want,
        );
    let visible = catalog.visible();
    let mut rows: Vec<usize> = Vec::new();
    let mut k: usize = 0;
    proof {
        lemma_visible_rows_are_rows(*catalog, tracks.len());
        reveal(Seq::filter);
        assert(visible@.take(0).filter(keep) =~= Seq::empty());
    }
    while k < visible.len()
        invariant
            k <= visible@.len(),
            n == catalog.tracks@.len(),
            tracks == catalog.tracks@,
            want == views(asked@),
            keep == (|r: usize|
                all_held(
                    lower_of(tracks[r as int].artist@),
                    lower_of(tracks[r as int].title@),
                    lower_of(tracks[r as int].album@),
                    want,
                )),
            forall|k: int| 0 <= k < visible@.len() ==> #[trigger] visible@[k] < n,
            rows@ == visible@.take(k as int).filter(keep),
        decreases visible@.len() - k,
    {
        proof {
            reveal(Seq::filter);
            assert(visible@.take(k + 1).drop_last() =~= visible@.take(k as int));
        }
        let r: usize = visible[k];
        let track = catalog.get(r);
        let hay = Haystack::of(track.artist.as_str(), track.title.as_str(), track.album.as_str());
        if hay.contains_all(asked) {
            rows.push(r);
        }
        k = k + 1;
    }
    proof {
        assert(visible@.take(visible@.len() as int) =~= visible@);
        lemma_filter_keeps_below(visible@, keep, n as int);
    }
    rows
}

proof fn lemma_album_firsts_are_rows(tracks: Seq<TrackMeta>, rows: Seq<usize>, n: int)
    requires
        forall|k: int| 0 <= k < rows.len() ==> #[trigger] rows[k] < n,
    ensures
        forall|k: int|
            0 <= k < album_firsts(tracks, rows).len() ==> #[trigger] album_firsts(tracks, rows)[k]
                < n,
    decreases rows.len(),
{
    if rows.len() > 0 {
        let all = album_firsts(tracks, rows);
        let rest = album_firsts(tracks, rows.drop_last());
        lemma_album_firsts_are_rows(tracks, rows.drop_last(), n);
        assert forall|k: int| 0 <= k < all.len() implies #[trigger] all[k] < n by {
            if k < rest.len() {
                assert(all[k] == rest[k]);
            } else {
                assert(all[k] == rows[rows.len() - 1]);
            }
        }
    }
}

proof fn lemma_artist_firsts_are_rows(tracks: Seq<TrackMeta>, rows: Seq<usize>, n: int)
    requires
        forall|k: int| 0 <= k < rows.len() ==> #[trigger] rows[k] < n,
    ensures
        forall|k: int|
            0 <= k < artist_firsts(tracks, rows).len() ==> #[trigger] artist_firsts(tracks, rows)[k]
                < n,
    decreases rows.len(),
{
    if rows.len() > 0 {
        let all = artist_firsts(tracks, rows);
        let rest = artist_firsts(tracks, rows.drop_last());
        lemma_artist_firsts_are_rows(tracks, rows.drop_last(), n);
        assert forall|k: int| 0 <= k < all.len() implies #[trigger] all[k] < n by {
            if k < rest.len() {
                assert(all[k] == rest[k]);
            } else {
                assert(all[k] == rows[rows.len() - 1]);
            }
        }
    }
}

/// One more row on an album, or not.
proof fn lemma_album_grows(
    tracks: Seq<TrackMeta>,
    rows: Seq<usize>,
    first: Seq<char>,
    id: Seq<char>,
)
    requires
        rows.len() > 0,
    ensures
        has_album(tracks, rows, id) == (has_album(tracks, rows.drop_last(), id)
            || tracks[rows.last() as int].album_id@ == id),
        album_leads(tracks, rows, first, id) == (album_leads(tracks, rows.drop_last(), first, id)
            || (tracks[rows.last() as int].album_id@ == id && names_album(
            tracks[rows.last() as int],
            first,
        ))),
        album_leads(tracks, rows, first, id) ==> has_album(tracks, rows, id),
{
    let rest = rows.drop_last();
    if has_album(tracks, rows, id) {
        let k = choose|k: int|
            0 <= k < rows.len() && tracks[(#[trigger] rows[k]) as int].album_id@ == id;
        if k < rest.len() {
            assert(rest[k] == rows[k]);
        }
    }
    if has_album(tracks, rest, id) {
        let k = choose|k: int|
            0 <= k < rest.len() && tracks[(#[trigger] rest[k]) as int].album_id@ == id;
        assert(rest[k] == rows[k]);
    }
    if tracks[rows.last() as int].album_id@ == id {
        assert(rows[rows.len() - 1] == rows.last());
    }
    if album_leads(tracks, rows, first, id) {
        let k = choose|k: int|
            0 <= k < rows.len() && tracks[(#[trigger] rows[k]) as int].album_id@ == id
                && names_album(tracks[rows[k] as int], first);
        if k < rest.len() {
            assert(rest[k] == rows[k]);
        }
    }
    if album_leads(tracks, rest, first, id) {
        let k = choose|k: int|
            0 <= k < rest.len() && tracks[(#[trigger] rest[k]) as int].album_id@ == id
                && names_album(tracks[rest[k] as int], first);
        assert(rest[k] == rows[k]);
    }
}

proof fn lemma_artist_grows(tracks: Seq<TrackMeta>, rows: Seq<usize>, first: Seq<char>, id: i64)
    requires
        rows.len() > 0,
    ensures
        has_artist(tracks, rows, id) == (has_artist(tracks, rows.drop_last(), id)
            || tracks[rows.last() as int].artist_id == id),
        artist_leads(tracks, rows, first, id) == (artist_leads(tracks, rows.drop_last(), first, id)
            || (tracks[rows.last() as int].artist_id == id && begins_with(
            lower_of(tracks[rows.last() as int].artist@),
            first,
        ))),
        artist_leads(tracks, rows, first, id) ==> has_artist(tracks, rows, id),
{
    let rest = rows.drop_last();
    if has_artist(tracks, rows, id) {
        let k = choose|k: int|
            0 <= k < rows.len() && tracks[(#[trigger] rows[k]) as int].artist_id == id;
        if k < rest.len() {
            assert(rest[k] == rows[k]);
        }
    }
    if has_artist(tracks, rest, id) {
        let k = choose|k: int|
            0 <= k < rest.len() && tracks[(#[trigger] rest[k]) as int].artist_id == id;
        assert(rest[k] == rows[k]);
    }
    if tracks[rows.last() as int].artist_id == id {
        assert(rows[rows.len() - 1] == rows.last());
    }
    if artist_leads(tracks, rows, first, id) {
        let k = choose|k: int|
            0 <= k < rows.len() && tracks[(#[trigger] rows[k]) as int].artist_id == id
                && begins_with(lower_of(tracks[rows[k] as int].artist@), first);
        if k < rest.len() {
            assert(rest[k] == rows[k]);
        }
    }
    if artist_leads(tracks, rest, first, id) {
        let k = choose|k: int|
            0 <= k < rest.len() && tracks[(#[trigger] rest[k]) as int].artist_id == id
                && begins_with(lower_of(tracks[rest[k] as int].artist@), first);
        assert(rest[k] == rows[k]);
    }
}

/// The albums gathered so far: the rows that stand for them, whether each
/// leads, and where each id is filed.
spec fn gathers_albums(
    tracks: Seq<TrackMeta>,
    rows: Seq<usize>,
    first: Seq<char>,
    firsts: Seq<usize>,
    flags: Seq<bool>,
    at: Map<Seq<char>, usize>,
) -> bool {
    &&& firsts == album_firsts(tracks, rows)
    &&& flags.len() == firsts.len()
    &&& forall|e: int|
        0 <= e < firsts.len() ==> #[trigger] flags[e] == album_leads(
            tracks,
            rows,
            first,
            tracks[firsts[e] as int].album_id@,
        )
    &&& forall|id: Seq<char>|
        id.len() > 0 ==> (#[trigger] at.contains_key(id) <==> has_album(tracks, rows, id))
    &&& forall|id: Seq<char>| #[trigger]
        at.contains_key(id) ==> at[id] < firsts.len() && tracks[firsts[at[id] as int] as int].album_id@
            == id
    &&& forall|e: int|
        0 <= e < firsts.len() ==> tracks[#[trigger] firsts[e] as int].album_id@.len() > 0
            && at.contains_key(tracks[firsts[e] as int].album_id@) && at[tracks[firsts[e] as int].album_id@] == e
}

spec fn gathers_artists(
    tracks: Seq<TrackMeta>,
    rows: Seq<usize>,
    first: Seq<char>,
    firsts: Seq<usize>,
    flags: Seq<bool>,
    at: Map<i64, usize>,
) -> bool {
    &&& firsts == artist_firsts(tracks, rows)
    &&& flags.len() == firsts.len()
    &&& forall|e: int|
        0 <= e < firsts.len() ==> #[trigger] flags[e] == artist_leads(
            tracks,
            rows,
            first,
            tracks[firsts[e] as int].artist_id,
        )
    &&& forall|id: i64|
        id >= 0 ==> (#[trigger] at.contains_key(id) <==> has_artist(tracks, rows, id))
    &&& forall|id: i64| #[trigger]
        at.contains_key(id) ==> at[id] < firsts.len() && tracks[firsts[at[id] as int] as int].artist_id
            == id
    &&& forall|e: int|
        0 <= e < firsts.len() ==> tracks[#[trigger] firsts[e] as int].artist_id >= 0
            && at.contains_key(tracks[firsts[e] as int].artist_id) && at[tracks[firsts[e] as int].artist_id] == e
}

proof fn lemma_albums_gathered(
    tracks: Seq<TrackMeta>,
    rows: Seq<usize>,
    first: Seq<char>,
    firsts: Seq<usize>,
    flags: Seq<bool>,
    at: Map<Seq<char>, usize>,
    grown: Seq<usize>,
    raised: Seq<bool>,
    filed: Map<Seq<char>, usize>,
)
    requires
        rows.len() > 0,
        firsts.len() < usize::MAX,
        gathers_albums(tracks, rows.drop_last(), first, firsts, flags, at),
        ({
            let track = tracks[rows.last() as int];
            let id = track.album_id@;
            if id.len() == 0 {
                grown == firsts && raised == flags && filed == at
            } else if at.contains_key(id) {
                &&& grown == firsts
                &&& raised == flags.update(
                    at[id] as int,
                    flags[at[id] as int] || names_album(track, first),
                )
                &&& filed == at
            } else {
                &&& grown == firsts.push(rows.last())
                &&& raised == flags.push(names_album(track, first))
                &&& filed == at.insert(id, firsts.len() as usize)
            }
        }),
    ensures
        gathers_albums(tracks, rows, first, grown, raised, filed),
{
    let rest = rows.drop_last();
    let track = tracks[rows.last() as int];
    let mine = track.album_id@;
    lemma_album_grows(tracks, rows, first, mine);
    assert(grown == album_firsts(tracks, rows));
    assert forall|e: int| 0 <= e < grown.len() implies #[trigger] raised[e] == album_leads(
        tracks,
        rows,
        first,
        tracks[grown[e] as int].album_id@,
    ) by {
        let id = tracks[grown[e] as int].album_id@;
        lemma_album_grows(tracks, rows, first, id);
        if e < firsts.len() {
            assert(firsts[e] == grown[e]);
            assert(flags[e] == album_leads(tracks, rest, first, id));
            assert(at.contains_key(tracks[firsts[e] as int].album_id@));
        } else {
            if album_leads(tracks, rest, first, id) {
                let k = choose|k: int|
                    0 <= k < rest.len() && tracks[(#[trigger] rest[k]) as int].album_id@ == id
                        && names_album(tracks[rest[k] as int], first);
                assert(has_album(tracks, rest, id));
            }
        }
    }
    assert forall|id: Seq<char>| id.len() > 0 implies (#[trigger] filed.contains_key(id)
        <==> has_album(tracks, rows, id)) by {
        lemma_album_grows(tracks, rows, first, id);
    }
    assert forall|id: Seq<char>| #[trigger] filed.contains_key(id) implies filed[id] < grown.len()
        && tracks[grown[filed[id] as int] as int].album_id@ == id by {}
    assert forall|e: int| 0 <= e < grown.len() implies tracks[#[trigger] grown[e] as int].album_id@.len()
        > 0 && filed.contains_key(tracks[grown[e] as int].album_id@) && filed[tracks[grown[e] as int].album_id@] == e by {
        if e < firsts.len() {
            assert(firsts[e] == grown[e]);
            assert(at.contains_key(tracks[firsts[e] as int].album_id@));
        }
    }
}

proof fn lemma_artists_gathered(
    tracks: Seq<TrackMeta>,
    rows: Seq<usize>,
    first: Seq<char>,
    firsts: Seq<usize>,
    flags: Seq<bool>,
    at: Map<i64, usize>,
    grown: Seq<usize>,
    raised: Seq<bool>,
    filed: Map<i64, usize>,
)
    requires
        rows.len() > 0,
        firsts.len() < usize::MAX,
        gathers_artists(tracks, rows.drop_last(), first, firsts, flags, at),
        ({
            let track = tracks[rows.last() as int];
            let id = track.artist_id;
            let named = begins_with(lower_of(track.artist@), first);
            if id < 0 {
                grown == firsts && raised == flags && filed == at
            } else if at.contains_key(id) {
                &&& grown == firsts
                &&& raised == flags.update(at[id] as int, flags[at[id] as int] || named)
                &&& filed == at
            } else {
                &&& grown == firsts.push(rows.last())
                &&& raised == flags.push(named)
                &&& filed == at.insert(id, firsts.len() as usize)
            }
        }),
    ensures
        gathers_artists(tracks, rows, first, grown, raised, filed),
{
    let rest = rows.drop_last();
    let track = tracks[rows.last() as int];
    let mine = track.artist_id;
    lemma_artist_grows(tracks, rows, first, mine);
    assert(grown == artist_firsts(tracks, rows));
    assert forall|e: int| 0 <= e < grown.len() implies #[trigger] raised[e] == artist_leads(
        tracks,
        rows,
        first,
        tracks[grown[e] as int].artist_id,
    ) by {
        let id = tracks[grown[e] as int].artist_id;
        lemma_artist_grows(tracks, rows, first, id);
        if e < firsts.len() {
            assert(firsts[e] == grown[e]);
            assert(flags[e] == artist_leads(tracks, rest, first, id));
            assert(at.contains_key(tracks[firsts[e] as int].artist_id));
        } else {
            if artist_leads(tracks, rest, first, id) {
                let k = choose|k: int|
                    0 <= k < rest.len() && tracks[(#[trigger] rest[k]) as int].artist_id == id
                        && begins_with(lower_of(tracks[rest[k] as int].artist@), first);
                assert(has_artist(tracks, rest, id));
            }
        }
    }
    assert forall|id: i64| id >= 0 implies (#[trigger] filed.contains_key(id) <==> has_artist(
        tracks,
        rows,
        id,
    )) by {
        lemma_artist_grows(tracks, rows, first, id);
    }
    assert forall|e: int| 0 <= e < grown.len() implies tracks[#[trigger] grown[e] as int].artist_id
        >= 0 && filed.contains_key(tracks[grown[e] as int].artist_id) && filed[tracks[grown[e] as int].artist_id] == e by {
        if e < firsts.len() {
            assert(firsts[e] == grown[e]);
            assert(at.contains_key(tracks[firsts[e] as int].artist_id));
        }
    }
}

/// The rows that stand for the albums of `rows`, led by what was typed first.
fn group_albums(catalog: &Catalog, rows: &Vec<usize>, first: &str) -> (out: Vec<usize>)
    requires
        forall|k: int| 0 <= k < rows@.len() ==> #[trigger] rows@[k] < catalog.tracks@.len(),
    ensures
        out@ == led(
            album_firsts(catalog.tracks@, rows@),
            |r: usize|
                album_leads(
                    catalog.tracks@,
                    rows@,
                    first@,
                    catalog.tracks@[r as int].album_id@,
                ),
        ),
        forall|k: int| 0 <= k < out@.len() ==> #[trigger] out@[k] < catalog.tracks@.len(),
{
    let ghost tracks = catalog.tracks@;
    let mut firsts: Vec<usize> = Vec::new();
    let mut flags: Vec<bool> = Vec::new();
    let mut at: StringHashMap<usize> = StringHashMap::new();
    let mut k: usize = 0;
    assert(gathers_albums(tracks, rows@.take(0), first@, firsts@, flags@, at@)) by {
        assert(rows@.take(0).len() == 0);
        assert(album_firsts(tracks, rows@.take(0)) =~= Seq::empty());
    }
    while k < rows.len()
        invariant
            k <= rows@.len(),
            tracks == catalog.tracks@,
            forall|k: int| 0 <= k < rows@.len() ==> #[trigger] rows@[k] < catalog.tracks@.len(),
            firsts@.len() <= k,
            gathers_albums(tracks, rows@.take(k as int), first@, firsts@, flags@, at@),
        decreases rows@.len() - k,
    {
        let r: usize = rows[k];
        let track = catalog.get(r);
        let ghost now = rows@.take(k + 1);
        let ghost had = (firsts@, flags@, at@);
        assert(now.drop_last() =~= rows@.take(k as int));
        assert(now.last() == r);
        if !track.album_id.as_str().is_empty() {
            let artist = lowercase(track.artist.as_str());
            let album = lowercase(track.album.as_str());
            let named: bool = starts_with(artist.as_str(), first) || starts_with(
                album.as_str(),
                first,
            );
            let place: Option<usize> = match at.get(track.album_id.as_str()) {
                Some(e) => Some(*e),
                None => None,
            };
            match place {
                Some(e) => {
                    let led_already: bool = flags[e];
                    flags.set(e, led_already || named);
                },
                None => {
                    at.insert(track.album_id.clone(), firsts.len());
                    firsts.push(r);
                    flags.push(named);
                },
            }
        }
        proof {
            lemma_albums_gathered(
                tracks,
                now,
                first@,
                had.0,
                had.1,
                had.2,
                firsts@,
                flags@,
                at@,
            );
        }
        k = k + 1;
    }
    assert(rows@.take(rows@.len() as int) =~= rows@);
    let ghost leads = |r: usize|
        album_leads(tracks, rows@, first@, tracks[r as int].album_id@);
    proof {
        let n = tracks.len() as int;
        lemma_album_firsts_are_rows(tracks, rows@, n);
        lemma_filter_keeps_below(firsts@, leads, n);
        lemma_filter_keeps_below(firsts@, |r: usize| !leads(r), n);
    }
    leading_first(&firsts, &flags, Ghost(leads))
}

/// The rows that stand for the artists of `rows`, led by what was typed first.
fn group_artists(catalog: &Catalog, rows: &Vec<usize>, first: &str) -> (out: Vec<usize>)
    requires
        forall|k: int| 0 <= k < rows@.len() ==> #[trigger] rows@[k] < catalog.tracks@.len(),
    ensures
        out@ == led(
            artist_firsts(catalog.tracks@, rows@),
            |r: usize|
                artist_leads(
                    catalog.tracks@,
                    rows@,
                    first@,
                    catalog.tracks@[r as int].artist_id,
                ),
        ),
        forall|k: int| 0 <= k < out@.len() ==> #[trigger] out@[k] < catalog.tracks@.len(),
{
    let ghost tracks = catalog.tracks@;
    let mut firsts: Vec<usize> = Vec::new();
    let mut flags: Vec<bool> = Vec::new();
    let mut at: HashMap<i64, usize> = HashMap::new();
    let mut k: usize = 0;
    assert(gathers_artists(tracks, rows@.take(0), first@, firsts@, flags@, at@)) by {
        assert(rows@.take(0).len() == 0);
        assert(artist_firsts(tracks, rows@.take(0)) =~= Seq::empty());
    }
    while k < rows.len()
        invariant
            k <= rows@.len(),
            tracks == catalog.tracks@,
            forall|k: int| 0 <= k < rows@.len() ==> #[trigger] rows@[k] < catalog.tracks@.len(),
            firsts@.len() <= k,
            gathers_artists(tracks, rows@.take(k as int), first@, firsts@, flags@, at@),
        decreases rows@.len() - k,
    {
        let r: usize = rows[k];
        let track = catalog.get(r);
        let ghost now = rows@.take(k + 1);
        let ghost had = (firsts@, flags@, at@);
        assert(now.drop_last() =~= rows@.take(k as int));
        assert(now.last() == r);
        if track.artist_id >= 0 {
            let artist = lowercase(track.artist.as_str());
            let named: bool = starts_with(artist.as_str(), first);
            let place: Option<usize> = match at.get(&track.artist_id) {
                Some(e) => Some(*e),
                None => None,
            };
            match place {
                Some(e) => {
                    let led_already: bool = flags[e];
                    flags.set(e, led_already || named);
                },
                None => {
                    at.insert(track.artist_id, firsts.len());
                    firsts.push(r);
                    flags.push(named);
                },
            }
        }
        proof {
            lemma_artists_gathered(
                tracks,
                now,
                first@,
                had.0,
                had.1,
                had.2,
                firsts@,
                flags@,
                at@,
            );
        }
        k = k + 1;
    }
    assert(rows@.take(rows@.len() as int) =~= rows@);
    let ghost leads = |r: usize|
        artist_leads(tracks, rows@, first@, tracks[r as int].artist_id);
    proof {
        let n = tracks.len() as int;
        lemma_artist_firsts_are_rows(tracks, rows@, n);
        lemma_filter_keeps_below(firsts@, leads, n);
        lemma_filter_keeps_below(firsts@, |r: usize| !leads(r), n);
    }
    leading_first(&firsts, &flags, Ghost(leads))
}

/// The albums and artists behind the space's tracks matching `query`, for a
/// search of the space alone. Matched the way the space list is, every word
/// somewhere in the artist, title or album, so the tiles, their menus and the
/// liked filter all work as they do for a catalogue search.
pub fn space_groups(catalog: &Catalog, query: &str) -> (out: (Vec<RemoteAlbum>, Vec<RemoteArtist>))
    ensures
        ({
            let albums = album_rows(*catalog, query@);
            let artists = artist_rows(*catalog, query@);
            &&& out.0@.len() == albums.len()
            &&& forall|k: int|
                0 <= k < albums.len() ==> album_behind(
                    #[trigger] out.0@[k],
                    catalog.tracks@[albums[k] as int],
                )
            &&& out.1@.len() == artists.len()
            &&& forall|k: int|
                0 <= k < artists.len() ==> artist_behind(
                    #[trigger] out.1@[k],
                    catalog.tracks@[artists[k] as int],
                )
        }),
{
    let asked = terms(query);
    assert(views(asked@).len() == asked@.len());
    if asked.len() == 0 {
        return (Vec::new(), Vec::new());
    }
    assert(views(asked@)[0] == asked@[0]@);
    let rows = matching_rows(catalog, &asked);
    let album_firsts = group_albums(catalog, &rows, asked[0].as_str());
    let artist_firsts = group_artists(catalog, &rows, asked[0].as_str());
    assert(album_firsts@ == album_rows(*catalog, query@));
    assert(artist_firsts@ == artist_rows(*catalog, query@));
    let mut albums: Vec<RemoteAlbum> = Vec::new();
    while albums.len() < album_firsts.len()
        invariant
            albums@.len() <= album_firsts@.len(),
            forall|k: int|
                0 <= k < album_firsts@.len() ==> #[trigger] album_firsts@[k]
                    < catalog.tracks@.len(),
            forall|k: int|
                0 <= k < albums@.len() ==> album_behind(
                    #[trigger] albums@[k],
                    catalog.tracks@[album_firsts@[k] as int],
                ),
        decreases album_firsts@.len() - albums@.len(),
    {
        let r: usize = album_firsts[albums.len()];
        let track = catalog.get(r);
        albums.push(
            RemoteAlbum {
                id: track.album_id.clone(),
                title: track.album.clone(),
                artist: track.artist.clone(),
                artist_id: if track.artist_id >= 0 {
                    Some(track.artist_id)
                } else {
                    None
                },
                released: None,
                genre: None,
                tracks_count: None,
                image: cover_url(track.album_id.as_str()),
                label: None,
            },
        );
    }
    let mut artists: Vec<RemoteArtist> = Vec::new();
    while artists.len() < artist_firsts.len()
        invariant
            artists@.len() <= artist_firsts@.len(),
            forall|k: int|
                0 <= k < artist_firsts@.len() ==> #[trigger] artist_firsts@[k]
                    < catalog.tracks@.len(),
            forall|k: int|
                0 <= k < artists@.len() ==> artist_behind(
                    #[trigger] artists@[k],
                    catalog.tracks@[artist_firsts@[k] as int],
                ),
        decreases artist_firsts@.len() - artists@.len(),
    {
        let r: usize = artist_firsts[artists.len()];
        let track = catalog.get(r);
        artists.push(
            RemoteArtist {
                id: track.artist_id,
                name: track.artist.clone(),
                albums_count: None,
                image: None,
            },
        );
    }
    (albums, artists)
}

/// The shelf of a search of the space alone, narrowed to what was asked for.
pub fn space_shelf(catalog: &Catalog, query: &str, scope: Scope) -> (shelf: Shelf)
    ensures
        shelf.tracks@.len() == 0 && shelf.playlists@.len() == 0 && shelf.similar@.len() == 0,
        ({
            let albums = if scope == Scope::Everything || scope == Scope::Albums {
                album_rows(*catalog, query@)
            } else {
                Seq::empty()
            };
            let artists = if scope == Scope::Everything || scope == Scope::Artists {
                artist_rows(*catalog, query@)
            } else {
                Seq::empty()
            };
            &&& shelf.albums@.len() == albums.len()
            &&& forall|k: int|
                0 <= k < albums.len() ==> album_behind(
                    #[trigger] shelf.albums@[k],
                    catalog.tracks@[albums[k] as int],
                )
            &&& shelf.artists@.len() == artists.len()
            &&& forall|k: int|
                0 <= k < artists.len() ==> artist_behind(
                    #[trigger] shelf.artists@[k],
                    catalog.tracks@[artists[k] as int],
                )
        }),
{
    let (albums, artists) = space_groups(catalog, query);
    let mut shelf = Shelf::default();
    if scope.albums() {
        shelf.albums = albums;
    }
    if scope.artists() {
        shelf.artists = artists;
    }
    shelf
}

// -------------------------------------------------------------- the request

/// What has to be asked for to fill a view.
#[derive(Debug, PartialEq)]
pub enum Plan {
    /// Nothing: an empty search is not a query.
    Nothing,
    /// Only the space; nobody has to be asked.
    Space { query: String, scope: Scope },
    Search { query: String, scope: Scope, limit: usize },
    FavouriteTracks { limit: usize },
    FavouriteAlbums { limit: usize },
    FavouriteArtists { limit: usize },
    Playlists { limit: usize },
    Playlist { id: i64, limit: usize },
    Album { album: String },
    /// The discography, and similar artists. An artist with no similar list
    /// should still show a discography rather than an error.
    Artist { id: i64, limit: usize, similar: usize },
}

pub open spec fn plan_for(view: View, space_only: bool) -> Plan {
    match view {
        View::Search { query, scope } => if trim_of(query@).len() == 0 {
            Plan::Nothing
        } else if space_only {
            Plan::Space { query, scope }
        } else {
            Plan::Search { query, scope, limit: SEARCH_LIMIT }
        },
        View::FavouriteTracks => Plan::FavouriteTracks { limit: LIST_CAP },
        View::FavouriteAlbums => Plan::FavouriteAlbums { limit: LIST_CAP },
        View::FavouriteArtists => Plan::FavouriteArtists { limit: LIST_CAP },
        View::Playlists => Plan::Playlists { limit: LIST_CAP },
        View::Playlist { id, .. } => Plan::Playlist { id, limit: LIST_CAP },
        View::Album(album) => Plan::Album { album: album.id },
        View::Artist(artist) => Plan::Artist {
            id: artist.id,
            limit: LIST_CAP,
            similar: SIMILAR_LIMIT,
        },
    }
}

pub fn plan(view: &View, space_only: bool) -> (plan: Plan)
    ensures
        plan == plan_for(*view, space_only),
{
    match view {
        View::Search { query, scope } => {
            if trim(query.as_str()).as_str().is_empty() {
                Plan::Nothing
            } else if space_only {
                Plan::Space { query: query.clone(), scope: *scope }
            } else {
                Plan::Search { query: query.clone(), scope: *scope, limit: SEARCH_LIMIT }
            }
        },
        View::FavouriteTracks => Plan::FavouriteTracks { limit: LIST_CAP },
        View::FavouriteAlbums => Plan::FavouriteAlbums { limit: LIST_CAP },
        View::FavouriteArtists => Plan::FavouriteArtists { limit: LIST_CAP },
        View::Playlists => Plan::Playlists { limit: LIST_CAP },
        View::Playlist { id, .. } => Plan::Playlist { id: *id, limit: LIST_CAP },
        View::Album(album) => Plan::Album { album: album.id.clone() },
        View::Artist(artist) => Plan::Artist {
            id: artist.id,
            limit: LIST_CAP,
            similar: SIMILAR_LIMIT,
        },
    }
}

} // verus!
