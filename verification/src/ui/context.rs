//! What every part of the window shares.

use crate::api::BlockedArtist;
use crate::db::Catalog;
use crate::paths::Navigator;
use crate::qobuz::{RemoteAlbum, RemoteArtist, RemoteTrack};
use crate::strings::{chars_of, joined, push_text};
use crate::ui::generate::{as_remote, presents};
use std::collections::HashSet;
use vstd::hash_set::StringHashSet;
use vstd::prelude::*;

verus! {

broadcast use vstd::std_specs::hash::group_hash_axioms;

/// These caps stop a list of thousands of favourites from stalling the panel
/// the first time it is opened.
pub const LIST_CAP: usize = 500;

pub const SEARCH_LIMIT: usize = 50;

/// How often views watching a background job re-read it, in milliseconds:
/// below where a counter starts to look stuck.
pub const POLL_MS: u64 = 200;

/// What the detail sheet is showing, if anything.
pub enum DetailSubject {
    Track(RemoteTrack),
    Album(RemoteAlbum),
    Artist(RemoteArtist),
}

/// A track in the analysed space, reduced to what a row needs.
#[derive(Debug)]
pub struct SpaceRow {
    pub track_id: i64,
    pub artist: String,
    /// None where the space has no artist for it.
    pub artist_id: Option<i64>,
    pub title: String,
    pub album: String,
    /// The cover is derived from this: the space stores no art.
    pub album_id: String,
}

impl Clone for SpaceRow {
    fn clone(&self) -> (copy: Self)
        ensures
            copy == *self,
    {
        SpaceRow {
            track_id: self.track_id,
            artist: self.artist.clone(),
            artist_id: self.artist_id,
            title: self.title.clone(),
            album: self.album.clone(),
            album_id: self.album_id.clone(),
        }
    }
}

// --------------------------------------------------------------- the space

/// A space track, as something to display or play. None where the id names
/// nothing the space currently holds: selected, then the space was rebuilt
/// without it, or a row's address outlived its target.
pub fn space_track(nav: &Navigator, track_id: i64) -> (track: Option<RemoteTrack>)
    requires
        nav.wf(),
    ensures
        match track {
            Some(t) => nav.index_of@.contains_key(track_id) && presents(
                t,
                nav.catalog.tracks@[nav.index_of@[track_id] as int],
            ),
            None => !nav.index_of@.contains_key(track_id),
        },
{
    broadcast use vstd::std_specs::hash::group_hash_axioms;

    match nav.index_of.get(&track_id) {
        Some(row) => Some(as_remote(nav.catalog.get(*row))),
        None => None,
    }
}

/// A space track as the player takes it, read fresh at the moment of the
/// click: an empty queue is a better answer than a stale one.
pub fn playable(nav: &Navigator, track_id: i64) -> (queue: Vec<RemoteTrack>)
    requires
        nav.wf(),
    ensures
        if nav.index_of@.contains_key(track_id) {
            queue@.len() == 1 && presents(
                queue@[0],
                nav.catalog.tracks@[nav.index_of@[track_id] as int],
            )
        } else {
            queue@.len() == 0
        },
{
    let mut queue: Vec<RemoteTrack> = Vec::new();
    match space_track(nav, track_id) {
        Some(track) => queue.push(track),
        None => {},
    }
    queue
}

/// Selects a space track for the map and the generator, and opens its sheet:
/// what a row, a map point and a menu item all mean by "look at this track".
/// A track the space no longer holds is selected all the same, and the sheet
/// stays as it was.
pub fn open_track(
    nav: &Navigator,
    selection: &mut Option<i64>,
    detail: &mut Option<DetailSubject>,
    track_id: i64,
)
    requires
        nav.wf(),
    ensures
        *final(selection) == Some(track_id),
        if nav.index_of@.contains_key(track_id) {
            *final(detail) matches Some(DetailSubject::Track(t)) && presents(
                t,
                nav.catalog.tracks@[nav.index_of@[track_id] as int],
            )
        } else {
            *final(detail) == *old(detail)
        },
{
    *selection = Some(track_id);
    match space_track(nav, track_id) {
        Some(track) => {
            *detail = Some(DetailSubject::Track(track));
        },
        None => {},
    }
}

/// An artist's sheet from just the id and name a row already carries.
pub fn open_artist(id: i64, name: String) -> (subject: DetailSubject)
    ensures
        subject == DetailSubject::Artist(
            RemoteArtist { id, name, albums_count: None, image: None },
        ),
{
    DetailSubject::Artist(RemoteArtist { id, name, albums_count: None, image: None })
}

// ------------------------------------------------------------------ the map

/// The map overlay.
#[derive(Clone, Copy, PartialEq, Eq, Structural, Debug)]
pub struct MapView {
    pub map_open: bool,
    /// Showing a route, and therefore dimming everything that is not on it.
    pub map_route: bool,
}

impl MapView {
    pub fn new() -> (view: Self)
        ensures
            view == (MapView { map_open: false, map_route: false }),
    {
        MapView { map_open: false, map_route: false }
    }

    /// Open the map to look around. Nothing is dimmed: there is no route in
    /// question.
    pub fn browse(&mut self)
        ensures
            *final(self) == (MapView { map_open: true, map_route: false }),
    {
        self.map_route = false;
        self.map_open = true;
    }

    /// Open the map to show a produced sequence, dimming the rest so the line
    /// through it can be read.
    pub fn show_route(&mut self)
        ensures
            *final(self) == (MapView { map_open: true, map_route: true }),
    {
        self.map_route = true;
        self.map_open = true;
    }

    /// Open it if it is not showing, close it if it is. Everything else wants
    /// `browse` or `show_route`: asking to see a track on the map should never
    /// close a map that was already open on something else.
    pub fn toggle(&mut self)
        ensures
            *final(self) == (if old(self).map_open {
                MapView { map_open: false, map_route: old(self).map_route }
            } else {
                MapView { map_open: true, map_route: false }
            }),
    {
        if self.map_open {
            self.map_open = false;
        } else {
            self.browse();
        }
    }
}

// --------------------------------------------------------------- the hidden

/// Artists the user has hidden.
pub struct Blocklist {
    pub artists: Vec<BlockedArtist>,
}

impl Blocklist {
    pub open spec fn has(self, artist_id: i64) -> bool {
        exists|i: int|
            0 <= i < self.artists@.len() && (#[trigger] self.artists@[i]).artist_id == artist_id
    }

    pub open spec fn covers(self, artist_id: Option<i64>) -> bool {
        artist_id matches Some(id) && self.has(id)
    }

    pub fn contains(&self, artist_id: i64) -> (yes: bool)
        ensures
            yes == self.has(artist_id),
    {
        let mut i: usize = 0;
        while i < self.artists.len()
            invariant
                i <= self.artists@.len(),
                forall|k: int| 0 <= k < i ==> (#[trigger] self.artists@[k]).artist_id != artist_id,
            decreases self.artists@.len() - i,
        {
            if self.artists[i].artist_id == artist_id {
                return true;
            }
            i = i + 1;
        }
        false
    }

    /// Matches on the performer's artist id, so a featured credit filed under
    /// someone else's id can still slip through.
    pub fn hides(&self, track: &RemoteTrack) -> (yes: bool)
        ensures
            yes == self.covers(track.artist_id),
    {
        self.hides_artist(track.artist_id)
    }

    pub fn hides_artist(&self, artist_id: Option<i64>) -> (yes: bool)
        ensures
            yes == self.covers(artist_id),
    {
        match artist_id {
            Some(id) => self.contains(id),
            None => false,
        }
    }

    /// The ids the engine is told to hide.
    pub fn ids(&self) -> (ids: std::collections::HashSet<i64>)
        ensures
            forall|id: i64| #[trigger] ids@.contains(id) <==> self.has(id),
    {
        broadcast use vstd::std_specs::hash::group_hash_axioms;

        let mut ids: std::collections::HashSet<i64> = std::collections::HashSet::new();
        let mut i: usize = 0;
        while i < self.artists.len()
            invariant
                i <= self.artists@.len(),
                forall|id: i64| #[trigger]
                    ids@.contains(id) <==> exists|k: int|
                        0 <= k < i && (#[trigger] self.artists@[k]).artist_id == id,
            decreases self.artists@.len() - i,
        {
            let ghost before = ids@;
            ids.insert(self.artists[i].artist_id);
            assert forall|id: i64| #[trigger] ids@.contains(id) <==> exists|k: int|
                0 <= k < i + 1 && (#[trigger] self.artists@[k]).artist_id == id by {
                if before.contains(id) {
                    let k = choose|k: int|
                        0 <= k < i && (#[trigger] self.artists@[k]).artist_id == id;
                    assert(self.artists@[k].artist_id == id);
                }
                if id == self.artists@[i as int].artist_id {
                    assert(self.artists@[i as int].artist_id == id);
                }
            }
            i = i + 1;
        }
        ids
    }
}

// ------------------------------------------------------------------- covers

/// A URL that would break out of the style it is written into.
pub open spec fn breaks_out(url: Seq<char>) -> bool {
    exists|i: int|
        0 <= i < url.len() && (#[trigger] url[i] == '\'' || url[i] == '(' || url[i] == ')')
}

fn escapes(url: &str) -> (yes: bool)
    ensures
        yes == breaks_out(url@),
{
    let chars = chars_of(url);
    let mut i: usize = 0;
    while i < chars.len()
        invariant
            chars@ == url@,
            i <= chars@.len(),
            forall|k: int|
                0 <= k < i ==> !(#[trigger] chars@[k] == '\'' || chars@[k] == '(' || chars@[k]
                    == ')'),
        decreases chars@.len() - i,
    {
        if chars[i] == '\'' || chars[i] == '(' || chars[i] == ')' {
            assert(url@[i as int] == chars@[i as int]);
            return true;
        }
        i = i + 1;
    }
    false
}

/// How a cover's URL rides: as a data attribute that is fetched when the box
/// nears the screen, or straight away as a style.
pub struct CoverArt {
    pub data: String,
    pub style: String,
}

/// A URL containing a quote or a bracket is corrupt rather than merely
/// unusual, and shows nothing.
pub fn cover_art(url: Option<&str>, eager: bool) -> (art: CoverArt)
    ensures
        ({
            let usable = url is Some && !breaks_out(url->0@);
            &&& art.data@ == (if usable && !eager {
                url->0@
            } else {
                Seq::empty()
            })
            &&& art.style@ == (if usable && eager {
                "background-image:url('"@ + url->0@ + "')"@
            } else {
                Seq::empty()
            })
        }),
{
    let mut art = CoverArt { data: String::new(), style: String::new() };
    if let Some(url) = url {
        if !escapes(url) {
            if eager {
                let mut style = joined("background-image:url('", url);
                push_text(&mut style, "')");
                art.style = style;
            } else {
                art.data = url.to_owned();
            }
        }
    }
    art
}

/// Whether a class list asks for the cover straight away.
pub fn is_eager(class: &str) -> (yes: bool)
    ensures
        yes == crate::strings::words_of(class@).contains("eager"@),
{
    let words = crate::strings::words(class);
    let mut i: usize = 0;
    while i < words.len()
        invariant
            i <= words@.len(),
            crate::strings::views(words@) == crate::strings::words_of(class@),
            forall|k: int| 0 <= k < i ==> (#[trigger] words@[k])@ != "eager"@,
        decreases words@.len() - i,
    {
        assert(crate::strings::views(words@)[i as int] == words@[i as int]@);
        if crate::strings::same(words[i].as_str(), "eager") {
            return true;
        }
        i = i + 1;
    }
    proof {
        if crate::strings::words_of(class@).contains("eager"@) {
            let k = choose|k: int|
                0 <= k < words@.len() && crate::strings::views(words@)[k] == "eager"@;
            assert(words@[k]@ == "eager"@);
        }
    }
    false
}

// ---------------------------------------------------------- what is in reach

/// The albums and artists that the space shows something of.
pub struct Reach {
    pub albums: StringHashSet,
    pub artists: HashSet<i64>,
}

/// One of the first `n` rows shows and is of this album.
pub open spec fn shows_album(catalog: Catalog, n: int, album: Seq<char>) -> bool {
    exists|i: int|
        0 <= i < n && !catalog.blocks(i) && (#[trigger] catalog.tracks@[i]).album_id@ == album
}

/// One of the first `n` rows shows and is by this artist.
pub open spec fn shows_artist(catalog: Catalog, n: int, artist: i64) -> bool {
    exists|i: int|
        0 <= i < n && !catalog.blocks(i) && (#[trigger] catalog.tracks@[i]).artist_id == artist
}

/// The albums and artists with at least one track that is in the space and not
/// hidden.
pub fn reach(catalog: &Catalog) -> (reach: Reach)
    ensures
        forall|album: Seq<char>| #[trigger]
            reach.albums@.contains(album) <==> shows_album(
                *catalog,
                catalog.tracks@.len() as int,
                album,
            ),
        forall|artist: i64| #[trigger]
            reach.artists@.contains(artist) <==> shows_artist(
                *catalog,
                catalog.tracks@.len() as int,
                artist,
            ),
{
    let mut albums = StringHashSet::new();
    let mut artists: HashSet<i64> = HashSet::new();
    let mut i: usize = 0;
    while i < catalog.len()
        invariant
            i <= catalog.tracks@.len(),
            forall|album: Seq<char>| #[trigger]
                albums@.contains(album) <==> shows_album(*catalog, i as int, album),
            forall|artist: i64| #[trigger]
                artists@.contains(artist) <==> shows_artist(*catalog, i as int, artist),
        decreases catalog.tracks@.len() - i,
    {
        let ghost (some_albums, some_artists) = (albums@, artists@);
        let hidden: bool = catalog.is_blocked(i);
        if !hidden {
            let track = catalog.get(i);
            albums.insert(track.album_id.clone());
            artists.insert(track.artist_id);
        }
        proof {
            let track = catalog.tracks@[i as int];
            assert forall|album: Seq<char>| #[trigger]
                albums@.contains(album) <==> shows_album(*catalog, i + 1, album) by {
                if shows_album(*catalog, i as int, album) {
                    let k = choose|k: int|
                        0 <= k < i && !catalog.blocks(k) && (
                        #[trigger] catalog.tracks@[k]).album_id@ == album;
                    assert(catalog.tracks@[k].album_id@ == album);
                }
                if !hidden && track.album_id@ == album {
                    assert(catalog.tracks@[i as int].album_id@ == album);
                }
                assert(some_albums.contains(album) <==> shows_album(*catalog, i as int, album));
            }
            assert forall|artist: i64| #[trigger]
                artists@.contains(artist) <==> shows_artist(*catalog, i + 1, artist) by {
                if shows_artist(*catalog, i as int, artist) {
                    let k = choose|k: int|
                        0 <= k < i && !catalog.blocks(k) && (
                        #[trigger] catalog.tracks@[k]).artist_id == artist;
                    assert(catalog.tracks@[k].artist_id == artist);
                }
                if !hidden && track.artist_id == artist {
                    assert(catalog.tracks@[i as int].artist_id == artist);
                }
                assert(some_artists.contains(artist) <==> shows_artist(*catalog, i as int, artist));
            }
        }
        i = i + 1;
    }
    Reach { albums, artists }
}

impl Reach {
    pub fn has_album(&self, album: &str) -> (yes: bool)
        ensures
            yes == self.albums@.contains(album@),
    {
        self.albums.contains(album)
    }

    pub fn has_artist(&self, artist: i64) -> (yes: bool)
        ensures
            yes == self.artists@.contains(artist),
    {
        self.artists.contains(&artist)
    }
}

} // verus!
