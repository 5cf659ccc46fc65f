//! Browsing and searching the catalogue, and the shelf of results.
//!
//! Navigation is explicit rather than reactive: every move sets the view and
//! asks for its own load. One `Shelf` holds whatever the view returned.

use crate::json::seen;
use crate::qobuz::{RemoteAlbum, RemoteArtist, RemotePlaylist, RemoteTrack};
use crate::strings::{decimal, digits, joined, lower_of, parse_i64, number_of, push_text, same, views};
use crate::strings::{contains, occurs_in};
use crate::ui::context::Blocklist;
use crate::ui::sorting::{arranged, rank_of, ranks_of, text, valued, Rank, Sort, SortKey, SortValue};
use std::collections::HashSet;
use vstd::hash_set::StringHashSet;
use vstd::prelude::*;
use vstd::view::View as _;

verus! {

broadcast use vstd::std_specs::hash::group_hash_axioms;

/// Which kinds of result a search shows. Taken from the chip that was lit when
/// typing started: filtering from "tracks" and getting albums and artists back
/// as well would read as the filter being ignored.
#[derive(Clone, Copy, PartialEq, Eq, Structural, Debug)]
pub enum Scope {
    Everything,
    Tracks,
    Albums,
    Artists,
}

impl Scope {
    pub fn tracks(self) -> (yes: bool)
        ensures
            yes == (self == Scope::Everything || self == Scope::Tracks),
    {
        matches!(self, Scope::Everything | Scope::Tracks)
    }

    pub fn albums(self) -> (yes: bool)
        ensures
            yes == (self == Scope::Everything || self == Scope::Albums),
    {
        matches!(self, Scope::Everything | Scope::Albums)
    }

    pub fn artists(self) -> (yes: bool)
        ensures
            yes == (self == Scope::Everything || self == Scope::Artists),
    {
        matches!(self, Scope::Everything | Scope::Artists)
    }
}

/// Every term turns up in the text.
pub open spec fn holds_every(terms: Seq<Seq<char>>, text: Seq<char>) -> bool {
    forall|i: int| 0 <= i < terms.len() ==> occurs_in(text, #[trigger] terms[i])
}

/// Whether every term turns up in a track's title, what a tracks search asks
/// for. Artist and album are left out: every track by a band, or on an album,
/// whose name happens to match is not a search for a track.
pub fn names_track(terms: &Vec<String>, title: &str) -> (yes: bool)
    ensures
        yes == holds_every(views(terms@), title@),
{
    let mut i: usize = 0;
    while i < terms.len()
        invariant
            i <= terms@.len(),
            forall|k: int| 0 <= k < i ==> occurs_in(title@, (#[trigger] views(terms@)[k])),
        decreases terms@.len() - i,
    {
        assert(views(terms@)[i as int] == terms@[i as int]@);
        if !contains(title, terms[i].as_str()) {
            return false;
        }
        i = i + 1;
    }
    true
}

// -------------------------------------------------------------------- views

#[derive(Debug, PartialEq)]
pub enum View {
    Search { query: String, scope: Scope },
    FavouriteTracks,
    FavouriteAlbums,
    FavouriteArtists,
    Playlists,
    Playlist { id: i64, name: String },
    /// The full object, not just its id and title, carried over from wherever
    /// this was reached, so the page landed on can show the same cover, badges
    /// and actions inline instead of just a bare tracklist under a heading.
    Album(RemoteAlbum),
    /// As `Album`: the full object, so the discography page can show it inline
    /// the same way.
    Artist(RemoteArtist),
}

impl Clone for View {
    fn clone(&self) -> (copy: Self)
        ensures
            copy == *self,
    {
        match self {
            View::Search { query, scope } => View::Search { query: query.clone(), scope: *scope },
            View::FavouriteTracks => View::FavouriteTracks,
            View::FavouriteAlbums => View::FavouriteAlbums,
            View::FavouriteArtists => View::FavouriteArtists,
            View::Playlists => View::Playlists,
            View::Playlist { id, name } => View::Playlist { id: *id, name: name.clone() },
            View::Album(album) => View::Album(album.clone()),
            View::Artist(artist) => View::Artist(artist.clone()),
        }
    }
}

pub open spec fn same_album(a: RemoteAlbum, b: RemoteAlbum) -> bool {
    &&& a.id@ == b.id@
    &&& a.title@ == b.title@
    &&& a.artist@ == b.artist@
    &&& a.artist_id == b.artist_id
    &&& seen(a.released) == seen(b.released)
    &&& seen(a.genre) == seen(b.genre)
    &&& a.tracks_count == b.tracks_count
    &&& seen(a.image) == seen(b.image)
    &&& seen(a.label) == seen(b.label)
}

pub open spec fn same_artist(a: RemoteArtist, b: RemoteArtist) -> bool {
    &&& a.id == b.id
    &&& a.name@ == b.name@
    &&& a.albums_count == b.albums_count
    &&& seen(a.image) == seen(b.image)
}

/// Two views show the same page.
pub open spec fn same_view(a: View, b: View) -> bool {
    match (a, b) {
        (View::Search { query: p, scope: s }, View::Search { query: q, scope: t }) => p@ == q@ && s
            == t,
        (View::FavouriteTracks, View::FavouriteTracks) => true,
        (View::FavouriteAlbums, View::FavouriteAlbums) => true,
        (View::FavouriteArtists, View::FavouriteArtists) => true,
        (View::Playlists, View::Playlists) => true,
        (View::Playlist { id: i, name: m }, View::Playlist { id: j, name: n }) => i == j && m@
            == n@,
        (View::Album(p), View::Album(q)) => same_album(p, q),
        (View::Artist(p), View::Artist(q)) => same_artist(p, q),
        _ => false,
    }
}

fn same_text(a: &Option<String>, b: &Option<String>) -> (yes: bool)
    ensures
        yes == (seen(*a) == seen(*b)),
{
    match (a, b) {
        (Some(a), Some(b)) => same(a.as_str(), b.as_str()),
        (None, None) => true,
        _ => false,
    }
}

impl View {
    pub fn is_same(&self, other: &View) -> (yes: bool)
        ensures
            yes == same_view(*self, *other),
    {
        match (self, other) {
            (View::Search { query: p, scope: s }, View::Search { query: q, scope: t }) => same(
                p.as_str(),
                q.as_str(),
            ) && *s == *t,
            (View::FavouriteTracks, View::FavouriteTracks) => true,
            (View::FavouriteAlbums, View::FavouriteAlbums) => true,
            (View::FavouriteArtists, View::FavouriteArtists) => true,
            (View::Playlists, View::Playlists) => true,
            (View::Playlist { id: i, name: m }, View::Playlist { id: j, name: n }) => *i == *j
                && same(m.as_str(), n.as_str()),
            (View::Album(p), View::Album(q)) => same(p.id.as_str(), q.id.as_str()) && same(
                p.title.as_str(),
                q.title.as_str(),
            ) && same(p.artist.as_str(), q.artist.as_str()) && p.artist_id == q.artist_id
                && same_text(&p.released, &q.released) && same_text(&p.genre, &q.genre)
                && p.tracks_count == q.tracks_count && same_text(&p.image, &q.image) && same_text(
                &p.label,
                &q.label,
            ),
            (View::Artist(p), View::Artist(q)) => p.id == q.id && same(
                p.name.as_str(),
                q.name.as_str(),
            ) && p.albums_count == q.albums_count && same_text(&p.image, &q.image),
            _ => false,
        }
    }

    pub open spec fn heading(self) -> Seq<char> {
        match self {
            View::Search { query, .. } => "results for “"@ + query@ + "”"@,
            View::FavouriteTracks => "favourite tracks"@,
            View::FavouriteAlbums => "favourite albums"@,
            View::FavouriteArtists => "favourite artists"@,
            View::Playlists => "your playlists"@,
            View::Playlist { name, .. } => name@,
            View::Album(album) => album.title@,
            View::Artist(artist) => artist.name@,
        }
    }

    pub fn label(&self) -> (text: String)
        ensures
            text@ == self.heading(),
    {
        match self {
            View::Search { query, .. } => {
                let mut text = joined("results for “", query.as_str());
                push_text(&mut text, "”");
                text
            },
            View::FavouriteTracks => "favourite tracks".to_owned(),
            View::FavouriteAlbums => "favourite albums".to_owned(),
            View::FavouriteArtists => "favourite artists".to_owned(),
            View::Playlists => "your playlists".to_owned(),
            View::Playlist { name, .. } => name.clone(),
            View::Album(album) => album.title.clone(),
            View::Artist(artist) => artist.name.clone(),
        }
    }

    /// Whether the playlists chip is lit for this view. Drilling into an album
    /// or an artist leaves none of the chips lit.
    pub fn is_playlists(&self) -> (yes: bool)
        ensures
            yes == (self is Playlists || self is Playlist),
    {
        matches!(self, View::Playlists | View::Playlist { .. })
    }

    pub open spec fn narrowed_to(self) -> Scope {
        match self {
            View::Search { scope, .. } => scope,
            View::FavouriteTracks => Scope::Tracks,
            View::FavouriteAlbums => Scope::Albums,
            View::FavouriteArtists => Scope::Artists,
            _ => Scope::Everything,
        }
    }

    /// What a search started from here should be narrowed to.
    pub fn scope(&self) -> (scope: Scope)
        ensures
            scope == self.narrowed_to(),
    {
        match self {
            View::Search { scope, .. } => *scope,
            View::FavouriteTracks => Scope::Tracks,
            View::FavouriteAlbums => Scope::Albums,
            View::FavouriteArtists => Scope::Artists,
            _ => Scope::Everything,
        }
    }
}

/// How the two track sections, the space's and the catalogue's, render. Grid by
/// default: a cover to recognise. List is where the detail that does not fit a
/// tile lives.
#[derive(Clone, Copy, PartialEq, Eq, Structural, Debug)]
pub enum TracksView {
    Grid,
    List,
}

// ---------------------------------------------------------------- the shelf

/// Whatever the current view loaded. One struct rather than a per-view enum:
/// search fills three of these at once, and an artist fills two.
#[derive(Debug, PartialEq)]
pub struct Shelf {
    pub tracks: Vec<RemoteTrack>,
    pub albums: Vec<RemoteAlbum>,
    pub artists: Vec<RemoteArtist>,
    pub playlists: Vec<RemotePlaylist>,
    /// Shown under an artist: the same hop the crawl takes when it expands the
    /// frontier, so you can see where analysis would go next.
    pub similar: Vec<RemoteArtist>,
}

impl Shelf {
    pub open spec fn is_bare(self) -> bool {
        &&& self.tracks@.len() == 0
        &&& self.albums@.len() == 0
        &&& self.artists@.len() == 0
        &&& self.playlists@.len() == 0
        &&& self.similar@.len() == 0
    }

    /// The two hold the same rows in the same order.
    pub open spec fn matches(self, other: Shelf) -> bool {
        &&& self.tracks@ == other.tracks@
        &&& self.albums@ == other.albums@
        &&& self.artists@ == other.artists@
        &&& self.playlists@ == other.playlists@
        &&& self.similar@ == other.similar@
    }
}

impl Default for Shelf {
    fn default() -> (shelf: Self)
        ensures
            shelf.is_bare(),
    {
        Shelf {
            tracks: Vec::new(),
            albums: Vec::new(),
            artists: Vec::new(),
            playlists: Vec::new(),
            similar: Vec::new(),
        }
    }
}

impl Clone for Shelf {
    fn clone(&self) -> (copy: Self)
        ensures
            copy.matches(*self),
    {
        let copy = Shelf {
            tracks: self.tracks.clone(),
            albums: self.albums.clone(),
            artists: self.artists.clone(),
            playlists: self.playlists.clone(),
            similar: self.similar.clone(),
        };
        proof {
            assert(copy.tracks@ =~= self.tracks@);
            assert(copy.albums@ =~= self.albums@);
            assert(copy.artists@ =~= self.artists@);
            assert(copy.playlists@ =~= self.playlists@);
            assert(copy.similar@ =~= self.similar@);
        }
        copy
    }
}

pub open spec fn text_rank(text: Seq<char>) -> Option<Rank> {
    Some(Rank::Text(lower_of(text)))
}

pub open spec fn date_rank(text: Option<Seq<char>>) -> Option<Rank> {
    match text {
        Some(text) => text_rank(text),
        None => None,
    }
}

pub open spec fn track_rank(track: RemoteTrack, key: SortKey) -> Option<Rank> {
    match key {
        SortKey::Default => None,
        SortKey::Title => text_rank(track.title@),
        SortKey::Artist => text_rank(track.artist@),
        SortKey::Album => text_rank(track.album@),
        SortKey::Released => date_rank(seen(track.released)),
        SortKey::Duration => match track.duration {
            Some(n) => Some(Rank::Number(n as int)),
            None => None,
        },
    }
}

pub open spec fn album_rank(album: RemoteAlbum, key: SortKey) -> Option<Rank> {
    match key {
        SortKey::Title => text_rank(album.title@),
        SortKey::Album => text_rank(album.title@),
        SortKey::Artist => text_rank(album.artist@),
        SortKey::Released => date_rank(seen(album.released)),
        _ => None,
    }
}

pub open spec fn artist_rank(artist: RemoteArtist, key: SortKey) -> Option<Rank> {
    match key {
        SortKey::Title => text_rank(artist.name@),
        SortKey::Artist => text_rank(artist.name@),
        _ => None,
    }
}

pub open spec fn playlist_rank(playlist: RemotePlaylist, key: SortKey) -> Option<Rank> {
    match key {
        SortKey::Title => text_rank(playlist.name@),
        _ => None,
    }
}

pub open spec fn sorted_tracks(sort: Sort, rows: Seq<RemoteTrack>, out: Seq<RemoteTrack>) -> bool {
    arranged(sort, Seq::new(rows.len(), |i: int| track_rank(rows[i], sort.key)), rows, out)
}

pub open spec fn sorted_albums(sort: Sort, rows: Seq<RemoteAlbum>, out: Seq<RemoteAlbum>) -> bool {
    arranged(sort, Seq::new(rows.len(), |i: int| album_rank(rows[i], sort.key)), rows, out)
}

pub open spec fn sorted_artists(
    sort: Sort,
    rows: Seq<RemoteArtist>,
    out: Seq<RemoteArtist>,
) -> bool {
    arranged(sort, Seq::new(rows.len(), |i: int| artist_rank(rows[i], sort.key)), rows, out)
}

pub open spec fn sorted_playlists(
    sort: Sort,
    rows: Seq<RemotePlaylist>,
    out: Seq<RemotePlaylist>,
) -> bool {
    arranged(sort, Seq::new(rows.len(), |i: int| playlist_rank(rows[i], sort.key)), rows, out)
}

/// A date as a sort value.
fn date(value: &Option<String>) -> (sorted: Option<SortValue>)
    ensures
        rank_of(sorted) == date_rank(seen(*value)),
{
    match value {
        Some(value) => text(value.as_str()),
        None => None,
    }
}

fn sort_tracks(sort: Sort, rows: Vec<RemoteTrack>) -> (out: Vec<RemoteTrack>)
    ensures
        sorted_tracks(sort, rows@, out@),
{
    let ghost all = rows@;
    let value = |track: &RemoteTrack, key: SortKey| -> (value: Option<SortValue>)
        ensures
            rank_of(value) == track_rank(*track, key),
        {
            match key {
                SortKey::Default => None,
                SortKey::Title => text(track.title.as_str()),
                SortKey::Artist => text(track.artist.as_str()),
                SortKey::Album => text(track.album.as_str()),
                SortKey::Released => date(&track.released),
                SortKey::Duration => match track.duration {
                    Some(n) => Some(SortValue::Number(n)),
                    None => None,
                },
            }
        };
    let out = sort.apply(rows, value);
    proof {
        if sort.key != SortKey::Default {
            let values = choose|values: Seq<Option<SortValue>>| #[trigger]
                valued(value, sort.key, all, values) && arranged(sort, ranks_of(values), all, out@);
            assert(ranks_of(values) =~= Seq::new(
                all.len(),
                |i: int| track_rank(all[i], sort.key),
            ));
        }
    }
    out
}

fn sort_albums(sort: Sort, rows: Vec<RemoteAlbum>) -> (out: Vec<RemoteAlbum>)
    ensures
        sorted_albums(sort, rows@, out@),
{
    let ghost all = rows@;
    let value = |album: &RemoteAlbum, key: SortKey| -> (value: Option<SortValue>)
        ensures
            rank_of(value) == album_rank(*album, key),
        {
            match key {
                SortKey::Title => text(album.title.as_str()),
                SortKey::Album => text(album.title.as_str()),
                SortKey::Artist => text(album.artist.as_str()),
                SortKey::Released => date(&album.released),
                _ => None,
            }
        };
    let out = sort.apply(rows, value);
    proof {
        if sort.key != SortKey::Default {
            let values = choose|values: Seq<Option<SortValue>>| #[trigger]
                valued(value, sort.key, all, values) && arranged(sort, ranks_of(values), all, out@);
            assert(ranks_of(values) =~= Seq::new(
                all.len(),
                |i: int| album_rank(all[i], sort.key),
            ));
        }
    }
    out
}

fn sort_artists(sort: Sort, rows: Vec<RemoteArtist>) -> (out: Vec<RemoteArtist>)
    ensures
        sorted_artists(sort, rows@, out@),
{
    let ghost all = rows@;
    let value = |artist: &RemoteArtist, key: SortKey| -> (value: Option<SortValue>)
        ensures
            rank_of(value) == artist_rank(*artist, key),
        {
            match key {
                SortKey::Title => text(artist.name.as_str()),
                SortKey::Artist => text(artist.name.as_str()),
                _ => None,
            }
        };
    let out = sort.apply(rows, value);
    proof {
        if sort.key != SortKey::Default {
            let values = choose|values: Seq<Option<SortValue>>| #[trigger]
                valued(value, sort.key, all, values) && arranged(sort, ranks_of(values), all, out@);
            assert(ranks_of(values) =~= Seq::new(
                all.len(),
                |i: int| artist_rank(all[i], sort.key),
            ));
        }
    }
    out
}

fn sort_playlists(sort: Sort, rows: Vec<RemotePlaylist>) -> (out: Vec<RemotePlaylist>)
    ensures
        sorted_playlists(sort, rows@, out@),
{
    let ghost all = rows@;
    let value = |playlist: &RemotePlaylist, key: SortKey| -> (value: Option<SortValue>)
        ensures
            rank_of(value) == playlist_rank(*playlist, key),
        {
            match key {
                SortKey::Title => text(playlist.name.as_str()),
                _ => None,
            }
        };
    let out = sort.apply(rows, value);
    proof {
        if sort.key != SortKey::Default {
            let values = choose|values: Seq<Option<SortValue>>| #[trigger]
                valued(value, sort.key, all, values) && arranged(sort, ranks_of(values), all, out@);
            assert(ranks_of(values) =~= Seq::new(
                all.len(),
                |i: int| playlist_rank(all[i], sort.key),
            ));
        }
    }
    out
}

impl Shelf {
    /// `out` holds this shelf's rows, every section in the order asked for.
    pub open spec fn sorts_to(self, sort: Sort, out: Shelf) -> bool {
        &&& sorted_tracks(sort, self.tracks@, out.tracks@)
        &&& sorted_albums(sort, self.albums@, out.albums@)
        &&& sorted_artists(sort, self.artists@, out.artists@)
        &&& sorted_playlists(sort, self.playlists@, out.playlists@)
        &&& sorted_artists(sort, self.similar@, out.similar@)
    }

    pub fn sorted(self, sort: Sort) -> (out: Shelf)
        ensures
            self.sorts_to(sort, out),
    {
        Shelf {
            tracks: sort_tracks(sort, self.tracks),
            albums: sort_albums(sort, self.albums),
            artists: sort_artists(sort, self.artists),
            playlists: sort_playlists(sort, self.playlists),
            similar: sort_artists(sort, self.similar),
        }
    }

    pub open spec fn shown_tracks(self, blocked: Blocklist) -> Seq<RemoteTrack> {
        self.tracks@.filter(|t: RemoteTrack| !blocked.covers(t.artist_id))
    }

    pub open spec fn shown_albums(self, blocked: Blocklist) -> Seq<RemoteAlbum> {
        self.albums@.filter(|a: RemoteAlbum| !blocked.covers(a.artist_id))
    }

    pub open spec fn shown_artists(self, blocked: Blocklist, similar: bool) -> Seq<RemoteArtist> {
        let source = if similar {
            self.similar@
        } else {
            self.artists@
        };
        source.filter(|a: RemoteArtist| !blocked.has(a.id))
    }

    /// The rows a blocklist leaves visible, in display order. Rendering and
    /// the click handlers must both go through these: filtering in one and
    /// indexing the unfiltered list in the other would make row N open row
    /// N+1.
    pub fn visible_tracks(&self, blocked: &Blocklist) -> (rows: Vec<RemoteTrack>)
        ensures
            rows@ == self.shown_tracks(*blocked),
    {
        let mut rows: Vec<RemoteTrack> = Vec::new();
        let mut i: usize = 0;
        let ghost keep = |t: RemoteTrack| !blocked.covers(t.artist_id);
        proof {
            reveal(Seq::filter);
            assert(self.tracks@.take(0).filter(keep) =~= Seq::empty());
        }
        while i < self.tracks.len()
            invariant
                i <= self.tracks@.len(),
                keep == (|t: RemoteTrack| !blocked.covers(t.artist_id)),
                rows@ == self.tracks@.take(i as int).filter(keep),
            decreases self.tracks@.len() - i,
        {
            proof {
                reveal(Seq::filter);
                assert(self.tracks@.take(i + 1).drop_last() =~= self.tracks@.take(i as int));
            }
            if !blocked.hides(&self.tracks[i]) {
                rows.push(self.tracks[i].clone());
            }
            i = i + 1;
        }
        assert(self.tracks@.take(self.tracks@.len() as int) =~= self.tracks@);
        rows
    }

    pub fn visible_albums(&self, blocked: &Blocklist) -> (rows: Vec<RemoteAlbum>)
        ensures
            rows@ == self.shown_albums(*blocked),
    {
        let mut rows: Vec<RemoteAlbum> = Vec::new();
        let mut i: usize = 0;
        let ghost keep = |a: RemoteAlbum| !blocked.covers(a.artist_id);
        proof {
            reveal(Seq::filter);
            assert(self.albums@.take(0).filter(keep) =~= Seq::empty());
        }
        while i < self.albums.len()
            invariant
                i <= self.albums@.len(),
                keep == (|a: RemoteAlbum| !blocked.covers(a.artist_id)),
                rows@ == self.albums@.take(i as int).filter(keep),
            decreases self.albums@.len() - i,
        {
            proof {
                reveal(Seq::filter);
                assert(self.albums@.take(i + 1).drop_last() =~= self.albums@.take(i as int));
            }
            if !blocked.hides_artist(self.albums[i].artist_id) {
                rows.push(self.albums[i].clone());
            }
            i = i + 1;
        }
        assert(self.albums@.take(self.albums@.len() as int) =~= self.albums@);
        rows
    }

    pub fn visible_artists(&self, blocked: &Blocklist, similar: bool) -> (rows: Vec<RemoteArtist>)
        ensures
            rows@ == self.shown_artists(*blocked, similar),
    {
        let source: &Vec<RemoteArtist> = if similar {
            &self.similar
        } else {
            &self.artists
        };
        let mut rows: Vec<RemoteArtist> = Vec::new();
        let mut i: usize = 0;
        let ghost keep = |a: RemoteArtist| !blocked.has(a.id);
        proof {
            reveal(Seq::filter);
            assert(source@.take(0).filter(keep) =~= Seq::empty());
        }
        while i < source.len()
            invariant
                i <= source@.len(),
                keep == (|a: RemoteArtist| !blocked.has(a.id)),
                rows@ == source@.take(i as int).filter(keep),
            decreases source@.len() - i,
        {
            proof {
                reveal(Seq::filter);
                assert(source@.take(i + 1).drop_last() =~= source@.take(i as int));
            }
            if !blocked.contains(source[i].id) {
                rows.push(source[i].clone());
            }
            i = i + 1;
        }
        assert(source@.take(source@.len() as int) =~= source@);
        rows
    }
}

// --------------------------------------------------------------- favourites

/// The signed-in account's favourites, by id, fetched once and cached rather
/// than asked per row: there is no "is this one favourited" lookup, only "list
/// them all", so checking membership after one fetch is the whole of what is
/// affordable.
pub struct Liked {
    pub tracks: HashSet<i64>,
    pub albums: StringHashSet,
    pub artists: HashSet<i64>,
}

fn track_ids(tracks: &Vec<RemoteTrack>) -> (ids: HashSet<i64>)
    ensures
        forall|id: i64| #[trigger]
            ids@.contains(id) <==> exists|i: int|
                0 <= i < tracks@.len() && (#[trigger] tracks@[i]).id == id,
{
    let mut ids: HashSet<i64> = HashSet::new();
    let mut i: usize = 0;
    while i < tracks.len()
        invariant
            i <= tracks@.len(),
            forall|id: i64| #[trigger]
                ids@.contains(id) <==> exists|k: int|
                    0 <= k < i && (#[trigger] tracks@[k]).id == id,
        decreases tracks@.len() - i,
    {
        let ghost held = ids@;
        ids.insert(tracks[i].id);
        assert forall|id: i64| #[trigger] ids@.contains(id) <==> exists|k: int|
            0 <= k < i + 1 && (#[trigger] tracks@[k]).id == id by {
            if held.contains(id) {
                let k = choose|k: int| 0 <= k < i && (#[trigger] tracks@[k]).id == id;
                assert(tracks@[k].id == id);
            }
            if id == tracks@[i as int].id {
                assert(tracks@[i as int].id == id);
            }
        }
        i = i + 1;
    }
    ids
}

fn artist_ids(artists: &Vec<RemoteArtist>) -> (ids: HashSet<i64>)
    ensures
        forall|id: i64| #[trigger]
            ids@.contains(id) <==> exists|i: int|
                0 <= i < artists@.len() && (#[trigger] artists@[i]).id == id,
{
    let mut ids: HashSet<i64> = HashSet::new();
    let mut i: usize = 0;
    while i < artists.len()
        invariant
            i <= artists@.len(),
            forall|id: i64| #[trigger]
                ids@.contains(id) <==> exists|k: int|
                    0 <= k < i && (#[trigger] artists@[k]).id == id,
        decreases artists@.len() - i,
    {
        let ghost held = ids@;
        ids.insert(artists[i].id);
        assert forall|id: i64| #[trigger] ids@.contains(id) <==> exists|k: int|
            0 <= k < i + 1 && (#[trigger] artists@[k]).id == id by {
            if held.contains(id) {
                let k = choose|k: int| 0 <= k < i && (#[trigger] artists@[k]).id == id;
                assert(artists@[k].id == id);
            }
            if id == artists@[i as int].id {
                assert(artists@[i as int].id == id);
            }
        }
        i = i + 1;
    }
    ids
}

fn album_ids(albums: &Vec<RemoteAlbum>) -> (ids: StringHashSet)
    ensures
        forall|id: Seq<char>| #[trigger]
            ids@.contains(id) <==> exists|i: int|
                0 <= i < albums@.len() && (#[trigger] albums@[i]).id@ == id,
{
    let mut ids = StringHashSet::new();
    let mut i: usize = 0;
    while i < albums.len()
        invariant
            i <= albums@.len(),
            forall|id: Seq<char>| #[trigger]
                ids@.contains(id) <==> exists|k: int|
                    0 <= k < i && (#[trigger] albums@[k]).id@ == id,
        decreases albums@.len() - i,
    {
        let ghost held = ids@;
        ids.insert(albums[i].id.clone());
        assert forall|id: Seq<char>| #[trigger] ids@.contains(id) <==> exists|k: int|
            0 <= k < i + 1 && (#[trigger] albums@[k]).id@ == id by {
            if held.contains(id) {
                let k = choose|k: int| 0 <= k < i && (#[trigger] albums@[k]).id@ == id;
                assert(albums@[k].id@ == id);
            }
            if id == albums@[i as int].id@ {
                assert(albums@[i as int].id@ == id);
            }
        }
        i = i + 1;
    }
    ids
}

// -------------------------------------------------------------- the library

pub struct Library {
    pub view: View,
    /// `loaded`, in `sort` order. Everything that indexes into the shelf (the
    /// menus, "play all", a click on row N) reads this one, so the order on
    /// screen and the order acted on cannot drift apart.
    pub shelf: Shelf,
    /// The shelf as it came, kept so a different sort, or "default" again, does
    /// not need another fetch.
    pub loaded: Shelf,
    pub sort: Sort,
    pub loading: bool,
    pub error: Option<String>,
    /// Views visited on the way here, for the back button.
    pub history: Vec<View>,
    /// A view asked for but not yet fetched.
    pub pending: Option<View>,
    pub notice: Option<String>,
    /// One switch for both track sections, not one each.
    pub tracks_view: TracksView,
    /// Narrows a search to what is already favourited.
    pub liked_only: bool,
    /// Keeps a search to the space: only what has already been analysed.
    /// Sticks across searches, like `liked_only`.
    pub space_only: bool,
    /// The favourited ids a search result is checked against, or none before
    /// the first time they are asked for.
    pub liked: Option<Liked>,
    /// Bumped by every `show`. A fetch carries the value it started with and
    /// its result is discarded if it no longer matches: two views asked for in
    /// quick succession race, and the slower one would otherwise land last and
    /// win.
    pub epoch: u64,
}

/// A fetch to make: for which view, and the epoch it was asked in.
pub struct Errand {
    pub view: View,
    pub epoch: u64,
    pub space_only: bool,
}

impl Library {
    /// The shelf on screen is the loaded one in the order asked for.
    pub open spec fn in_order(self) -> bool {
        self.loaded.sorts_to(self.sort, self.shelf)
    }

    pub open spec fn is_searching(self) -> bool {
        self.view is Search
    }

    /// `next` is this library having been asked for `target`, with these views
    /// behind it.
    pub open spec fn asked_for(self, target: View, next: Library) -> bool {
        &&& next.shelf.is_bare()
        &&& next.loaded.is_bare()
        &&& next.in_order()
        &&& next == (Library {
            view: target,
            shelf: next.shelf,
            loaded: next.loaded,
            error: None,
            notice: None,
            loading: true,
            pending: Some(target),
            epoch: self.epoch.wrapping_add(1),
            ..self
        })
    }

    pub fn new() -> (library: Self)
        ensures
            library.view == View::FavouriteTracks,
            library.shelf.is_bare() && library.loaded.is_bare() && library.in_order(),
            library.sort == (Sort { key: SortKey::Default, descending: false }),
            library.loading,
            library.error is None && library.pending is None && library.notice is None,
            library.history@.len() == 0,
            library.tracks_view == TracksView::Grid,
            !library.liked_only && !library.space_only,
            library.liked is None,
            library.epoch == 0,
    {
        let library = Library {
            view: View::FavouriteTracks,
            shelf: Shelf::default(),
            loaded: Shelf::default(),
            sort: Sort { key: SortKey::Default, descending: false },
            loading: true,
            error: None,
            history: Vec::new(),
            pending: None,
            notice: None,
            tracks_view: TracksView::Grid,
            liked_only: false,
            space_only: false,
            liked: None,
            epoch: 0,
        };
        proof {
            lemma_bare_shelves_sort(library.loaded, library.sort, library.shelf);
        }
        library
    }

    /// Ask for a view. The fetch is another step: see `drive`.
    pub fn show(&mut self, target: View)
        ensures
            old(self).asked_for(target, *final(self)),
    {
        self.view = target.clone();
        self.shelf = Shelf::default();
        self.loaded = Shelf::default();
        self.error = None;
        self.notice = None;
        self.loading = true;
        self.pending = Some(target);
        self.epoch = self.epoch.wrapping_add(1);
        proof {
            lemma_bare_shelves_sort(self.loaded, self.sort, self.shelf);
        }
    }

    /// The views behind the current one once `target` is gone to.
    pub open spec fn trail_to(self, target: View) -> Seq<View> {
        if same_view(self.view, target) {
            self.history@
        } else {
            self.history@.push(self.view)
        }
    }

    /// Navigate, remembering where we came from.
    pub fn go(&mut self, target: View)
        ensures
            final(self).history@ == old(self).trail_to(target),
            (Library { history: final(self).history, ..*old(self) }).asked_for(
                target,
                *final(self),
            ),
    {
        if !self.view.is_same(&target) {
            let here = self.view.clone();
            self.history.push(here);
        }
        self.show(target);
    }

    pub fn back(&mut self)
        ensures
            if old(self).history@.len() == 0 {
                *final(self) == *old(self)
            } else {
                &&& final(self).history@ == old(self).history@.drop_last()
                &&& (Library { history: final(self).history, ..*old(self) }).asked_for(
                    old(self).history@.last(),
                    *final(self),
                )
            },
    {
        if self.history.len() == 0 {
            return ;
        }
        match self.history.pop() {
            Some(view) => self.show(view),
            None => {},
        }
    }

    /// `next` is this library having been asked to search. The first search
    /// pushes the view it covers; every refinement after it replaces.
    pub open spec fn searched_to(self, query: String, next: Library) -> bool {
        &&& next.history@ == (if self.is_searching() {
            self.history@
        } else {
            self.history@.push(self.view)
        })
        &&& (Library { history: next.history, ..self }).asked_for(
            View::Search { query, scope: self.view.narrowed_to() },
            next,
        )
    }

    /// `next` is this library having been asked to leave its search.
    pub open spec fn left_search(self, next: Library) -> bool {
        if !self.is_searching() {
            next == self
        } else if self.history@.len() == 0 {
            self.asked_for(View::FavouriteTracks, next)
        } else {
            &&& next.history@ == self.history@.drop_last()
            &&& (Library { history: next.history, ..self }).asked_for(self.history@.last(), next)
        }
    }

    /// Navigate to a search result, refining in place.
    ///
    /// The first search from an album or artist pushes that view, so back
    /// returns to what you were reading. Every refinement after it replaces: a
    /// query that fires as you type would otherwise leave one history entry
    /// per character, and "back" would walk you through your own spelling.
    pub fn search_to(&mut self, query: String)
        ensures
            old(self).searched_to(query, *final(self)),
    {
        let scope = self.view.scope();
        if matches!(self.view, View::Search { .. }) {
            self.show(View::Search { query, scope });
        } else {
            self.go(View::Search { query, scope });
        }
    }

    /// Re-run the current search over a different kind of result. Replaces
    /// rather than pushes, the same as refining the query does.
    pub fn rescope(&mut self, scope: Scope)
        ensures
            match old(self).view {
                View::Search { query, .. } => old(self).asked_for(
                    View::Search { query, scope },
                    *final(self),
                ),
                _ => *final(self) == *old(self),
            },
    {
        let query = match &self.view {
            View::Search { query, .. } => Some(query.clone()),
            _ => None,
        };
        match query {
            Some(query) => self.show(View::Search { query, scope }),
            None => {},
        }
    }

    /// Emptying the box should put back whatever the search covered up, rather
    /// than leaving an empty shelf with no way out but the tabs.
    pub fn leave_search(&mut self)
        ensures
            old(self).left_search(*final(self)),
    {
        if !matches!(self.view, View::Search { .. }) {
            return ;
        }
        if self.history.len() == 0 {
            self.show(View::FavouriteTracks);
        } else {
            self.back();
        }
    }

    pub fn set_sort(&mut self, sort: Sort)
        ensures
            final(self).in_order(),
            *final(self) == (Library { sort, shelf: final(self).shelf, ..*old(self) }),
    {
        self.sort = sort;
        let loaded = self.loaded.clone();
        let shelf = loaded.sorted(sort);
        self.shelf = shelf;
    }

    pub open spec fn has_space_section(self) -> bool {
        self.view matches View::Search { scope, .. } && (scope == Scope::Everything || scope
            == Scope::Tracks)
    }

    /// Whether the "In your space" section is part of this view. Only for a
    /// search: the tracks chip is the liked tracks, and the space holds
    /// everything the crawl reached from them, which is not what that chip is
    /// asking for.
    pub fn shows_space(&self) -> (yes: bool)
        ensures
            yes == self.has_space_section(),
    {
        match &self.view {
            View::Search { scope, .. } => scope.tracks(),
            _ => false,
        }
    }

    /// Whether a search is skipping the catalogue and showing only the space.
    pub fn searching_space_only(&self) -> (yes: bool)
        ensures
            yes == (self.is_searching() && self.space_only),
    {
        matches!(self.view, View::Search { .. }) && self.space_only
    }

    /// Hands out the fetch that `show` last asked for, once.
    pub fn drive(&mut self) -> (errand: Option<Errand>)
        ensures
            *final(self) == (Library { pending: None, ..*old(self) }),
            match old(self).pending {
                Some(view) => errand == Some(
                    Errand { view, epoch: old(self).epoch, space_only: old(self).space_only },
                ),
                None => errand is None,
            },
    {
        let mut pending: Option<View> = None;
        std::mem::swap(&mut pending, &mut self.pending);
        match pending {
            Some(view) => Some(Errand { view, epoch: self.epoch, space_only: self.space_only }),
            None => None,
        }
    }

    /// A fetch came back. Where someone asked for a different view while it was
    /// in flight it is dropped: its rows would stand under that view's heading,
    /// and would call it finished.
    pub fn landed(&mut self, epoch: u64, result: Result<Shelf, String>)
        ensures
            epoch != old(self).epoch ==> *final(self) == *old(self),
            epoch == old(self).epoch ==> match result {
                Ok(shelf) => {
                    &&& final(self).loaded.matches(shelf)
                    &&& final(self).in_order()
                    &&& *final(self) == (Library {
                        loaded: final(self).loaded,
                        shelf: final(self).shelf,
                        loading: false,
                        ..*old(self)
                    })
                },
                Err(message) => *final(self) == (Library {
                    error: Some(message),
                    loading: false,
                    ..*old(self)
                }),
            },
    {
        if self.epoch != epoch {
            return ;
        }
        match result {
            Ok(shelf) => {
                self.loaded = shelf.clone();
                let sort = self.sort;
                let shelf = shelf.sorted(sort);
                self.shelf = shelf;
            },
            Err(message) => {
                self.error = Some(message);
            },
        }
        self.loading = false;
    }

    /// Flips between searching everything and searching the space. Re-runs the
    /// view rather than hiding half of it: a hidden shelf would still be what
    /// "play all" plays.
    pub fn toggle_space_only(&mut self)
        ensures
            (Library { space_only: !old(self).space_only, ..*old(self) }).asked_for(
                old(self).view,
                *final(self),
            ),
    {
        self.space_only = !self.space_only;
        let view = self.view.clone();
        self.show(view);
    }

    /// Flips the "liked" filter. Whether the favourites now have to be fetched.
    pub fn toggle_liked_only(&mut self) -> (fetch: bool)
        ensures
            *final(self) == (Library { liked_only: !old(self).liked_only, ..*old(self) }),
            fetch == (!old(self).liked_only && old(self).liked is None),
    {
        self.liked_only = !self.liked_only;
        self.liked_only && self.wants_liked()
    }

    /// Whether the favourites have yet to be fetched: only the first time they
    /// are asked for after launch reaches the network.
    pub fn wants_liked(&self) -> (yes: bool)
        ensures
            yes == (self.liked is None),
    {
        self.liked.is_none()
    }

    /// The favourites came back; a list that could not be had counts as empty.
    pub fn liked_loaded(
        &mut self,
        tracks: &Vec<RemoteTrack>,
        albums: &Vec<RemoteAlbum>,
        artists: &Vec<RemoteArtist>,
    )
        ensures
            *final(self) == (Library { liked: final(self).liked, ..*old(self) }),
            final(self).liked is Some,
            forall|id: i64| #[trigger]
                final(self).likes_track(id) <==> exists|i: int|
                    0 <= i < tracks@.len() && (#[trigger] tracks@[i]).id == id,
            forall|id: Seq<char>| #[trigger]
                final(self).likes_album(id) <==> exists|i: int|
                    0 <= i < albums@.len() && (#[trigger] albums@[i]).id@ == id,
            forall|id: i64| #[trigger]
                final(self).likes_artist(id) <==> exists|i: int|
                    0 <= i < artists@.len() && (#[trigger] artists@[i]).id == id,
    {
        let liked = Liked {
            tracks: track_ids(tracks),
            albums: album_ids(albums),
            artists: artist_ids(artists),
        };
        self.liked = Some(liked);
    }

    /// Whether a track is known to be favourited. Nothing is until the
    /// favourites have been fetched.
    pub open spec fn likes_track(self, id: i64) -> bool {
        self.liked matches Some(liked) && liked.tracks@.contains(id)
    }

    pub open spec fn likes_album(self, id: Seq<char>) -> bool {
        self.liked matches Some(liked) && liked.albums@.contains(id)
    }

    pub open spec fn likes_artist(self, id: i64) -> bool {
        self.liked matches Some(liked) && liked.artists@.contains(id)
    }

    pub fn is_liked_track(&self, id: i64) -> (yes: bool)
        ensures
            yes == self.likes_track(id),
    {
        match &self.liked {
            Some(liked) => liked.tracks.contains(&id),
            None => false,
        }
    }

    pub fn is_liked_album(&self, id: &str) -> (yes: bool)
        ensures
            yes == self.likes_album(id@),
    {
        match &self.liked {
            Some(liked) => liked.albums.contains(id),
            None => false,
        }
    }

    pub fn is_liked_artist(&self, id: i64) -> (yes: bool)
        ensures
            yes == self.likes_artist(id),
    {
        match &self.liked {
            Some(liked) => liked.artists.contains(&id),
            None => false,
        }
    }

    /// Set one id's membership in the cached favourites, after a successful
    /// favourite add or remove, so the heart in the detail sheet does not sit
    /// wrong until the next full reload. Does nothing before the favourites
    /// have ever been fetched: by the time they are, they are asked for fresh.
    pub fn set_liked(&mut self, kind: &str, id: &str, liked: bool)
        ensures
            *final(self) == (Library { liked: final(self).liked, ..*old(self) }),
            final(self).liked is Some <==> old(self).liked is Some,
            forall|n: i64| #[trigger]
                final(self).likes_track(n) <==> (if kind@ == "track"@ && number_of(id@) == Some(
                    n as int,
                ) && old(self).liked is Some {
                    liked
                } else {
                    old(self).likes_track(n)
                }),
            forall|s: Seq<char>| #[trigger]
                final(self).likes_album(s) <==> (if kind@ == "album"@ && s == id@ && old(
                    self,
                ).liked is Some {
                    liked
                } else {
                    old(self).likes_album(s)
                }),
            forall|n: i64| #[trigger]
                final(self).likes_artist(n) <==> (if kind@ == "artist"@ && number_of(id@) == Some(
                    n as int,
                ) && old(self).liked is Some {
                    liked
                } else {
                    old(self).likes_artist(n)
                }),
    {
        let mut held: Option<Liked> = None;
        std::mem::swap(&mut held, &mut self.liked);
        let mut current = match held {
            Some(current) => current,
            None => {
                return ;
            },
        };
        proof {
            reveal_strlit("track");
            reveal_strlit("album");
            reveal_strlit("artist");
            assert("track"@[0] != "album"@[0]);
            assert("artist"@.len() != "album"@.len());
            assert("artist"@.len() != "track"@.len());
        }
        if same(kind, "track") {
            match parse_i64(id) {
                Some(track_id) => {
                    if liked {
                        current.tracks.insert(track_id);
                    } else {
                        current.tracks.remove(&track_id);
                    }
                },
                None => {},
            }
        } else if same(kind, "album") {
            if liked {
                current.albums.insert(id.to_owned());
            } else {
                current.albums.remove(id);
            }
        } else if same(kind, "artist") {
            match parse_i64(id) {
                Some(artist_id) => {
                    if liked {
                        current.artists.insert(artist_id);
                    } else {
                        current.artists.remove(&artist_id);
                    }
                },
                None => {},
            }
        }
        self.liked = Some(current);
    }
}

impl Default for Library {
    fn default() -> (library: Self)
        ensures
            library.view == View::FavouriteTracks,
            library.shelf.is_bare() && library.loaded.is_bare() && library.in_order(),
            library.sort == (Sort { key: SortKey::Default, descending: false }),
            library.loading,
            library.error is None && library.pending is None && library.notice is None,
            library.history@.len() == 0,
            library.tracks_view == TracksView::Grid,
            !library.liked_only && !library.space_only,
            library.liked is None,
            library.epoch == 0,
    {
        Library::new()
    }
}

proof fn lemma_nothing_sorts<T>(sort: Sort, values: Seq<Option<Rank>>, items: Seq<T>, out: Seq<T>)
    requires
        items.len() == 0,
        values.len() == 0,
        out.len() == 0,
    ensures
        arranged(sort, values, items, out),
{
    assert(out =~= items);
    assert(items.reverse() =~= items);
    let order = Seq::<usize>::empty();
    assert(crate::ui::sorting::puts_in_order(sort.descending, values, order));
    assert(crate::ui::sorting::picked(items, order) =~= out);
}

proof fn lemma_bare_shelves_sort(loaded: Shelf, sort: Sort, shelf: Shelf)
    requires
        loaded.is_bare(),
        shelf.is_bare(),
    ensures
        loaded.sorts_to(sort, shelf),
{
    lemma_nothing_sorts(
        sort,
        Seq::new(loaded.tracks@.len(), |i: int| track_rank(loaded.tracks@[i], sort.key)),
        loaded.tracks@,
        shelf.tracks@,
    );
    lemma_nothing_sorts(
        sort,
        Seq::new(loaded.albums@.len(), |i: int| album_rank(loaded.albums@[i], sort.key)),
        loaded.albums@,
        shelf.albums@,
    );
    lemma_nothing_sorts(
        sort,
        Seq::new(loaded.artists@.len(), |i: int| artist_rank(loaded.artists@[i], sort.key)),
        loaded.artists@,
        shelf.artists@,
    );
    lemma_nothing_sorts(
        sort,
        Seq::new(loaded.playlists@.len(), |i: int| playlist_rank(loaded.playlists@[i], sort.key)),
        loaded.playlists@,
        shelf.playlists@,
    );
    lemma_nothing_sorts(
        sort,
        Seq::new(loaded.similar@.len(), |i: int| artist_rank(loaded.similar@[i], sort.key)),
        loaded.similar@,
        shelf.similar@,
    );
}

/// First load, so the window does not have to reach into navigation.
/// Favourites, because that is also what the crawl seeds from.
pub fn open_initial(library: &mut Library)
    ensures
        old(library).asked_for(View::FavouriteTracks, *final(library)),
{
    library.show(View::FavouriteTracks);
}

/// A view asked for while a fetch was in flight leaves that fetch nowhere to
/// land: its epoch is no longer the library's.
pub proof fn an_overtaken_fetch_is_out_of_date(before: Library, target: View, after: Library)
    requires
        before.asked_for(target, after),
    ensures
        after.epoch != before.epoch,
{
}

/// However often a search is refined, it leaves one view behind it: emptying
/// the box comes back to the view the first query was typed over, with the same
/// views behind that.
pub proof fn leaving_a_search_returns(states: Seq<Library>, queries: Seq<String>, left: Library)
    requires
        queries.len() > 0,
        states.len() == queries.len() + 1,
        !states[0].is_searching(),
        forall|i: int|
            0 <= i < queries.len() ==> #[trigger] states[i].searched_to(queries[i], states[i + 1]),
        states.last().left_search(left),
    ensures
        left.view == states[0].view,
        left.history@ == states[0].history@,
{
    lemma_refining_keeps_the_trail(states, queries, queries.len() as int);
    assert(states[0].history@.push(states[0].view).drop_last() =~= states[0].history@);
}

proof fn lemma_refining_keeps_the_trail(states: Seq<Library>, queries: Seq<String>, n: int)
    requires
        1 <= n <= queries.len(),
        states.len() == queries.len() + 1,
        !states[0].is_searching(),
        forall|i: int|
            0 <= i < queries.len() ==> #[trigger] states[i].searched_to(queries[i], states[i + 1]),
    ensures
        states[n].is_searching(),
        states[n].history@ == states[0].history@.push(states[0].view),
    decreases n,
{
    if n > 1 {
        lemma_refining_keeps_the_trail(states, queries, n - 1);
    }
    let i = n - 1;
    assert(states[i].searched_to(queries[i], states[i + 1]));
}

// --------------------------------------------------------------- crawl hook

/// What to fetch into the catalogue.
#[derive(Debug, PartialEq)]
pub enum Fetch {
    Artist(i64),
    Album(String),
    /// An artist that does not go by a number.
    Unreadable,
}

/// Which fetch a request comes to: an artist by number, anything else as an
/// album.
pub fn fetch_into_catalog(kind: &str, id: &str) -> (fetch: Fetch)
    ensures
        match fetch {
            Fetch::Artist(n) => kind@ == "artist"@ && number_of(id@) == Some(n as int),
            Fetch::Album(text) => kind@ != "artist"@ && text@ == id@,
            Fetch::Unreadable => kind@ == "artist"@ && !(number_of(id@) matches Some(n)
                && i64::MIN <= n <= i64::MAX),
        },
{
    if same(kind, "artist") {
        match parse_i64(id) {
            Some(n) => Fetch::Artist(n),
            None => Fetch::Unreadable,
        }
    } else {
        Fetch::Album(id.to_owned())
    }
}

/// Says that an artist or album is being fetched into the catalogue.
pub fn request_analysis(library: &mut Library, label: &str)
    ensures
        seen(final(library).notice) == Some("fetching "@ + label@ + "…"@),
        *final(library) == (Library { notice: final(library).notice, ..*old(library) }),
{
    let mut notice = joined("fetching ", label);
    push_text(&mut notice, "…");
    library.notice = Some(notice);
}

pub open spec fn fetched_notice(kind: Seq<char>, label: Seq<char>, count: nat) -> Seq<char> {
    label + ": "@ + digits(count) + " "@ + (if kind == "artist"@ {
        "albums queued"@
    } else {
        "tracks"@
    }) + ". Run analyse from the pipeline view to extract features."@
}

/// Says what the fetch came to. An album's tracklist lands immediately and a
/// discography is queued; only feature extraction still belongs to the
/// pipeline.
pub fn analysis_requested(
    library: &mut Library,
    kind: &str,
    label: &str,
    result: Result<usize, String>,
)
    ensures
        seen(final(library).notice) == Some(
            match result {
                Ok(count) => fetched_notice(kind@, label@, count as nat),
                Err(message) => message@,
            },
        ),
        *final(library) == (Library { notice: final(library).notice, ..*old(library) }),
{
    let notice = match result {
        Ok(count) => {
            let mut text = joined(label, ": ");
            push_text(&mut text, decimal(count as u128).as_str());
            push_text(&mut text, " ");
            if same(kind, "artist") {
                push_text(&mut text, "albums queued");
            } else {
                push_text(&mut text, "tracks");
            }
            push_text(&mut text, ". Run analyse from the pipeline view to extract features.");
            text
        },
        Err(message) => message,
    };
    library.notice = Some(notice);
}

} // verus!
