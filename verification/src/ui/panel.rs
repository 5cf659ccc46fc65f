//! What the library column shows.

use crate::qobuz::{RemoteAlbum, RemoteArtist, RemoteTrack};
use crate::strings::{decimal, digits, joined, push_text};
use crate::ui::context::{Blocklist, SpaceRow, SEARCH_LIMIT};
use crate::ui::library::{Library, Scope, View};
use crate::ui::sorting::{Sort, SortKey};
use std::collections::HashSet;
use vstd::prelude::*;
use vstd::view::View as _;

verus! {

broadcast use vstd::std_specs::hash::group_hash_axioms;

/// How many space rows the list opens with. Enough to fill the column on any
/// screen; "show more" triples it.
pub const FIRST_SHOWN: usize = 80;

/// How many rows to show once more are asked for.
pub fn show_more(shown: usize) -> (next: usize)
    requires
        shown * 3 <= usize::MAX,
    ensures
        next == shown * 3,
{
    shown * 3
}

/// Each row with its place in the list.
pub open spec fn numbered<T>(rows: Seq<T>) -> Seq<(usize, T)> {
    Seq::new(rows.len(), |i: int| (i as usize, rows[i]))
}

// ---------------------------------------------------------------- sections

pub open spec fn has_row(rows: Seq<SpaceRow>, id: i64) -> bool {
    exists|i: int| 0 <= i < rows.len() && (#[trigger] rows[i]).track_id == id
}

/// Track ids already listed under "In your space"; none when that section is
/// not showing, or the catalogue's list would drop them with nowhere to go.
pub fn space_ids(library: &Library, rows: &Vec<SpaceRow>) -> (ids: HashSet<i64>)
    ensures
        forall|id: i64| #[trigger]
            ids@.contains(id) <==> library.has_space_section() && has_row(rows@, id),
{
    let mut ids: HashSet<i64> = HashSet::new();
    if !library.shows_space() {
        return ids;
    }
    let mut i: usize = 0;
    while i < rows.len()
        invariant
            i <= rows@.len(),
            library.has_space_section(),
            forall|id: i64| #[trigger]
                ids@.contains(id) <==> exists|k: int|
                    0 <= k < i && (#[trigger] rows@[k]).track_id == id,
        decreases rows@.len() - i,
    {
        let ghost held = ids@;
        ids.insert(rows[i].track_id);
        assert forall|id: i64| #[trigger] ids@.contains(id) <==> exists|k: int|
            0 <= k < i + 1 && (#[trigger] rows@[k]).track_id == id by {
            if held.contains(id) {
                let k = choose|k: int| 0 <= k < i && (#[trigger] rows@[k]).track_id == id;
                assert(rows@[k].track_id == id);
            }
            if id == rows@[i as int].track_id {
                assert(rows@[i as int].track_id == id);
            }
        }
        i = i + 1;
    }
    ids
}

pub open spec fn outside(ids: Set<i64>) -> spec_fn((usize, RemoteTrack)) -> bool {
    |row: (usize, RemoteTrack)| !ids.contains(row.1.id)
}

/// Shelf tracks that the space section is not already showing, each paired
/// with its index into the visible tracks.
///
/// The index is the row's address: the menu re-reads the visible tracks when
/// an item is chosen, so it must survive the filter. Numbering before filtering
/// is what keeps it correct.
pub fn qobuz_only(tracks: Vec<RemoteTrack>, in_space: &HashSet<i64>) -> (rows: Vec<
    (usize, RemoteTrack),
>)
    ensures
        rows@ == numbered(tracks@).filter(outside(in_space@)),
{
    let ghost all = numbered(tracks@);
    let ghost keep = outside(in_space@);
    let mut rows: Vec<(usize, RemoteTrack)> = Vec::new();
    let mut i: usize = 0;
    proof {
        reveal(Seq::filter);
        assert(all.take(0).filter(keep) =~= Seq::empty());
    }
    while i < tracks.len()
        invariant
            i <= tracks@.len(),
            all == numbered(tracks@),
            keep == outside(in_space@),
            rows@ == all.take(i as int).filter(keep),
        decreases tracks@.len() - i,
    {
        proof {
            reveal(Seq::filter);
            assert(all.take(i + 1).drop_last() =~= all.take(i as int));
            assert(all.take(i + 1).last() == (i, tracks@[i as int]));
        }
        if !in_space.contains(&tracks[i].id) {
            rows.push((i, tracks[i].clone()));
        }
        i = i + 1;
    }
    assert(all.take(all.len() as int) =~= all);
    rows
}

/// The shelf's tracks are narrowed to what is liked, where that is asked for.
pub open spec fn liked_track(library: Library) -> spec_fn((usize, RemoteTrack)) -> bool {
    |row: (usize, RemoteTrack)| !library.liked_only || library.likes_track(row.1.id)
}

pub open spec fn liked_album(library: Library) -> spec_fn((usize, RemoteAlbum)) -> bool {
    |row: (usize, RemoteAlbum)| !library.liked_only || library.likes_album(row.1.id@)
}

/// Similar artists are a suggestion, not something to have already liked, so
/// that section is never narrowed.
pub open spec fn liked_artist(library: Library, similar: bool) -> spec_fn(
    (usize, RemoteArtist),
) -> bool {
    |row: (usize, RemoteArtist)| similar || !library.liked_only || library.likes_artist(row.1.id)
}

/// The ids the space section is showing.
pub open spec fn shown_in_space(library: Library, rows: Seq<SpaceRow>) -> Set<i64> {
    Set::new(|id: i64| library.has_space_section() && has_row(rows, id))
}

pub open spec fn listed_tracks(
    library: Library,
    blocked: Blocklist,
    space: Seq<SpaceRow>,
) -> Seq<(usize, RemoteTrack)> {
    numbered(library.shelf.shown_tracks(blocked)).filter(
        outside(shown_in_space(library, space)),
    ).filter(liked_track(library))
}

pub open spec fn listed_albums(library: Library, blocked: Blocklist) -> Seq<(usize, RemoteAlbum)> {
    numbered(library.shelf.shown_albums(blocked)).filter(liked_album(library))
}

pub open spec fn listed_artists(library: Library, blocked: Blocklist, similar: bool) -> Seq<
    (usize, RemoteArtist),
> {
    numbered(library.shelf.shown_artists(blocked, similar)).filter(
        liked_artist(library, similar),
    )
}

/// The track rows, each with the place that addresses it.
pub fn track_rows(library: &Library, blocked: &Blocklist, space: &Vec<SpaceRow>) -> (rows: Vec<
    (usize, RemoteTrack),
>)
    ensures
        rows@ == listed_tracks(*library, *blocked, space@),
{
    let ids = space_ids(library, space);
    assert(ids@ =~= shown_in_space(*library, space@));
    let all = qobuz_only(library.shelf.visible_tracks(blocked), &ids);
    let ghost keep = liked_track(*library);
    let mut rows: Vec<(usize, RemoteTrack)> = Vec::new();
    let mut i: usize = 0;
    proof {
        reveal(Seq::filter);
        assert(all@.take(0).filter(keep) =~= Seq::empty());
    }
    while i < all.len()
        invariant
            i <= all@.len(),
            keep == liked_track(*library),
            rows@ == all@.take(i as int).filter(keep),
        decreases all@.len() - i,
    {
        proof {
            reveal(Seq::filter);
            assert(all@.take(i + 1).drop_last() =~= all@.take(i as int));
        }
        if !library.liked_only || library.is_liked_track(all[i].1.id) {
            rows.push((all[i].0, all[i].1.clone()));
        }
        i = i + 1;
    }
    assert(all@.take(all@.len() as int) =~= all@);
    rows
}

/// The album tiles, each with the place that addresses it.
pub fn album_rows(library: &Library, blocked: &Blocklist) -> (rows: Vec<(usize, RemoteAlbum)>)
    ensures
        rows@ == listed_albums(*library, *blocked),
{
    let albums = library.shelf.visible_albums(blocked);
    let ghost all = numbered(albums@);
    let ghost keep = liked_album(*library);
    let mut rows: Vec<(usize, RemoteAlbum)> = Vec::new();
    let mut i: usize = 0;
    proof {
        reveal(Seq::filter);
        assert(all.take(0).filter(keep) =~= Seq::empty());
    }
    while i < albums.len()
        invariant
            i <= albums@.len(),
            all == numbered(albums@),
            keep == liked_album(*library),
            rows@ == all.take(i as int).filter(keep),
        decreases albums@.len() - i,
    {
        proof {
            reveal(Seq::filter);
            assert(all.take(i + 1).drop_last() =~= all.take(i as int));
            assert(all.take(i + 1).last() == (i, albums@[i as int]));
        }
        if !library.liked_only || library.is_liked_album(albums[i].id.as_str()) {
            rows.push((i, albums[i].clone()));
        }
        i = i + 1;
    }
    assert(all.take(all.len() as int) =~= all);
    rows
}

/// The artist tiles, each with the place that addresses it.
pub fn artist_rows(library: &Library, blocked: &Blocklist, similar: bool) -> (rows: Vec<
    (usize, RemoteArtist),
>)
    ensures
        rows@ == listed_artists(*library, *blocked, similar),
{
    let artists = library.shelf.visible_artists(blocked, similar);
    let ghost all = numbered(artists@);
    let ghost keep = liked_artist(*library, similar);
    let mut rows: Vec<(usize, RemoteArtist)> = Vec::new();
    let mut i: usize = 0;
    proof {
        reveal(Seq::filter);
        assert(all.take(0).filter(keep) =~= Seq::empty());
    }
    while i < artists.len()
        invariant
            i <= artists@.len(),
            all == numbered(artists@),
            keep == liked_artist(*library, similar),
            rows@ == all.take(i as int).filter(keep),
        decreases artists@.len() - i,
    {
        proof {
            reveal(Seq::filter);
            assert(all.take(i + 1).drop_last() =~= all.take(i as int));
            assert(all.take(i + 1).last() == (i, artists@[i as int]));
        }
        if similar || !library.liked_only || library.is_liked_artist(artists[i].id) {
            rows.push((i, artists[i].clone()));
        }
        i = i + 1;
    }
    assert(all.take(all.len() as int) =~= all);
    rows
}

proof fn lemma_filter_holds_only<T>(rows: Seq<T>, keep: spec_fn(T) -> bool)
    ensures
        forall|i: int|
            0 <= i < rows.filter(keep).len() ==> rows.contains(#[trigger] rows.filter(keep)[i])
                && keep(rows.filter(keep)[i]),
    decreases rows.len(),
{
    reveal(Seq::filter);
    if rows.len() > 0 {
        let rest = rows.drop_last();
        lemma_filter_holds_only(rest, keep);
        assert forall|i: int| 0 <= i < rows.filter(keep).len() implies rows.contains(
            #[trigger] rows.filter(keep)[i],
        ) && keep(rows.filter(keep)[i]) by {
            let x = rows.filter(keep)[i];
            if i < rest.filter(keep).len() {
                assert(x == rest.filter(keep)[i]);
                let k = choose|k: int| 0 <= k < rest.len() && rest[k] == x;
                assert(rows[k] == x);
            } else {
                assert(rows[rows.len() - 1] == x);
            }
        }
    }
}

/// A listed track row is addressed by its place among the visible tracks, so
/// what a menu reads back at that place is the row it was opened on.
pub proof fn a_listed_row_is_found_at_its_place(
    library: Library,
    blocked: Blocklist,
    space: Seq<SpaceRow>,
    i: int,
)
    requires
        0 <= i < listed_tracks(library, blocked, space).len(),
        library.shelf.shown_tracks(blocked).len() <= usize::MAX,
    ensures
        ({
            let row = listed_tracks(library, blocked, space)[i];
            let visible = library.shelf.shown_tracks(blocked);
            row.0 < visible.len() && visible[row.0 as int] == row.1
        }),
{
    let visible = library.shelf.shown_tracks(blocked);
    let all = numbered(visible);
    let some = all.filter(outside(shown_in_space(library, space)));
    lemma_filter_holds_only(all, outside(shown_in_space(library, space)));
    lemma_filter_holds_only(some, liked_track(library));
    let row = listed_tracks(library, blocked, space)[i];
    assert(some.contains(row));
    let k = choose|k: int| 0 <= k < some.len() && some[k] == row;
    assert(all.contains(some[k]));
    let j = choose|j: int| 0 <= j < all.len() && all[j] == row;
    assert(row.0 == j as usize);
}

// --------------------------------------------------------------- the column

/// What stands in the column besides the rows themselves.
#[derive(Debug, PartialEq)]
pub struct Panel {
    /// None on an album's or an artist's own page, which shows the thing
    /// itself instead.
    pub heading: Option<String>,
    pub searching: bool,
    pub scope: Scope,
    pub space_only: bool,
    pub liked_only: bool,
    pub has_history: bool,
    /// Whether "play all" and its like are offered: they mean the view's
    /// tracks, including ones the space section happens to be showing.
    pub bulk: bool,
    pub shows_space: bool,
    pub shows_artists: bool,
    pub shows_albums: bool,
    pub shows_playlists: bool,
    pub shows_tracks: bool,
    pub shows_similar: bool,
    /// "Nothing here" belongs to the whole list, not to the catalogue's half
    /// of it.
    pub nothing_visible: bool,
}

pub fn panel(library: &Library, blocked: &Blocklist, space: &Vec<SpaceRow>, total: usize) -> (panel:
    Panel)
    ensures
        crate::json::seen(panel.heading) == (match library.view {
            View::Album(_) => None,
            View::Artist(_) => None,
            _ => Some(library.view.heading()),
        }),
        panel.searching == library.is_searching(),
        panel.scope == library.view.narrowed_to(),
        panel.space_only == (library.is_searching() && library.space_only),
        panel.liked_only == library.liked_only,
        panel.has_history == (library.history@.len() > 0),
        panel.bulk == (library.shelf.shown_tracks(*blocked).len() > 0),
        panel.shows_space == library.has_space_section(),
        panel.shows_artists == (listed_artists(*library, *blocked, false).len() > 0),
        panel.shows_albums == (listed_albums(*library, *blocked).len() > 0),
        panel.shows_playlists == (library.shelf.playlists@.len() > 0),
        panel.shows_tracks == (listed_tracks(*library, *blocked, space@).len() > 0),
        panel.shows_similar == (listed_artists(*library, *blocked, true).len() > 0),
        panel.nothing_visible == (!panel.shows_tracks && !panel.shows_albums
            && !panel.shows_artists && !panel.shows_similar && !panel.shows_playlists && (
        !panel.shows_space || total == 0)),
{
    let heading = match &library.view {
        View::Album(_) => None,
        View::Artist(_) => None,
        _ => Some(library.view.label()),
    };
    let shows_space: bool = library.shows_space();
    let shows_artists: bool = artist_rows(library, blocked, false).len() > 0;
    let shows_albums: bool = album_rows(library, blocked).len() > 0;
    let shows_playlists: bool = library.shelf.playlists.len() > 0;
    let shows_tracks: bool = track_rows(library, blocked, space).len() > 0;
    let shows_similar: bool = artist_rows(library, blocked, true).len() > 0;
    Panel {
        heading,
        searching: matches!(library.view, View::Search { .. }),
        scope: library.view.scope(),
        space_only: library.searching_space_only(),
        liked_only: library.liked_only,
        has_history: library.history.len() > 0,
        bulk: library.shelf.visible_tracks(blocked).len() > 0,
        shows_space,
        shows_artists,
        shows_albums,
        shows_playlists,
        shows_tracks,
        shows_similar,
        nothing_visible: !shows_tracks && !shows_albums && !shows_artists && !shows_similar
            && !shows_playlists && (!shows_space || total == 0),
    }
}

/// The scope a chip narrows a search to. A second tap on the lit one widens it
/// back to everything.
pub fn chip_scope(current: Scope, chip: Scope) -> (scope: Scope)
    ensures
        scope == (if current == chip {
            Scope::Everything
        } else {
            chip
        }),
{
    if current == chip {
        Scope::Everything
    } else {
        chip
    }
}

/// The chips over a list that is not a search: what each says, whether it is
/// lit, and where it leads.
pub fn source_chips(view: &View) -> (chips: [(&'static str, bool, View); 4])
    ensures
        chips@[0].0@ == "tracks"@ && chips@[0].1 == (view is FavouriteTracks) && chips@[0].2
            == View::FavouriteTracks,
        chips@[1].0@ == "albums"@ && chips@[1].1 == (view is FavouriteAlbums) && chips@[1].2
            == View::FavouriteAlbums,
        chips@[2].0@ == "artists"@ && chips@[2].1 == (view is FavouriteArtists) && chips@[2].2
            == View::FavouriteArtists,
        chips@[3].0@ == "playlists"@ && chips@[3].1 == (view is Playlists || view is Playlist)
            && chips@[3].2 == View::Playlists,
{
    [
        ("tracks", matches!(view, View::FavouriteTracks), View::FavouriteTracks),
        ("albums", matches!(view, View::FavouriteAlbums), View::FavouriteAlbums),
        ("artists", matches!(view, View::FavouriteArtists), View::FavouriteArtists),
        ("playlists", view.is_playlists(), View::Playlists),
    ]
}

/// What the sort chip says.
pub fn sort_label(sort: Sort) -> (text: String)
    ensures
        text@ == sort.key.name() + " "@ + (if sort.descending {
            "↓"@
        } else {
            "↑"@
        }),
{
    let mut text = joined(sort.key.label(), " ");
    if sort.descending {
        push_text(&mut text, "↓");
    } else {
        push_text(&mut text, "↑");
    }
    text
}

/// Whether the sort chip is lit: anything but the order the rows came in.
pub fn sort_active(sort: Sort) -> (yes: bool)
    ensures
        yes == !(sort.key == SortKey::Default && !sort.descending),
{
    !(sort.key == SortKey::Default && !sort.descending)
}

/// The catalogue's own cap, worth saying so a short list does not read as all
/// there is.
pub fn tracks_note(count: usize) -> (note: Option<String>)
    ensures
        crate::json::seen(note) == (if count >= SEARCH_LIMIT {
            Some("first "@ + digits(SEARCH_LIMIT as nat))
        } else {
            None
        }),
{
    if count >= SEARCH_LIMIT {
        Some(joined("first ", decimal(SEARCH_LIMIT as u128).as_str()))
    } else {
        None
    }
}

/// How a row or a tile is styled, with its mark (playing, selected) if it has
/// one.
pub fn row_class(grid: bool, mark: Option<&str>) -> (class: String)
    ensures
        ({
            let base = if grid {
                "tile"@
            } else {
                "row"@
            };
            class@ == (match mark {
                Some(mark) => base + " "@ + mark@,
                None => base,
            })
        }),
{
    let base = if grid {
        "tile"
    } else {
        "row"
    };
    match mark {
        Some(mark) => {
            let mut class = joined(base, " ");
            push_text(&mut class, mark);
            class
        },
        None => base.to_owned(),
    }
}

// -------------------------------------------------------- the space section

/// The rows the space already holds, as the first section of the list.
///
/// Addressed by track id, not by position: these rows come from the space's
/// own scan rather than from the shelf, so they must not share the shelf's
/// index space.
pub struct SpaceSection {
    pub rows: Vec<SpaceRow>,
    pub total: usize,
    /// How many there are, said beside the heading.
    pub count: String,
    pub more: bool,
    /// What is said instead where there are none and something was asked for.
    pub message: Option<&'static str>,
}

pub open spec fn liked_row(library: Library) -> spec_fn(SpaceRow) -> bool {
    |row: SpaceRow| library.likes_track(row.track_id)
}

/// With the catalogue out of the search, "liked" has only the space left to
/// narrow. Counted over the rows the scan kept, not every match.
pub open spec fn narrows_space(library: Library) -> bool {
    library.liked_only && library.is_searching() && library.space_only
}

pub fn space_section(
    library: &Library,
    found: &Vec<SpaceRow>,
    total: usize,
    searching: bool,
    shown: usize,
) -> (section: SpaceSection)
    ensures
        ({
            let rows = if narrows_space(*library) {
                found@.filter(liked_row(*library))
            } else {
                found@
            };
            let all = if narrows_space(*library) {
                rows.len()
            } else {
                total as nat
            };
            let visible = if shown < rows.len() {
                shown as nat
            } else {
                rows.len()
            };
            &&& section.total == all
            &&& section.rows@ == rows.take(visible as int)
            &&& section.more == (visible < all)
            &&& section.count@ == (if visible < all {
                digits(visible) + " of "@ + digits(all)
            } else {
                digits(all)
            })
            &&& match section.message {
                Some(message) => all == 0 && searching && message@ == (if narrows_space(*library) {
                    "Nothing you've liked matches."@
                } else {
                    "Nothing matches. Every word has to appear somewhere."@
                }),
                None => !(all == 0 && searching),
            }
        }),
{
    let narrowed: bool = library.liked_only && library.searching_space_only();
    let ghost keep = liked_row(*library);
    let mut rows: Vec<SpaceRow> = Vec::new();
    let mut i: usize = 0;
    proof {
        reveal(Seq::filter);
        assert(found@.take(0).filter(keep) =~= Seq::empty());
    }
    while i < found.len()
        invariant
            i <= found@.len(),
            keep == liked_row(*library),
            rows@ == (if narrowed {
                found@.take(i as int).filter(keep)
            } else {
                found@.take(i as int)
            }),
        decreases found@.len() - i,
    {
        proof {
            reveal(Seq::filter);
            assert(found@.take(i + 1).drop_last() =~= found@.take(i as int));
            assert(found@.take(i + 1) =~= found@.take(i as int).push(found@[i as int]));
        }
        if !narrowed || library.is_liked_track(found[i].track_id) {
            rows.push(found[i].clone());
        }
        i = i + 1;
    }
    assert(found@.take(found@.len() as int) =~= found@);
    let all: usize = if narrowed {
        rows.len()
    } else {
        total
    };
    let visible: usize = if shown < rows.len() {
        shown
    } else {
        rows.len()
    };
    let ghost kept = rows@;
    rows.truncate(visible);
    assert(rows@ =~= kept.take(visible as int));
    let count = if visible < all {
        let mut text = joined(decimal(visible as u128).as_str(), " of ");
        push_text(&mut text, decimal(all as u128).as_str());
        text
    } else {
        decimal(all as u128)
    };
    let message = if all == 0 && searching {
        if narrowed {
            Some("Nothing you've liked matches.")
        } else {
            Some("Nothing matches. Every word has to appear somewhere.")
        }
    } else {
        None
    };
    SpaceSection { rows, total: all, count, more: visible < all, message }
}

} // verus!
