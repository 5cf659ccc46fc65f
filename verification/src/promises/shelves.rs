//! What the lists show, and in what order.

use crate::qobuz::{RemoteAlbum, RemoteArtist, RemotePlaylist, RemoteTrack};
use crate::strings::lower_of;
use crate::ui::context::{Blocklist, SpaceRow};
use crate::ui::library::{Library, Shelf};
use crate::ui::panel::{
    has_row, liked_album, liked_artist, liked_track, listed_albums, listed_artists, listed_tracks,
    numbered, outside, shown_in_space,
};
use crate::ui::sorting::{
    arranged, picked, puts_in_order, row_before, row_no_later, space_rank, text_no_later, Rank,
    Sort, SortKey,
};
use vstd::prelude::*;

verus! {

// ---------------------------------------------------------------- the order

/// The two texts are the same up to `k`, where the first ends or has the lower
/// character.
pub open spec fn parts_at(a: Seq<char>, b: Seq<char>, k: int) -> bool {
    &&& 0 <= k <= a.len()
    &&& k < b.len()
    &&& forall|i: int| 0 <= i < k ==> #[trigger] a[i] == b[i]
    &&& k == a.len() || (a[k] as int) < (b[k] as int)
}

/// One text stands before another in a dictionary.
pub open spec fn is_spelled_before(a: Seq<char>, b: Seq<char>) -> bool {
    exists|k: int| #[trigger] parts_at(a, b, k)
}

/// Texts are in the order of a dictionary.
pub proof fn texts_sort_as_in_a_dictionary(a: Seq<char>, b: Seq<char>)
    ensures
        text_no_later(a, b) <==> a == b || is_spelled_before(a, b),
        !(is_spelled_before(a, b) && is_spelled_before(b, a)),
        !is_spelled_before(a, a),
    decreases a.len(),
{
    if is_spelled_before(a, b) && is_spelled_before(b, a) {
        let k = choose|k: int| #[trigger] parts_at(a, b, k);
        let m = choose|m: int| #[trigger] parts_at(b, a, m);
        if k < m {
            assert(b[k] == a[k]);
        }
        if m < k {
            assert(a[m] == b[m]);
        }
        assert(false);
    }
    if a.len() == 0 {
        if b.len() == 0 {
            assert(a =~= b);
        } else {
            assert(parts_at(a, b, 0));
        }
    } else if b.len() == 0 {
    } else if a[0] != b[0] {
        if (a[0] as int) < (b[0] as int) {
            assert(parts_at(a, b, 0));
        } else if is_spelled_before(a, b) {
            let k = choose|k: int| #[trigger] parts_at(a, b, k);
            assert(k == 0);
        }
    } else {
        let x = a.drop_first();
        let y = b.drop_first();
        texts_sort_as_in_a_dictionary(x, y);
        if x == y {
            assert(a =~= seq![a[0]] + x);
            assert(b =~= seq![b[0]] + y);
        } else {
            assert(a != b);
        }
        if is_spelled_before(x, y) {
            let k = choose|k: int| #[trigger] parts_at(x, y, k);
            assert forall|i: int| 0 <= i < k + 1 implies #[trigger] a[i] == b[i] by {
                if i > 0 {
                    assert(x[i - 1] == y[i - 1]);
                }
            }
            assert(parts_at(a, b, k + 1));
        }
        if is_spelled_before(a, b) {
            let k = choose|k: int| #[trigger] parts_at(a, b, k);
            assert forall|i: int| 0 <= i < k - 1 implies #[trigger] x[i] == y[i] by {
                assert(a[i + 1] == b[i + 1]);
            }
            assert(parts_at(x, y, k - 1));
        }
    }
}

/// Of two rows with these values, of which the first came first or did not,
/// the first is listed first.
pub open spec fn is_listed_first(
    descending: bool,
    one: Option<Rank>,
    other: Option<Rank>,
    came_first: bool,
) -> bool {
    match (one, other) {
        (Some(Rank::Text(a)), Some(Rank::Text(b))) => if a == b {
            came_first
        } else if descending {
            is_spelled_before(b, a)
        } else {
            is_spelled_before(a, b)
        },
        (Some(Rank::Number(a)), Some(Rank::Number(b))) => if a == b {
            came_first
        } else if descending {
            a > b
        } else {
            a < b
        },
        (Some(Rank::Text(_)), Some(Rank::Number(_))) => !descending,
        (Some(Rank::Number(_)), Some(Rank::Text(_))) => descending,
        (Some(_), None) => true,
        (None, Some(_)) => false,
        (None, None) => came_first,
    }
}

/// `out` holds every row once, and `came` says which each of them was.
pub open spec fn is_shuffled<T>(rows: Seq<T>, out: Seq<T>, came: Seq<int>) -> bool {
    &&& out.len() == rows.len()
    &&& came.len() == rows.len()
    &&& came.no_duplicates()
    &&& forall|i: int|
        0 <= i < came.len() ==> 0 <= #[trigger] came[i] < rows.len() && out[i] == rows[came[i]]
}

/// `came` takes the rows in the order of their values.
pub open spec fn goes_by(descending: bool, values: Seq<Option<Rank>>, came: Seq<int>) -> bool {
    forall|i: int, j: int|
        0 <= i < j < came.len() ==> is_listed_first(
            descending,
            values[#[trigger] came[i]],
            values[#[trigger] came[j]],
            came[i] < came[j],
        )
}

/// `out` is `rows` by the value of each, or as they came where that is asked
/// for; turned round where it descends.
pub open spec fn is_sorted_by<T>(
    sort: Sort,
    values: Seq<Option<Rank>>,
    rows: Seq<T>,
    out: Seq<T>,
) -> bool {
    if sort.key == SortKey::Default {
        &&& out.len() == rows.len()
        &&& forall|i: int|
            0 <= i < rows.len() ==> #[trigger] out[i] == (if sort.descending {
                rows[rows.len() - 1 - i]
            } else {
                rows[i]
            })
    } else {
        exists|came: Seq<int>| #[trigger]
            goes_by(sort.descending, values, came) && is_shuffled(rows, out, came)
    }
}

proof fn lemma_row_before(descending: bool, values: Seq<Option<Rank>>, a: int, b: int)
    requires
        row_before(descending, values, a, b),
        a != b,
    ensures
        is_listed_first(descending, values[a], values[b], a < b),
{
    match (values[a], values[b]) {
        (Some(Rank::Text(x)), Some(Rank::Text(y))) => {
            texts_sort_as_in_a_dictionary(x, y);
            texts_sort_as_in_a_dictionary(y, x);
        },
        _ => {},
    }
}

/// A sorted list holds every row once. Rows go by their values, those without
/// one come last, and rows of one value stay as they came. The default order
/// is the one they came in.
pub proof fn a_sorted_list_is_in_order<T>(
    sort: Sort,
    values: Seq<Option<Rank>>,
    rows: Seq<T>,
    out: Seq<T>,
)
    requires
        values.len() == rows.len(),
        rows.len() <= usize::MAX,
        arranged(sort, values, rows, out),
    ensures
        is_sorted_by(sort, values, rows, out),
{
    if sort.key != SortKey::Default {
        let order = choose|order: Seq<usize>| #[trigger]
            puts_in_order(sort.descending, values, order) && out == picked(rows, order);
        let came = Seq::new(order.len(), |i: int| order[i] as int);
        assert forall|i: int, j: int| 0 <= i < j < came.len() implies is_listed_first(
            sort.descending,
            values[#[trigger] came[i]],
            values[#[trigger] came[j]],
            came[i] < came[j],
        ) && came[i] != came[j] by {
            let a = order[i] as int;
            let b = order[j] as int;
            assert(row_before(sort.descending, values, a, b));
            if a == b {
                assert(row_no_later(sort.descending, values[a], values[b]));
                assert(false);
            }
            lemma_row_before(sort.descending, values, a, b);
        }
        assert(came.no_duplicates());
        assert(is_shuffled(rows, out, came));
        assert(goes_by(sort.descending, values, came));
    }
}

/// The text in lower case, as a thing to sort by.
pub open spec fn by_text(text: Seq<char>) -> Option<Rank> {
    Some(Rank::Text(lower_of(text)))
}

/// What each track is sorted by.
pub open spec fn by_track(rows: Seq<RemoteTrack>, key: SortKey) -> Seq<Option<Rank>> {
    Seq::new(
        rows.len(),
        |i: int|
            match key {
                SortKey::Title => by_text(rows[i].title@),
                SortKey::Artist => by_text(rows[i].artist@),
                SortKey::Album => by_text(rows[i].album@),
                SortKey::Released => match rows[i].released {
                    Some(date) => by_text(date@),
                    None => None,
                },
                SortKey::Duration => match rows[i].duration {
                    Some(seconds) => Some(Rank::Number(seconds as int)),
                    None => None,
                },
                SortKey::Default => None,
            },
    )
}

/// What each album is sorted by.
pub open spec fn by_album(rows: Seq<RemoteAlbum>, key: SortKey) -> Seq<Option<Rank>> {
    Seq::new(
        rows.len(),
        |i: int|
            match key {
                SortKey::Title => by_text(rows[i].title@),
                SortKey::Album => by_text(rows[i].title@),
                SortKey::Artist => by_text(rows[i].artist@),
                SortKey::Released => match rows[i].released {
                    Some(date) => by_text(date@),
                    None => None,
                },
                SortKey::Duration => None,
                SortKey::Default => None,
            },
    )
}

/// What each artist is sorted by.
pub open spec fn by_artist(rows: Seq<RemoteArtist>, key: SortKey) -> Seq<Option<Rank>> {
    Seq::new(
        rows.len(),
        |i: int|
            if key == SortKey::Title || key == SortKey::Artist {
                by_text(rows[i].name@)
            } else {
                None
            },
    )
}

/// What each playlist is sorted by.
pub open spec fn by_playlist(rows: Seq<RemotePlaylist>, key: SortKey) -> Seq<Option<Rank>> {
    Seq::new(
        rows.len(),
        |i: int|
            if key == SortKey::Title {
                by_text(rows[i].name@)
            } else {
                None
            },
    )
}

/// What each row of the space is sorted by.
pub open spec fn by_space_row(rows: Seq<SpaceRow>, key: SortKey) -> Seq<Option<Rank>> {
    Seq::new(
        rows.len(),
        |i: int|
            if key == SortKey::Title {
                by_text(rows[i].title@)
            } else if key == SortKey::Artist {
                by_text(rows[i].artist@)
            } else if key == SortKey::Album {
                by_text(rows[i].album@)
            } else {
                None
            },
    )
}

/// Every section of a sorted shelf is in order by what its rows have for the
/// key.
pub proof fn every_section_is_sorted(loaded: Shelf, sort: Sort, shelf: Shelf)
    requires
        loaded.sorts_to(sort, shelf),
    ensures
        is_sorted_by(sort, by_track(loaded.tracks@, sort.key), loaded.tracks@, shelf.tracks@),
        is_sorted_by(sort, by_album(loaded.albums@, sort.key), loaded.albums@, shelf.albums@),
        is_sorted_by(sort, by_artist(loaded.artists@, sort.key), loaded.artists@, shelf.artists@),
        is_sorted_by(
            sort,
            by_playlist(loaded.playlists@, sort.key),
            loaded.playlists@,
            shelf.playlists@,
        ),
        is_sorted_by(sort, by_artist(loaded.similar@, sort.key), loaded.similar@, shelf.similar@),
{
    broadcast use vstd::std_specs::vec::axiom_spec_len;

    let tracks = by_track(loaded.tracks@, sort.key);
    assert(tracks =~= Seq::new(
        loaded.tracks@.len(),
        |i: int| crate::ui::library::track_rank(loaded.tracks@[i], sort.key),
    ));
    assert(loaded.tracks.len() == loaded.tracks@.len());
    a_sorted_list_is_in_order(sort, tracks, loaded.tracks@, shelf.tracks@);
    let albums = by_album(loaded.albums@, sort.key);
    assert(albums =~= Seq::new(
        loaded.albums@.len(),
        |i: int| crate::ui::library::album_rank(loaded.albums@[i], sort.key),
    ));
    assert(loaded.albums.len() == loaded.albums@.len());
    a_sorted_list_is_in_order(sort, albums, loaded.albums@, shelf.albums@);
    let artists = by_artist(loaded.artists@, sort.key);
    assert(artists =~= Seq::new(
        loaded.artists@.len(),
        |i: int| crate::ui::library::artist_rank(loaded.artists@[i], sort.key),
    ));
    assert(loaded.artists.len() == loaded.artists@.len());
    a_sorted_list_is_in_order(sort, artists, loaded.artists@, shelf.artists@);
    let playlists = by_playlist(loaded.playlists@, sort.key);
    assert(playlists =~= Seq::new(
        loaded.playlists@.len(),
        |i: int| crate::ui::library::playlist_rank(loaded.playlists@[i], sort.key),
    ));
    assert(loaded.playlists.len() == loaded.playlists@.len());
    a_sorted_list_is_in_order(sort, playlists, loaded.playlists@, shelf.playlists@);
    let similar = by_artist(loaded.similar@, sort.key);
    assert(similar =~= Seq::new(
        loaded.similar@.len(),
        |i: int| crate::ui::library::artist_rank(loaded.similar@[i], sort.key),
    ));
    assert(loaded.similar.len() == loaded.similar@.len());
    a_sorted_list_is_in_order(sort, similar, loaded.similar@, shelf.similar@);
}

/// The rows of the space are in order by what they have for the key.
pub proof fn the_space_is_sorted(rows: Seq<SpaceRow>, sort: Sort, out: Seq<SpaceRow>)
    requires
        rows.len() <= usize::MAX,
        arranged(sort, Seq::new(rows.len(), |i: int| space_rank(rows[i], sort.key)), rows, out),
    ensures
        is_sorted_by(sort, by_space_row(rows, sort.key), rows, out),
{
    let values = by_space_row(rows, sort.key);
    assert(values =~= Seq::new(rows.len(), |i: int| space_rank(rows[i], sort.key)));
    a_sorted_list_is_in_order(sort, values, rows, out);
}

// ------------------------------------------------------------- what is left

/// `came` names, going up, the rows that are kept, and `out` holds those.
pub open spec fn leaves<T>(
    rows: Seq<T>,
    keep: spec_fn(T) -> bool,
    out: Seq<T>,
    came: Seq<int>,
) -> bool {
    &&& came.len() == out.len()
    &&& forall|i: int|
        0 <= i < came.len() ==> 0 <= #[trigger] came[i] < rows.len() && out[i] == rows[came[i]]
    &&& forall|i: int, j: int|
        0 <= i < j < came.len() ==> #[trigger] came[i] < #[trigger] came[j]
    &&& forall|r: int| 0 <= r < rows.len() ==> (keep(#[trigger] rows[r]) <==> came.contains(r))
}

/// `out` is the rows that are kept, in the order they had.
pub open spec fn is_left<T>(rows: Seq<T>, keep: spec_fn(T) -> bool, out: Seq<T>) -> bool {
    exists|came: Seq<int>| #[trigger] leaves(rows, keep, out, came)
}

pub(crate) proof fn lemma_left<T>(rows: Seq<T>, keep: spec_fn(T) -> bool)
    ensures
        is_left(rows, keep, rows.filter(keep)),
    decreases rows.len(),
{
    reveal(Seq::filter);
    if rows.len() == 0 {
        assert(leaves(rows, keep, rows.filter(keep), Seq::<int>::empty()));
    } else {
        let less = rows.drop_last();
        lemma_left(less, keep);
        let came = choose|came: Seq<int>| #[trigger] leaves(less, keep, less.filter(keep), came);
        let n = rows.len() - 1;
        let next = if keep(rows.last()) {
            came.push(n)
        } else {
            came
        };
        assert forall|r: int| 0 <= r < rows.len() implies (keep(#[trigger] rows[r])
            <==> next.contains(r)) by {
            if r < n {
                assert(less[r] == rows[r]);
                if came.contains(r) {
                    let i = choose|i: int| 0 <= i < came.len() && came[i] == r;
                    assert(next[i] == r);
                }
                if next.contains(r) {
                    let i = choose|i: int| 0 <= i < next.len() && next[i] == r;
                    assert(came[i] == r);
                }
            } else {
                if keep(rows[r]) {
                    assert(next[came.len() as int] == r);
                }
                if next.contains(r) && !keep(rows[r]) {
                    let i = choose|i: int| 0 <= i < next.len() && next[i] == r;
                    assert(came[i] < less.len());
                }
            }
        }
        assert forall|i: int| 0 <= i < next.len() implies 0 <= #[trigger] next[i] < rows.len()
            && rows.filter(keep)[i] == rows[next[i]] by {
            if i < came.len() {
                assert(0 <= came[i] < less.len());
            }
        }
        assert forall|i: int, j: int| 0 <= i < j < next.len() implies #[trigger] next[i]
            < #[trigger] next[j] by {
            if j < came.len() {
                assert(came[i] < came[j]);
            } else {
                assert(came[i] < less.len());
            }
        }
        assert(leaves(rows, keep, rows.filter(keep), next));
    }
}

/// One of the hidden artists has this id.
pub open spec fn is_hidden(blocked: Blocklist, id: i64) -> bool {
    exists|i: int| 0 <= i < blocked.artists@.len() && #[trigger] blocked.artists@[i].artist_id == id
}

/// A row of this artist may be shown: nobody is known to be behind it, or
/// somebody who is not hidden.
pub open spec fn may_show(blocked: Blocklist, artist: Option<i64>) -> bool {
    artist is None || !is_hidden(blocked, artist->0)
}

/// The shelf shows its rows in their order, without those of hidden artists
/// and nothing else missing.
pub proof fn only_the_hidden_is_missing(shelf: Shelf, blocked: Blocklist)
    ensures
        is_left(
            shelf.tracks@,
            |t: RemoteTrack| may_show(blocked, t.artist_id),
            shelf.shown_tracks(blocked),
        ),
        is_left(
            shelf.albums@,
            |a: RemoteAlbum| may_show(blocked, a.artist_id),
            shelf.shown_albums(blocked),
        ),
        is_left(
            shelf.artists@,
            |a: RemoteArtist| !is_hidden(blocked, a.id),
            shelf.shown_artists(blocked, false),
        ),
        is_left(
            shelf.similar@,
            |a: RemoteArtist| !is_hidden(blocked, a.id),
            shelf.shown_artists(blocked, true),
        ),
{
    assert forall|id: i64| #[trigger] blocked.has(id) == is_hidden(blocked, id) by {}
    let by_track = |t: RemoteTrack| may_show(blocked, t.artist_id);
    assert(by_track =~= (|t: RemoteTrack| !blocked.covers(t.artist_id)));
    lemma_left(shelf.tracks@, by_track);
    let by_album = |a: RemoteAlbum| may_show(blocked, a.artist_id);
    assert(by_album =~= (|a: RemoteAlbum| !blocked.covers(a.artist_id)));
    lemma_left(shelf.albums@, by_album);
    let by_artist = |a: RemoteArtist| !is_hidden(blocked, a.id);
    assert(by_artist =~= (|a: RemoteArtist| !blocked.has(a.id)));
    lemma_left(shelf.artists@, by_artist);
    lemma_left(shelf.similar@, by_artist);
}

/// The track stands under "in your space" already.
pub open spec fn stands_in_space(library: Library, space: Seq<SpaceRow>, id: i64) -> bool {
    &&& library.view matches crate::ui::library::View::Search { scope, .. } && (scope
        == crate::ui::library::Scope::Everything || scope == crate::ui::library::Scope::Tracks)
    &&& exists|i: int| 0 <= i < space.len() && #[trigger] space[i].track_id == id
}

/// Only what is liked is asked for, and this track is not.
pub open spec fn is_track_unliked(library: Library, id: i64) -> bool {
    library.liked_only && !(library.liked matches Some(liked) && liked.tracks@.contains(id))
}

pub open spec fn is_album_unliked(library: Library, id: Seq<char>) -> bool {
    library.liked_only && !(library.liked matches Some(liked) && liked.albums@.contains(id))
}

pub open spec fn is_artist_unliked(library: Library, id: i64) -> bool {
    library.liked_only && !(library.liked matches Some(liked) && liked.artists@.contains(id))
}

/// `listed` holds, in order, the visible rows that are kept, each with its
/// place among the visible.
pub open spec fn lists<T>(
    visible: Seq<T>,
    keep: spec_fn(T) -> bool,
    listed: Seq<(usize, T)>,
) -> bool {
    &&& forall|i: int|
        0 <= i < listed.len() ==> {
            &&& (#[trigger] listed[i]).0 < visible.len()
            &&& listed[i].1 == visible[listed[i].0 as int]
            &&& keep(listed[i].1)
        }
    &&& forall|i: int, j: int|
        0 <= i < j < listed.len() ==> (#[trigger] listed[i]).0 < (#[trigger] listed[j]).0
    &&& forall|r: int|
        0 <= r < visible.len() && keep(#[trigger] visible[r]) ==> listed.contains(
            (r as usize, visible[r]),
        )
}

proof fn lemma_lists<T>(
    visible: Seq<T>,
    keep: spec_fn(T) -> bool,
    keep_row: spec_fn((usize, T)) -> bool,
)
    requires
        visible.len() <= usize::MAX,
        forall|row: (usize, T)| #[trigger] keep_row(row) == keep(row.1),
    ensures
        lists(visible, keep, numbered(visible).filter(keep_row)),
{
    let all = numbered(visible);
    let listed = all.filter(keep_row);
    lemma_left(all, keep_row);
    let came = choose|came: Seq<int>| #[trigger] leaves(all, keep_row, listed, came);
    assert forall|i: int| 0 <= i < listed.len() implies {
        &&& (#[trigger] listed[i]).0 < visible.len()
        &&& listed[i].1 == visible[listed[i].0 as int]
        &&& keep(listed[i].1)
        &&& listed[i].0 == came[i]
    } by {
        let r = came[i];
        assert(listed[i] == all[r]);
        assert(came.contains(r));
        assert(keep_row(all[r]));
    }
    assert forall|i: int, j: int| 0 <= i < j < listed.len() implies (#[trigger] listed[i]).0
        < (#[trigger] listed[j]).0 by {
        assert(came[i] < came[j]);
    }
    assert forall|r: int| 0 <= r < visible.len() && keep(#[trigger] visible[r]) implies listed.contains(
        (r as usize, visible[r]),
    ) by {
        assert(all[r] == (r as usize, visible[r]));
        assert(keep_row(all[r]));
        assert(came.contains(r));
        let i = choose|i: int| 0 <= i < came.len() && came[i] == r;
        assert(listed[i] == all[r]);
    }
}

proof fn lemma_filter_twice<T>(rows: Seq<T>, one: spec_fn(T) -> bool, other: spec_fn(T) -> bool)
    ensures
        rows.filter(one).filter(other) == rows.filter(|x: T| one(x) && other(x)),
    decreases rows.len(),
{
    reveal(Seq::filter);
    if rows.len() > 0 {
        lemma_filter_twice(rows.drop_last(), one, other);
        if one(rows.last()) {
            assert(rows.filter(one).drop_last() =~= rows.drop_last().filter(one));
        }
    }
}

/// Of the visible tracks the list leaves out those that the space section
/// shows and, where only the liked is asked for, those that are not liked.
pub proof fn a_list_of_tracks_is_what_is_asked_for(
    library: Library,
    blocked: Blocklist,
    space: Seq<SpaceRow>,
)
    requires
        library.shelf.shown_tracks(blocked).len() <= usize::MAX,
    ensures
        lists(
            library.shelf.shown_tracks(blocked),
            |t: RemoteTrack|
                !stands_in_space(library, space, t.id) && !is_track_unliked(library, t.id),
            listed_tracks(library, blocked, space),
        ),
{
    let visible = library.shelf.shown_tracks(blocked);
    let one = outside(shown_in_space(library, space));
    let other = liked_track(library);
    lemma_filter_twice(numbered(visible), one, other);
    let keep = |t: RemoteTrack|
        !stands_in_space(library, space, t.id) && !is_track_unliked(library, t.id);
    let keep_row = |row: (usize, RemoteTrack)| one(row) && other(row);
    assert forall|row: (usize, RemoteTrack)| #[trigger] keep_row(row) == keep(row.1) by {
        assert(has_row(space, row.1.id) == exists|i: int|
            0 <= i < space.len() && #[trigger] space[i].track_id == row.1.id);
    }
    lemma_lists(visible, keep, keep_row);
}

/// Of the visible albums and artists the list leaves out, where only the liked
/// is asked for, those that are not liked. Similar artists are all listed.
pub proof fn a_list_of_albums_and_artists_is_what_is_asked_for(library: Library, blocked: Blocklist)
    requires
        library.shelf.shown_albums(blocked).len() <= usize::MAX,
        library.shelf.shown_artists(blocked, false).len() <= usize::MAX,
        library.shelf.shown_artists(blocked, true).len() <= usize::MAX,
    ensures
        lists(
            library.shelf.shown_albums(blocked),
            |a: RemoteAlbum| !is_album_unliked(library, a.id@),
            listed_albums(library, blocked),
        ),
        lists(
            library.shelf.shown_artists(blocked, false),
            |a: RemoteArtist| !is_artist_unliked(library, a.id),
            listed_artists(library, blocked, false),
        ),
        lists(
            library.shelf.shown_artists(blocked, true),
            |a: RemoteArtist| true,
            listed_artists(library, blocked, true),
        ),
{
    lemma_lists(
        library.shelf.shown_albums(blocked),
        |a: RemoteAlbum| !is_album_unliked(library, a.id@),
        liked_album(library),
    );
    lemma_lists(
        library.shelf.shown_artists(blocked, false),
        |a: RemoteArtist| !is_artist_unliked(library, a.id),
        liked_artist(library, false),
    );
    lemma_lists(
        library.shelf.shown_artists(blocked, true),
        |a: RemoteArtist| true,
        liked_artist(library, true),
    );
}

// -------------------------------------------------------------- going about

/// Going somewhere clears the list and asks for the new one; going back from
/// there is where one was, with the same views behind it.
pub proof fn going_back_returns(
    before: Library,
    target: crate::ui::library::View,
    there: Library,
    back: Library,
)
    requires
        !crate::ui::library::same_view(before.view, target),
        there.history@ == before.trail_to(target),
        (Library { history: there.history, ..before }).asked_for(target, there),
        back.history@ == there.history@.drop_last(),
        (Library { history: back.history, ..there }).asked_for(there.history@.last(), back),
    ensures
        there.view == target,
        there.pending == Some(target),
        there.loading && there.error is None && there.notice is None,
        there.shelf.tracks@.len() == 0 && there.shelf.albums@.len() == 0,
        there.shelf.artists@.len() == 0 && there.shelf.playlists@.len() == 0,
        there.shelf.similar@.len() == 0,
        there.sort == before.sort && there.liked == before.liked,
        there.liked_only == before.liked_only && there.space_only == before.space_only,
        there.epoch != before.epoch && back.epoch != there.epoch,
        back.view == before.view,
        back.pending == Some(before.view),
        back.history@ == before.history@,
{
    assert(before.history@.push(before.view).drop_last() =~= before.history@);
}

/// A page does not come behind itself: going to where one is leaves the views
/// behind as they were.
pub proof fn going_nowhere_leaves_no_trail(before: Library, target: crate::ui::library::View)
    requires
        before.view == target,
    ensures
        before.trail_to(target) == before.history@,
{
}

/// Two pages are the same only where they show the same thing.
pub proof fn pages_differ_by_what_they_show(
    a: crate::ui::library::View,
    b: crate::ui::library::View,
)
    ensures
        crate::ui::library::same_view(a, b) == crate::ui::library::same_view(b, a),
        crate::ui::library::same_view(a, a),
        crate::ui::library::same_view(a, b) ==> match a {
            crate::ui::library::View::Search { query, scope } => b matches
                crate::ui::library::View::Search { query: other, scope: at } && query@ == other@
                && scope == at,
            crate::ui::library::View::Playlist { id, name } => b matches
                crate::ui::library::View::Playlist { id: other, name: called } && id == other
                && name@ == called@,
            crate::ui::library::View::Album(album) => b matches crate::ui::library::View::Album(
                other,
            ) && album.id@ == other.id@,
            crate::ui::library::View::Artist(artist) => b matches crate::ui::library::View::Artist(
                other,
            ) && artist.id == other.id,
            crate::ui::library::View::FavouriteTracks => b is FavouriteTracks,
            crate::ui::library::View::FavouriteAlbums => b is FavouriteAlbums,
            crate::ui::library::View::FavouriteArtists => b is FavouriteArtists,
            crate::ui::library::View::Playlists => b is Playlists,
        },
{
}

/// A search keeps the kind of thing that was looked at, and the first one puts
/// the view it covers behind it.
pub proof fn a_search_covers_what_was_there(before: Library, query: String, after: Library)
    requires
        before.searched_to(query, after),
    ensures
        after.view matches crate::ui::library::View::Search { query: asked, scope } && asked == query
            && match before.view {
            crate::ui::library::View::Search { scope: was, .. } => scope == was && after.history@
                == before.history@,
            crate::ui::library::View::FavouriteTracks => scope == crate::ui::library::Scope::Tracks
                && after.history@ == before.history@.push(before.view),
            crate::ui::library::View::FavouriteAlbums => scope == crate::ui::library::Scope::Albums
                && after.history@ == before.history@.push(before.view),
            crate::ui::library::View::FavouriteArtists => scope
                == crate::ui::library::Scope::Artists && after.history@ == before.history@.push(
                before.view,
            ),
            _ => scope == crate::ui::library::Scope::Everything && after.history@
                == before.history@.push(before.view),
        },
        after.pending == Some(after.view),
        after.loading,
        after.epoch != before.epoch,
{
}

} // verus!
