//! What the catalogue, the queue and the lists reply when they are asked: of
//! each operation, what whatever it gives back has to be.

use crate::api::SyncFile;
use crate::backend::remote::{needs_download, urlencode};
use crate::db::{Catalog, Row};
use crate::paths::Step;
use crate::promises::catalog::{
    a_position_is_answered_by_its_id, a_row_is_read_as_it_is, an_unknown_track_says_only_that,
    stands_last, the_last_row_of_a_track_counts, what_is_not_blocked_shows,
};
use crate::promises::listening::{
    comes_first, is_new, of_every_music_the_first_step_stays, only_new_music_joins_a_queue,
    the_first_track_of_an_id_is_found,
};
use crate::promises::reading::only_other_artists_albums_are_left_out;
use crate::promises::server::{an_address_reads_back, decoded};
use crate::promises::shelves::{
    by_space_row, every_section_is_sorted, is_hidden, is_left, is_sorted_by, may_show,
    only_the_hidden_is_missing, the_space_is_sorted,
};
use crate::qobuz::{own_releases, RemoteAlbum, RemoteArtist, RemoteTrack};
use crate::space::index_rows;
use crate::ui::context::{Blocklist, SpaceRow};
use crate::ui::generate::{dedup_by_recording, find_track};
use crate::ui::library::Shelf;
use crate::ui::player::unduplicated;
use crate::ui::sorting::Sort;
use std::collections::HashMap;
use std::collections::HashSet;
use vstd::prelude::*;
use vstd::utf8::encode_utf8;

verus! {

/// `index_rows` files every id under the last row it stands in, and no other.
pub proof fn index_rows_files_each_id_under_its_last_row(
    ids: &[i64],
    index_of: HashMap<i64, usize>,
    id: i64,
)
    requires
        ids@.len() <= usize::MAX,
        call_ensures(index_rows, (ids,), index_of),
    ensures
        index_of@.contains_key(id) <==> exists|at: int| 0 <= at < ids@.len() && ids@[at] == id,
        index_of@.contains_key(id) ==> stands_last(ids@, id, index_of@[id] as int),
{
    the_last_row_of_a_track_counts(ids@, id);
}

/// `Catalog::load` puts at every position the last row with its id, where it is
/// the first position of that id, and a track without anything known otherwise.
pub proof fn load_puts_every_track_at_its_position(
    rows: &[Row],
    ids: &[i64],
    clap: (Option<Vec<u32>>, usize),
    blocked: HashSet<i64>,
    catalog: Catalog,
    i: int,
)
    requires
        rows@.len() <= usize::MAX,
        0 <= i < ids@.len(),
        call_ensures(Catalog::load, (rows, ids, clap, blocked), catalog),
    ensures
        catalog.tracks@.len() == ids@.len(),
        catalog.tracks@[i].track_id == ids@[i],
        catalog.clap == clap.0 && catalog.clap_dims == clap.1,
        catalog.blocked_artists == blocked,
        forall|r: int|
            {
                &&& 0 <= r < rows@.len()
                &&& (#[trigger] rows@[r]).id == ids@[i]
                &&& forall|later: int|
                    r < later < rows@.len() ==> (#[trigger] rows@[later]).id != ids@[i]
                &&& forall|sooner: int| 0 <= sooner < i ==> #[trigger] ids@[sooner] != ids@[i]
            } ==> catalog.tracks@[i].title@ == rows@[r].title@ && catalog.tracks@[i].bpm
                == rows@[r].bpm && catalog.tracks@[i].x == rows@[r].x && catalog.tracks@[i].y
                == rows@[r].y,
{
    a_position_is_answered_by_its_id(rows@, ids@, i);
    let track = catalog.tracks@[i];
    match crate::db::answering(rows@, ids@, i) {
        Some(r) => {
            assert(track.reads(rows@[r]));
            a_row_is_read_as_it_is(track, rows@[r]);
        },
        None => {
            assert(track.is_missing(ids@[i]));
            an_unknown_track_says_only_that(track, ids@[i]);
        },
    }
}

/// `Catalog::visible` lists the rows of artists who are not blocked, in order.
pub proof fn visible_lists_what_is_not_blocked(catalog: &Catalog, rows: Vec<usize>)
    requires
        catalog.tracks@.len() <= usize::MAX,
        call_ensures(Catalog::visible, (catalog,), rows),
    ensures
        forall|i: int, j: int|
            0 <= i < j < rows@.len() ==> #[trigger] rows@[i] < #[trigger] rows@[j],
        forall|row: usize| #[trigger]
            rows@.contains(row) <==> row < catalog.tracks@.len()
                && !catalog.blocked_artists@.contains(catalog.tracks@[row as int].artist_id),
{
    what_is_not_blocked_shows(*catalog, catalog.tracks@.len());
}

/// `unduplicated` keeps, in their order, the tracks whose music is neither held
/// already nor among those before them.
pub proof fn unduplicated_keeps_what_is_new(
    tracks: &Vec<RemoteTrack>,
    held: &Vec<RemoteTrack>,
    kept: Vec<RemoteTrack>,
) -> (came: Seq<int>)
    requires
        call_ensures(unduplicated, (tracks, held), kept),
    ensures
        came.len() == kept@.len(),
        forall|r: int|
            0 <= r < came.len() ==> 0 <= #[trigger] came[r] < tracks@.len() && kept@[r]
                == tracks@[came[r]],
        forall|r: int, q: int|
            0 <= r < q < came.len() ==> #[trigger] came[r] < #[trigger] came[q],
        forall|i: int|
            0 <= i < tracks@.len() ==> (#[trigger] came.contains(i) <==> is_new(
                tracks@,
                held@,
                i,
            )),
{
    only_new_music_joins_a_queue(tracks@, held@)
}

/// `dedup_by_recording` keeps the first step of every music, in order.
pub proof fn dedup_keeps_the_first_of_every_music(steps: Vec<Step>, kept: Vec<Step>) -> (came: Seq<
    int,
>)
    requires
        call_ensures(dedup_by_recording, (steps,), kept),
    ensures
        came.len() == kept@.len(),
        forall|r: int|
            0 <= r < came.len() ==> 0 <= #[trigger] came[r] < steps@.len() && kept@[r]
                == steps@[came[r]],
        forall|r: int, q: int|
            0 <= r < q < came.len() ==> #[trigger] came[r] < #[trigger] came[q],
        forall|i: int|
            0 <= i < steps@.len() ==> (#[trigger] came.contains(i) <==> comes_first(steps@, i)),
{
    of_every_music_the_first_step_stays(steps@)
}

/// `find_track` finds a track wherever there is one of that id.
pub proof fn find_track_finds_what_is_there(
    catalog: &Catalog,
    id: i64,
    found: Option<&crate::db::TrackMeta>,
)
    requires
        call_ensures(find_track, (catalog, id), found),
    ensures
        found is None <==> forall|i: int|
            0 <= i < catalog.tracks@.len() ==> (#[trigger] catalog.tracks@[i]).track_id != id,
        found matches Some(track) ==> track.track_id == id,
{
    the_first_track_of_an_id_is_found(catalog.tracks@, id);
}

/// `own_releases` leaves out what is said to be another artist's, and nothing
/// else.
pub proof fn own_releases_leaves_out_only_the_others(
    artist_id: i64,
    albums: Vec<RemoteAlbum>,
    own: Vec<RemoteAlbum>,
)
    requires
        call_ensures(own_releases, (artist_id, albums), own),
    ensures
        is_left(
            albums@,
            |album: RemoteAlbum| album.artist_id is None || album.artist_id->0 == artist_id,
            own@,
        ),
{
    only_other_artists_albums_are_left_out(artist_id, albums@);
}

/// The three `visible_` lists of a shelf leave out what is of a hidden artist,
/// and nothing else.
pub proof fn visible_rows_leave_out_only_the_hidden(
    shelf: &Shelf,
    blocked: &Blocklist,
    tracks: Vec<RemoteTrack>,
    albums: Vec<RemoteAlbum>,
    artists: Vec<RemoteArtist>,
    similar: Vec<RemoteArtist>,
)
    requires
        call_ensures(Shelf::visible_tracks, (shelf, blocked), tracks),
        call_ensures(Shelf::visible_albums, (shelf, blocked), albums),
        call_ensures(Shelf::visible_artists, (shelf, blocked, false), artists),
        call_ensures(Shelf::visible_artists, (shelf, blocked, true), similar),
    ensures
        is_left(shelf.tracks@, |t: RemoteTrack| may_show(*blocked, t.artist_id), tracks@),
        is_left(shelf.albums@, |a: RemoteAlbum| may_show(*blocked, a.artist_id), albums@),
        is_left(shelf.artists@, |a: RemoteArtist| !is_hidden(*blocked, a.id), artists@),
        is_left(shelf.similar@, |a: RemoteArtist| !is_hidden(*blocked, a.id), similar@),
{
    only_the_hidden_is_missing(*shelf, *blocked);
}

/// `Shelf::sorted` and `Sort::space_rows` put every section in order.
pub proof fn sorting_puts_every_section_in_order(
    shelf: Shelf,
    sort: Sort,
    sorted: Shelf,
    rows: Vec<SpaceRow>,
    out: Vec<SpaceRow>,
)
    requires
        rows@.len() <= usize::MAX,
        call_ensures(Shelf::sorted, (shelf, sort), sorted),
        call_ensures(Sort::space_rows, (sort, rows), out),
    ensures
        is_sorted_by(
            sort,
            crate::promises::shelves::by_track(shelf.tracks@, sort.key),
            shelf.tracks@,
            sorted.tracks@,
        ),
        is_sorted_by(
            sort,
            crate::promises::shelves::by_album(shelf.albums@, sort.key),
            shelf.albums@,
            sorted.albums@,
        ),
        is_sorted_by(
            sort,
            crate::promises::shelves::by_artist(shelf.artists@, sort.key),
            shelf.artists@,
            sorted.artists@,
        ),
        is_sorted_by(
            sort,
            crate::promises::shelves::by_playlist(shelf.playlists@, sort.key),
            shelf.playlists@,
            sorted.playlists@,
        ),
        is_sorted_by(sort, by_space_row(rows@, sort.key), rows@, out@),
{
    every_section_is_sorted(shelf, sort, sorted);
    the_space_is_sorted(rows@, sort, out@);
}

/// `urlencode` writes a text so that it reads back as its bytes.
pub proof fn urlencode_reads_back(text: &str, out: String)
    requires
        call_ensures(urlencode, (text,), out),
    ensures
        decoded(out@) == encode_utf8(text@),
{
    an_address_reads_back(text@);
}

/// `needs_download` says yes where there is no copy, or one with another digest.
pub proof fn needs_download_where_it_differs(contents: Option<&[u8]>, file: &SyncFile, yes: bool)
    requires
        call_ensures(needs_download, (contents, file), yes),
    ensures
        contents is None ==> yes,
        contents matches Some(bytes) ==> (yes <==> crate::api::hex_of(crate::api::md5_of(bytes@))
            != file.digest@),
{
}

} // verus!
