//! What searching the space has to live up to.

use crate::db::{Catalog, TrackMeta};
use crate::qobuz::{RemoteAlbum, RemoteArtist, RemoteTrack};
use crate::strings::{begins_with, lower_of, occurs_in, trim_of, words_of};
use crate::ui::context::SpaceRow;
use crate::ui::finding::{
    album_behind, album_firsts, album_leads, album_rows, artist_behind, artist_firsts, artist_leads,
    artist_rows, found, has_album, has_artist, hits, keeps_track, leads_track, led, lists, matching,
    plan_for, terms_of, Haystack, Plan,
};
use super::catalog::what_is_not_blocked_shows;
use vstd::prelude::*;

verus! {

/// Each is greater than the one before.
pub open spec fn ascends(rows: Seq<usize>) -> bool {
    forall|i: int, j: int| 0 <= i < j < rows.len() ==> #[trigger] rows[i] < #[trigger] rows[j]
}

proof fn lemma_filter_ascends(rows: Seq<usize>, keep: spec_fn(usize) -> bool)
    requires
        ascends(rows),
    ensures
        ascends(rows.filter(keep)),
        forall|r: usize| #[trigger]
            rows.filter(keep).contains(r) <==> rows.contains(r) && keep(r),
    decreases rows.len(),
{
    reveal(Seq::filter);
    let out = rows.filter(keep);
    if rows.len() > 0 {
        let fewer = rows.drop_last();
        let sooner = fewer.filter(keep);
        assert(ascends(fewer)) by {
            assert forall|i: int, j: int| 0 <= i < j < fewer.len() implies #[trigger] fewer[i]
                < #[trigger] fewer[j] by {
                assert(fewer[i] == rows[i] && fewer[j] == rows[j]);
            }
        }
        lemma_filter_ascends(fewer, keep);
        assert forall|r: usize| #[trigger] fewer.contains(r) implies r < rows.last() by {
            let k = choose|k: int| 0 <= k < fewer.len() && fewer[k] == r;
            assert(rows[k] == r);
            assert(rows[k] < rows[rows.len() - 1]);
        }
        assert forall|i: int, j: int| 0 <= i < j < out.len() implies #[trigger] out[i]
            < #[trigger] out[j] by {
            assert(out[i] == sooner[i]);
            if j < sooner.len() {
                assert(out[j] == sooner[j]);
            } else {
                assert(sooner.contains(sooner[i]));
                assert(fewer.contains(sooner[i]));
            }
        }
        assert forall|r: usize| #[trigger] out.contains(r) <==> rows.contains(r) && keep(r) by {
            if out.contains(r) {
                let k = choose|k: int| 0 <= k < out.len() && out[k] == r;
                if k < sooner.len() {
                    assert(sooner[k] == r);
                    assert(sooner.contains(r));
                    let q = choose|q: int| 0 <= q < fewer.len() && fewer[q] == r;
                    assert(rows[q] == r);
                } else {
                    assert(rows[rows.len() - 1] == r);
                }
            }
            if rows.contains(r) && keep(r) {
                let q = choose|q: int| 0 <= q < rows.len() && rows[q] == r;
                if q < fewer.len() {
                    assert(fewer[q] == r);
                    assert(fewer.contains(r));
                    assert(sooner.contains(r));
                    let k = choose|k: int| 0 <= k < sooner.len() && sooner[k] == r;
                    assert(out[k] == r);
                } else {
                    assert(out[out.len() - 1] == r);
                }
            }
        }
    } else {
        assert(out.len() == 0);
    }
}

/// The rows that lead come first, and within either part they ascend.
pub open spec fn leads_first(rows: Seq<usize>, leads: spec_fn(usize) -> bool) -> bool {
    forall|p: int, q: int|
        0 <= p < q < rows.len() ==> (if leads(#[trigger] rows[p]) == leads(#[trigger] rows[q]) {
            rows[p] < rows[q]
        } else {
            leads(rows[p])
        })
}

proof fn lemma_led(rows: Seq<usize>, leads: spec_fn(usize) -> bool)
    requires
        ascends(rows),
    ensures
        leads_first(led(rows, leads), leads),
        forall|r: usize| #[trigger] led(rows, leads).contains(r) <==> rows.contains(r),
{
    let trails = |r: usize| !leads(r);
    let front = rows.filter(leads);
    let rest = rows.filter(trails);
    let out = led(rows, leads);
    assert(out == front + rest);
    lemma_filter_ascends(rows, leads);
    lemma_filter_ascends(rows, trails);
    let n = front.len() as int;
    assert forall|p: int| 0 <= p < out.len() implies leads(#[trigger] out[p]) == (p < n) by {
        if p < n {
            assert(front.contains(front[p]));
        } else {
            assert(rest.contains(rest[p - n]));
            assert(trails(rest[p - n]));
        }
    }
    assert forall|p: int, q: int| 0 <= p < q < out.len() implies (if leads(#[trigger] out[p])
        == leads(#[trigger] out[q]) {
        out[p] < out[q]
    } else {
        leads(out[p])
    }) by {
        assert(leads(out[p]) == (p < n) && leads(out[q]) == (q < n));
        if q < n {
            assert(front[p] < front[q]);
        } else if p >= n {
            assert(rest[p - n] < rest[q - n]);
        }
    }
    assert forall|r: usize| #[trigger] out.contains(r) <==> rows.contains(r) by {
        if out.contains(r) {
            let k = choose|k: int| 0 <= k < out.len() && out[k] == r;
            if k < n {
                assert(front[k] == r);
                assert(front.contains(r));
            } else {
                assert(rest[k - n] == r);
                assert(rest.contains(r));
            }
        }
        if rows.contains(r) {
            if leads(r) {
                assert(front.contains(r));
                let k = choose|k: int| 0 <= k < front.len() && front[k] == r;
                assert(out[k] == r);
            } else {
                assert(trails(r));
                assert(rest.contains(r));
                let k = choose|k: int| 0 <= k < rest.len() && rest[k] == r;
                assert(out[n + k] == r);
            }
        }
    }
}

// -------------------------------------------------------------------- tracks

/// Every word of the query stands in the artist, the title or the album.
pub open spec fn is_meant(artist: Seq<char>, title: Seq<char>, album: Seq<char>, query: Seq<char>) -> bool {
    forall|w: int|
        0 <= w < words_of(lower_of(query)).len() ==> {
            let word = #[trigger] words_of(lower_of(query))[w];
            occurs_in(artist, word) || occurs_in(title, word) || occurs_in(album, word)
        }
}

/// The row's artist or title starts with the first word of the query.
pub open spec fn starts_so(hays: Seq<Haystack>, query: Seq<char>) -> spec_fn(usize) -> bool {
    |r: usize|
        begins_with(hays[r as int].artist@, words_of(lower_of(query))[0]) || begins_with(
            hays[r as int].title@,
            words_of(lower_of(query))[0],
        )
}

/// A search of the space lists every track in view that holds all the words of
/// the query, and no other, each once: those whose artist or title starts with
/// the first word before the rest, and else in the order of the catalogue. A
/// query of no words lists everything in view.
pub proof fn a_search_lists_what_is_meant(catalog: Catalog, hays: Seq<Haystack>, query: Seq<char>)
    requires
        catalog.tracks@.len() <= usize::MAX,
    ensures
        words_of(lower_of(query)).len() == 0 ==> ascends(found(catalog, hays, query)) && forall|
            r: usize,
        | #[trigger]
            found(catalog, hays, query).contains(r) <==> r < catalog.tracks@.len()
                && !catalog.blocked_artists@.contains(catalog.tracks@[r as int].artist_id),
        words_of(lower_of(query)).len() > 0 ==> leads_first(
            found(catalog, hays, query),
            starts_so(hays, query),
        ) && forall|r: usize| #[trigger]
            found(catalog, hays, query).contains(r) <==> r < catalog.tracks@.len()
                && !catalog.blocked_artists@.contains(catalog.tracks@[r as int].artist_id) && r
                < hays.len() && is_meant(
                hays[r as int].artist@,
                hays[r as int].title@,
                hays[r as int].album@,
                query,
            ),
{
    let all = catalog.visible_rows(catalog.tracks@.len());
    what_is_not_blocked_shows(catalog, catalog.tracks@.len());
    let terms = words_of(lower_of(query));
    assert(terms == terms_of(query));
    if terms.len() > 0 {
        let keep = |r: usize| r < hays.len() && hays[r as int].holds_all(terms);
        let rows = hits(catalog, hays, terms);
        assert(rows == all.filter(keep));
        lemma_filter_ascends(all, keep);
        let leads = leads_track(hays, terms[0]);
        lemma_led(rows, leads);
        let out = found(catalog, hays, query);
        let says = starts_so(hays, query);
        assert forall|r: usize| #[trigger] says(r) == leads(r) by {}
        assert(leads_first(out, says)) by {
            assert forall|p: int, q: int| 0 <= p < q < out.len() implies (if says(
                #[trigger] out[p],
            ) == says(#[trigger] out[q]) {
                out[p] < out[q]
            } else {
                says(out[p])
            }) by {
                assert(leads(out[p]) == says(out[p]) && leads(out[q]) == says(out[q]));
            }
        }
        assert forall|r: usize| #[trigger] out.contains(r) <==> r < catalog.tracks@.len()
            && !catalog.blocked_artists@.contains(catalog.tracks@[r as int].artist_id) && r
            < hays.len() && is_meant(
            hays[r as int].artist@,
            hays[r as int].title@,
            hays[r as int].album@,
            query,
        ) by {
            assert(out.contains(r) <==> rows.contains(r));
            assert(rows.contains(r) <==> all.contains(r) && keep(r));
        }
    }
}

/// What is searched is the text of the track, in lower case.
pub proof fn a_haystack_is_the_text_in_lower_case(
    hay: Haystack,
    artist: Seq<char>,
    title: Seq<char>,
    album: Seq<char>,
)
    requires
        hay.reads(artist, title, album),
    ensures
        hay.artist@ == lower_of(artist),
        hay.title@ == lower_of(title),
        hay.album@ == lower_of(album),
{
}

/// A tracks search of the catalogue drops only what the name of an artist or an
/// album brought in: what holds all the words, but not in its title.
pub proof fn only_what_a_name_brought_in_is_dropped(query: Seq<char>, track: RemoteTrack)
    ensures
        !keeps_track(terms_of(query), track) <==> is_meant(
            lower_of(track.artist@),
            lower_of(track.title@),
            lower_of(track.album@),
            query,
        ) && exists|w: int|
            0 <= w < words_of(lower_of(query)).len() && !occurs_in(
                lower_of(track.title@),
                #[trigger] words_of(lower_of(query))[w],
            ),
{
}

/// A row of the list is the track it stands for.
pub proof fn a_row_lists_its_track(row: SpaceRow, track: TrackMeta)
    requires
        lists(row, track),
    ensures
        row.track_id == track.track_id,
        row.artist == track.artist && row.title == track.title && row.album == track.album,
        row.album_id == track.album_id,
        track.artist_id >= 0 ==> row.artist_id == Some(track.artist_id),
        track.artist_id < 0 ==> row.artist_id is None,
{
}

// -------------------------------------------------------------------- groups

/// A track in view that holds every word of the query.
pub open spec fn is_hit(catalog: Catalog, query: Seq<char>, r: int) -> bool {
    &&& 0 <= r < catalog.tracks@.len()
    &&& !catalog.blocked_artists@.contains(catalog.tracks@[r].artist_id)
    &&& is_meant(
        lower_of(catalog.tracks@[r].artist@),
        lower_of(catalog.tracks@[r].title@),
        lower_of(catalog.tracks@[r].album@),
        query,
    )
}

proof fn lemma_matching(catalog: Catalog, query: Seq<char>)
    requires
        catalog.tracks@.len() <= usize::MAX,
    ensures
        ascends(matching(catalog, terms_of(query))),
        forall|r: usize| #[trigger]
            matching(catalog, terms_of(query)).contains(r) <==> is_hit(catalog, query, r as int),
{
    let all = catalog.visible_rows(catalog.tracks@.len());
    let terms = terms_of(query);
    what_is_not_blocked_shows(catalog, catalog.tracks@.len());
    let keep = |r: usize|
        crate::ui::finding::all_held(
            lower_of(catalog.tracks@[r as int].artist@),
            lower_of(catalog.tracks@[r as int].title@),
            lower_of(catalog.tracks@[r as int].album@),
            terms,
        );
    assert(matching(catalog, terms) == all.filter(keep));
    lemma_filter_ascends(all, keep);
    assert forall|r: usize| #[trigger] matching(catalog, terms).contains(r) <==> is_hit(
        catalog,
        query,
        r as int,
    ) by {
        assert(all.filter(keep).contains(r) <==> all.contains(r) && keep(r));
    }
}

/// The row is on an album, and no row before it is on the same.
pub open spec fn opens_album(tracks: Seq<TrackMeta>, rows: Seq<usize>, r: usize) -> bool {
    &&& rows.contains(r)
    &&& tracks[r as int].album_id@.len() > 0
    &&& forall|o: usize| #[trigger]
        rows.contains(o) && o < r ==> tracks[o as int].album_id@ != tracks[r as int].album_id@
}

/// The row is by an artist, and no row before it is by the same.
pub open spec fn opens_artist(tracks: Seq<TrackMeta>, rows: Seq<usize>, r: usize) -> bool {
    &&& rows.contains(r)
    &&& tracks[r as int].artist_id >= 0
    &&& forall|o: usize| #[trigger]
        rows.contains(o) && o < r ==> tracks[o as int].artist_id != tracks[r as int].artist_id
}

proof fn lemma_album_firsts(tracks: Seq<TrackMeta>, rows: Seq<usize>)
    requires
        ascends(rows),
    ensures
        ascends(album_firsts(tracks, rows)),
        forall|r: usize| #[trigger]
            album_firsts(tracks, rows).contains(r) <==> opens_album(tracks, rows, r),
    decreases rows.len(),
{
    let out = album_firsts(tracks, rows);
    if rows.len() > 0 {
        let rest = rows.drop_last();
        let last = rows.last();
        let sooner = album_firsts(tracks, rest);
        lemma_drop_ascends(rows);
        lemma_album_firsts(tracks, rest);
        let id = tracks[last as int].album_id@;
        let opens = !(id.len() == 0 || has_album(tracks, rest, id));
        assert(opens == opens_album(tracks, rows, last)) by {
            if has_album(tracks, rest, id) {
                let k = choose|k: int|
                    0 <= k < rest.len() && tracks[(#[trigger] rest[k]) as int].album_id@ == id;
                assert(rest.contains(rest[k]));
                assert(rows.contains(rest[k]));
            }
            if opens {
                assert forall|o: usize| #[trigger] rows.contains(o) && o < last implies tracks[o as int].album_id@
                    != id by {
                    assert(rest.contains(o));
                    let k = choose|k: int| 0 <= k < rest.len() && rest[k] == o;
                    assert(tracks[rest[k] as int].album_id@ != id);
                }
            }
        }
        assert forall|r: usize| r != last implies (opens_album(tracks, rows, r) <==> #[trigger] opens_album(
            tracks,
            rest,
            r,
        )) by {
            assert(rows.contains(r) <==> rest.contains(r));
            if opens_album(tracks, rest, r) {
                assert forall|o: usize| #[trigger] rows.contains(o) && o < r implies tracks[o as int].album_id@
                    != tracks[r as int].album_id@ by {
                    assert(rest.contains(r) && r < last);
                    assert(rest.contains(o));
                }
            }
            if opens_album(tracks, rows, r) {
                assert forall|o: usize| #[trigger] rest.contains(o) && o < r implies tracks[o as int].album_id@
                    != tracks[r as int].album_id@ by {
                    assert(rows.contains(o));
                }
            }
        }
        assert forall|r: usize| #[trigger] out.contains(r) <==> opens_album(tracks, rows, r) by {
            if out.contains(r) {
                let k = choose|k: int| 0 <= k < out.len() && out[k] == r;
                if k < sooner.len() {
                    assert(sooner[k] == r);
                    assert(sooner.contains(r));
                    assert(rest.contains(r));
                    assert(opens_album(tracks, rest, r));
                }
            }
            if opens_album(tracks, rows, r) {
                if r == last {
                    assert(out[out.len() - 1] == r);
                } else {
                    assert(opens_album(tracks, rest, r));
                    assert(sooner.contains(r));
                    let k = choose|k: int| 0 <= k < sooner.len() && sooner[k] == r;
                    assert(out[k] == r);
                }
            }
        }
        assert forall|i: int, j: int| 0 <= i < j < out.len() implies #[trigger] out[i]
            < #[trigger] out[j] by {
            assert(out[i] == sooner[i]);
            if j < sooner.len() {
                assert(out[j] == sooner[j]);
            } else {
                assert(sooner.contains(sooner[i]));
                assert(rest.contains(sooner[i]));
            }
        }
    } else {
        assert(out.len() == 0);
    }
}

/// Without its last entry an ascending list ascends, and everything in it is less
/// than that entry.
proof fn lemma_drop_ascends(rows: Seq<usize>)
    requires
        ascends(rows),
        rows.len() > 0,
    ensures
        ascends(rows.drop_last()),
        forall|r: usize| #[trigger] rows.drop_last().contains(r) ==> r < rows.last(),
        forall|r: usize|
            #![trigger rows.contains(r)]
            #![trigger rows.drop_last().contains(r)]
            rows.contains(r) <==> rows.drop_last().contains(r) || r == rows.last(),
{
    let rest = rows.drop_last();
    let last = rows.last();
    assert forall|i: int, j: int| 0 <= i < j < rest.len() implies #[trigger] rest[i]
        < #[trigger] rest[j] by {
        assert(rest[i] == rows[i] && rest[j] == rows[j]);
    }
    assert forall|r: usize| #[trigger] rest.contains(r) implies r < last by {
        let k = choose|k: int| 0 <= k < rest.len() && rest[k] == r;
        assert(rows[k] == r);
        assert(rows[k] < rows[rows.len() - 1]);
    }
    assert forall|r: usize| rows.contains(r) <==> rest.contains(r) || r == last by {
        if rows.contains(r) {
            let k = choose|k: int| 0 <= k < rows.len() && rows[k] == r;
            if k < rest.len() {
                assert(rest[k] == r);
            }
        }
        if rest.contains(r) {
            let k = choose|k: int| 0 <= k < rest.len() && rest[k] == r;
            assert(rows[k] == r);
        }
        if r == last {
            assert(rows[rows.len() - 1] == r);
        }
    }
}

proof fn lemma_artist_firsts(tracks: Seq<TrackMeta>, rows: Seq<usize>)
    requires
        ascends(rows),
    ensures
        ascends(artist_firsts(tracks, rows)),
        forall|r: usize| #[trigger]
            artist_firsts(tracks, rows).contains(r) <==> opens_artist(tracks, rows, r),
    decreases rows.len(),
{
    let out = artist_firsts(tracks, rows);
    if rows.len() > 0 {
        let rest = rows.drop_last();
        let last = rows.last();
        let sooner = artist_firsts(tracks, rest);
        lemma_drop_ascends(rows);
        lemma_artist_firsts(tracks, rest);
        let id = tracks[last as int].artist_id;
        let opens = !(id < 0 || has_artist(tracks, rest, id));
        assert(opens == opens_artist(tracks, rows, last)) by {
            if has_artist(tracks, rest, id) {
                let k = choose|k: int|
                    0 <= k < rest.len() && tracks[(#[trigger] rest[k]) as int].artist_id == id;
                assert(rest.contains(rest[k]));
                assert(rows.contains(rest[k]));
            }
            if opens {
                assert forall|o: usize| #[trigger] rows.contains(o) && o < last implies tracks[o as int].artist_id
                    != id by {
                    assert(rest.contains(o));
                    let k = choose|k: int| 0 <= k < rest.len() && rest[k] == o;
                    assert(tracks[rest[k] as int].artist_id != id);
                }
            }
        }
        assert forall|r: usize| r != last implies (opens_artist(tracks, rows, r) <==> #[trigger] opens_artist(
            tracks,
            rest,
            r,
        )) by {
            assert(rows.contains(r) <==> rest.contains(r));
            if opens_artist(tracks, rest, r) {
                assert forall|o: usize| #[trigger] rows.contains(o) && o < r implies tracks[o as int].artist_id
                    != tracks[r as int].artist_id by {
                    assert(rest.contains(r) && r < last);
                    assert(rest.contains(o));
                }
            }
            if opens_artist(tracks, rows, r) {
                assert forall|o: usize| #[trigger] rest.contains(o) && o < r implies tracks[o as int].artist_id
                    != tracks[r as int].artist_id by {
                    assert(rows.contains(o));
                }
            }
        }
        assert forall|r: usize| #[trigger] out.contains(r) <==> opens_artist(tracks, rows, r) by {
            if out.contains(r) {
                let k = choose|k: int| 0 <= k < out.len() && out[k] == r;
                if k < sooner.len() {
                    assert(sooner[k] == r);
                    assert(sooner.contains(r));
                    assert(rest.contains(r));
                    assert(opens_artist(tracks, rest, r));
                }
            }
            if opens_artist(tracks, rows, r) {
                if r == last {
                    assert(out[out.len() - 1] == r);
                } else {
                    assert(opens_artist(tracks, rest, r));
                    assert(sooner.contains(r));
                    let k = choose|k: int| 0 <= k < sooner.len() && sooner[k] == r;
                    assert(out[k] == r);
                }
            }
        }
        assert forall|i: int, j: int| 0 <= i < j < out.len() implies #[trigger] out[i]
            < #[trigger] out[j] by {
            assert(out[i] == sooner[i]);
            if j < sooner.len() {
                assert(out[j] == sooner[j]);
            } else {
                assert(sooner.contains(sooner[i]));
                assert(rest.contains(sooner[i]));
            }
        }
    } else {
        assert(out.len() == 0);
    }
}

/// A hit stands for its album: it is on one, and no hit before it is on the same.
pub open spec fn stands_for_album(catalog: Catalog, query: Seq<char>, r: int) -> bool {
    &&& is_hit(catalog, query, r)
    &&& catalog.tracks@[r].album_id@.len() > 0
    &&& forall|o: int| #[trigger]
        is_hit(catalog, query, o) && o < r ==> catalog.tracks@[o].album_id@
            != catalog.tracks@[r].album_id@
}

/// A hit stands for its artist: it is by one, and no hit before it is by the same.
pub open spec fn stands_for_artist(catalog: Catalog, query: Seq<char>, r: int) -> bool {
    &&& is_hit(catalog, query, r)
    &&& catalog.tracks@[r].artist_id >= 0
    &&& forall|o: int| #[trigger]
        is_hit(catalog, query, o) && o < r ==> catalog.tracks@[o].artist_id
            != catalog.tracks@[r].artist_id
}

/// Some hit on the same album has an artist or an album that starts with the first
/// word of the query.
pub open spec fn album_starts_so(catalog: Catalog, query: Seq<char>) -> spec_fn(usize) -> bool {
    |r: usize|
        exists|o: int|
            {
                let track = catalog.tracks@[o];
                let word = words_of(lower_of(query))[0];
                &&& #[trigger] is_hit(catalog, query, o)
                &&& track.album_id@ == catalog.tracks@[r as int].album_id@
                &&& begins_with(lower_of(track.artist@), word) || begins_with(
                    lower_of(track.album@),
                    word,
                )
            }
}

/// Some hit by the same artist names them starting with the first word of the
/// query.
pub open spec fn artist_starts_so(catalog: Catalog, query: Seq<char>) -> spec_fn(usize) -> bool {
    |r: usize|
        exists|o: int|
            {
                let track = catalog.tracks@[o];
                &&& #[trigger] is_hit(catalog, query, o)
                &&& track.artist_id == catalog.tracks@[r as int].artist_id
                &&& begins_with(lower_of(track.artist@), words_of(lower_of(query))[0])
            }
}

/// A search of the space lists every album that a hit is on, once, those that
/// start with the first word of the query before the rest; none for a query of no
/// words.
pub proof fn a_search_lists_every_album_of_a_hit(catalog: Catalog, query: Seq<char>)
    requires
        catalog.tracks@.len() <= usize::MAX,
    ensures
        words_of(lower_of(query)).len() == 0 ==> album_rows(catalog, query).len() == 0,
        words_of(lower_of(query)).len() > 0 ==> leads_first(
            album_rows(catalog, query),
            album_starts_so(catalog, query),
        ) && forall|r: usize| #[trigger]
            album_rows(catalog, query).contains(r) <==> stands_for_album(catalog, query, r as int),
{
    let terms = terms_of(query);
    let tracks = catalog.tracks@;
    if terms.len() > 0 {
        let rows = matching(catalog, terms);
        lemma_matching(catalog, query);
        lemma_album_firsts(tracks, rows);
        let leads = |r: usize| album_leads(tracks, rows, terms[0], tracks[r as int].album_id@);
        let says = album_starts_so(catalog, query);
        let firsts = album_firsts(tracks, rows);
        let out = album_rows(catalog, query);
        assert(out == led(firsts, leads));
        lemma_led(firsts, leads);
        assert forall|r: usize| leads(r) == #[trigger] says(r) by {
            let id = tracks[r as int].album_id@;
            if leads(r) {
                let k = choose|k: int|
                    0 <= k < rows.len() && tracks[(#[trigger] rows[k]) as int].album_id@ == id
                        && crate::ui::finding::names_album(tracks[rows[k] as int], terms[0]);
                assert(rows.contains(rows[k]));
                assert(is_hit(catalog, query, rows[k] as int));
            }
            if says(r) {
                let o = choose|o: int|
                    {
                        let track = catalog.tracks@[o];
                        let word = words_of(lower_of(query))[0];
                        &&& #[trigger] is_hit(catalog, query, o)
                        &&& track.album_id@ == catalog.tracks@[r as int].album_id@
                        &&& begins_with(lower_of(track.artist@), word) || begins_with(
                            lower_of(track.album@),
                            word,
                        )
                    };
                assert(rows.contains(o as usize));
                let k = choose|k: int| 0 <= k < rows.len() && rows[k] == o as usize;
                assert(tracks[rows[k] as int].album_id@ == id);
            }
        }
        assert forall|p: int, q: int| 0 <= p < q < out.len() implies (if says(#[trigger] out[p])
            == says(#[trigger] out[q]) {
            out[p] < out[q]
        } else {
            says(out[p])
        }) by {
            assert(leads(out[p]) == says(out[p]) && leads(out[q]) == says(out[q]));
        }
        assert forall|r: usize| #[trigger] out.contains(r) <==> stands_for_album(
            catalog,
            query,
            r as int,
        ) by {
            assert(out.contains(r) <==> firsts.contains(r));
            assert(firsts.contains(r) <==> opens_album(tracks, rows, r));
            assert(rows.contains(r) <==> is_hit(catalog, query, r as int));
            if opens_album(tracks, rows, r) {
                assert forall|o: int| #[trigger] is_hit(catalog, query, o) && o < r implies tracks[o].album_id@
                    != tracks[r as int].album_id@ by {
                    assert(rows.contains(o as usize));
                }
            }
            if stands_for_album(catalog, query, r as int) {
                assert forall|o: usize| #[trigger] rows.contains(o) && o < r implies tracks[o as int].album_id@
                    != tracks[r as int].album_id@ by {
                    assert(is_hit(catalog, query, o as int));
                }
            }
        }
    }
}

/// A search of the space lists every artist that a hit is by, once, those whose
/// name starts with the first word of the query before the rest; none for a query
/// of no words.
pub proof fn a_search_lists_every_artist_of_a_hit(catalog: Catalog, query: Seq<char>)
    requires
        catalog.tracks@.len() <= usize::MAX,
    ensures
        words_of(lower_of(query)).len() == 0 ==> artist_rows(catalog, query).len() == 0,
        words_of(lower_of(query)).len() > 0 ==> leads_first(
            artist_rows(catalog, query),
            artist_starts_so(catalog, query),
        ) && forall|r: usize| #[trigger]
            artist_rows(catalog, query).contains(r) <==> stands_for_artist(catalog, query, r as int),
{
    let terms = terms_of(query);
    let tracks = catalog.tracks@;
    if terms.len() > 0 {
        let rows = matching(catalog, terms);
        lemma_matching(catalog, query);
        lemma_artist_firsts(tracks, rows);
        let leads = |r: usize| artist_leads(tracks, rows, terms[0], tracks[r as int].artist_id);
        let says = artist_starts_so(catalog, query);
        let firsts = artist_firsts(tracks, rows);
        let out = artist_rows(catalog, query);
        assert(out == led(firsts, leads));
        lemma_led(firsts, leads);
        assert forall|r: usize| leads(r) == #[trigger] says(r) by {
            let id = tracks[r as int].artist_id;
            if leads(r) {
                let k = choose|k: int|
                    0 <= k < rows.len() && tracks[(#[trigger] rows[k]) as int].artist_id == id
                        && begins_with(lower_of(tracks[rows[k] as int].artist@), terms[0]);
                assert(rows.contains(rows[k]));
                assert(is_hit(catalog, query, rows[k] as int));
            }
            if says(r) {
                let o = choose|o: int|
                    {
                        let track = catalog.tracks@[o];
                        &&& #[trigger] is_hit(catalog, query, o)
                        &&& track.artist_id == catalog.tracks@[r as int].artist_id
                        &&& begins_with(lower_of(track.artist@), words_of(lower_of(query))[0])
                    };
                assert(rows.contains(o as usize));
                let k = choose|k: int| 0 <= k < rows.len() && rows[k] == o as usize;
                assert(tracks[rows[k] as int].artist_id == id);
            }
        }
        assert forall|p: int, q: int| 0 <= p < q < out.len() implies (if says(#[trigger] out[p])
            == says(#[trigger] out[q]) {
            out[p] < out[q]
        } else {
            says(out[p])
        }) by {
            assert(leads(out[p]) == says(out[p]) && leads(out[q]) == says(out[q]));
        }
        assert forall|r: usize| #[trigger] out.contains(r) <==> stands_for_artist(
            catalog,
            query,
            r as int,
        ) by {
            assert(out.contains(r) <==> firsts.contains(r));
            assert(firsts.contains(r) <==> opens_artist(tracks, rows, r));
            assert(rows.contains(r) <==> is_hit(catalog, query, r as int));
            if opens_artist(tracks, rows, r) {
                assert forall|o: int| #[trigger] is_hit(catalog, query, o) && o < r implies tracks[o].artist_id
                    != tracks[r as int].artist_id by {
                    assert(rows.contains(o as usize));
                }
            }
            if stands_for_artist(catalog, query, r as int) {
                assert forall|o: usize| #[trigger] rows.contains(o) && o < r implies tracks[o as int].artist_id
                    != tracks[r as int].artist_id by {
                    assert(is_hit(catalog, query, o as int));
                }
            }
        }
    }
}

/// An album and an artist of the space are those of the track that stands for
/// them.
pub proof fn a_group_is_that_of_its_track(album: RemoteAlbum, artist: RemoteArtist, track: TrackMeta)
    ensures
        album_behind(album, track) ==> album.id == track.album_id && album.title == track.album
            && album.artist == track.artist && (track.artist_id >= 0 ==> album.artist_id == Some(
            track.artist_id,
        )) && (track.artist_id < 0 ==> album.artist_id is None),
        artist_behind(artist, track) ==> artist.id == track.artist_id && artist.name == track.artist,
{
}

/// Only a search that says something is asked for, and only of the space where
/// that was wanted; every other view asks for what it shows.
pub proof fn a_view_asks_for_what_it_shows(view: crate::ui::library::View, space_only: bool)
    ensures
        view matches crate::ui::library::View::Search { query, scope } ==> {
            &&& plan_for(view, space_only) == Plan::Nothing <==> trim_of(query@).len() == 0
            &&& plan_for(view, space_only) is Space <==> trim_of(query@).len() > 0 && space_only
            &&& plan_for(view, space_only) matches Plan::Space { query: q, scope: s } ==> q == query
                && s == scope
            &&& plan_for(view, space_only) matches Plan::Search { query: q, scope: s, .. } ==> q
                == query && s == scope
        },
        view matches crate::ui::library::View::Album(album) ==> plan_for(view, space_only) == (Plan::Album {
            album: album.id,
        }),
        view matches crate::ui::library::View::Artist(artist) ==> (plan_for(view, space_only) matches Plan::Artist { id, .. }
            && id == artist.id),
        view matches crate::ui::library::View::Playlist { id, .. } ==> (plan_for(view, space_only) matches Plan::Playlist {
            id: asked,
            ..
        } && asked == id),
        view is FavouriteTracks ==> plan_for(view, space_only) is FavouriteTracks,
        view is FavouriteAlbums ==> plan_for(view, space_only) is FavouriteAlbums,
        view is FavouriteArtists ==> plan_for(view, space_only) is FavouriteArtists,
        view is Playlists ==> plan_for(view, space_only) is Playlists,
{
}

} // verus!
