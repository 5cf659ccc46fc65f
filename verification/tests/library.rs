use two_khz::api::BlockedArtist;
use two_khz::qobuz::{RemoteAlbum, RemoteArtist, RemoteTrack};
use two_khz::ui::context::{Blocklist, SpaceRow};
use two_khz::ui::library::{
    analysis_requested, fetch_into_catalog, names_track, open_initial, request_analysis, Fetch,
    Library, Scope, Shelf, View,
};
use two_khz::ui::panel::{
    album_rows, artist_rows, chip_scope, panel, qobuz_only, row_class, show_more, sort_active,
    sort_label, source_chips, space_ids, space_section, track_rows, tracks_note, FIRST_SHOWN,
};
use two_khz::ui::sorting::{Sort, SortKey};

fn track(id: i64, title: &str, artist_id: Option<i64>) -> RemoteTrack {
    RemoteTrack { id, title: title.into(), artist_id, ..Default::default() }
}

fn shelf(tracks: Vec<RemoteTrack>) -> Shelf {
    Shelf { tracks, ..Default::default() }
}

fn titles(shelf: &Shelf) -> Vec<&str> {
    shelf.tracks.iter().map(|t| t.title.as_str()).collect()
}

fn nobody() -> Blocklist {
    Blocklist { artists: Vec::new() }
}

fn hiding(artist_id: i64) -> Blocklist {
    Blocklist { artists: vec![BlockedArtist { artist_id, name: String::new(), reason: None }] }
}

fn by(key: SortKey, descending: bool) -> Sort {
    Sort { key, descending }
}

#[test]
fn the_default_order_is_as_it_came_or_reversed() {
    let three = || shelf(vec![track(1, "b", None), track(2, "a", None), track(3, "c", None)]);
    assert_eq!(titles(&three().sorted(by(SortKey::Default, false))), ["b", "a", "c"]);
    assert_eq!(titles(&three().sorted(by(SortKey::Default, true))), ["c", "a", "b"]);
    assert_eq!(titles(&three().sorted(by(SortKey::Title, false))), ["a", "b", "c"]);
    assert_eq!(titles(&three().sorted(by(SortKey::Title, true))), ["c", "b", "a"]);
}

#[test]
fn case_does_not_matter_and_ties_keep_their_order() {
    let rows = shelf(vec![track(1, "B", None), track(2, "a", None), track(3, "b", None)]);
    let sorted = rows.sorted(by(SortKey::Title, true));
    let ids: Vec<i64> = sorted.tracks.iter().map(|t| t.id).collect();
    assert_eq!(ids, [1, 3, 2]);
}

#[test]
fn rows_without_a_value_come_last_either_way() {
    let rows = || {
        let mut long = track(1, "long", None);
        long.duration = Some(300);
        let mut short = track(2, "short", None);
        short.duration = Some(10);
        shelf(vec![track(3, "unknown", None), long, short])
    };
    assert_eq!(titles(&rows().sorted(by(SortKey::Duration, false))), ["short", "long", "unknown"]);
    assert_eq!(titles(&rows().sorted(by(SortKey::Duration, true))), ["long", "short", "unknown"]);
}

#[test]
fn a_longer_name_comes_after_the_one_it_begins_with() {
    let rows = shelf(vec![track(1, "abc", None), track(2, "ab", None), track(3, "z", None)]);
    assert_eq!(titles(&rows.sorted(by(SortKey::Title, false))), ["ab", "abc", "z"]);
}

#[test]
fn space_rows_sort_by_what_they_know() {
    let row = |track_id: i64, album: &str| SpaceRow {
        track_id,
        artist: String::new(),
        artist_id: None,
        title: String::new(),
        album: album.into(),
        album_id: String::new(),
    };
    let ids = |sort: Sort| -> Vec<i64> {
        sort.space_rows(vec![row(1, "b"), row(2, "A")]).iter().map(|r| r.track_id).collect()
    };
    assert_eq!(ids(by(SortKey::Album, false)), [2, 1]);
    assert_eq!(ids(by(SortKey::Released, true)), [1, 2]);
}

#[test]
fn going_remembers_where_it_came_from() {
    let mut library = Library::new();
    open_initial(&mut library);
    library.go(View::Playlists);
    assert_eq!(library.view, View::Playlists);
    assert_eq!(library.history.len(), 1);
    library.go(View::Playlists);
    assert_eq!(library.history.len(), 1);
    library.back();
    assert_eq!(library.view, View::FavouriteTracks);
    assert!(library.history.is_empty());
    library.back();
    assert_eq!(library.view, View::FavouriteTracks);
}

#[test]
fn a_search_refines_in_place_and_can_be_left() {
    let mut library = Library::new();
    library.go(View::FavouriteAlbums);
    let before = library.history.len();
    library.search_to("bu".into());
    library.search_to("burial".into());
    assert_eq!(library.history.len(), before + 1);
    assert_eq!(library.view, View::Search { query: "burial".into(), scope: Scope::Albums });
    library.rescope(Scope::Tracks);
    assert!(library.shows_space());
    library.leave_search();
    assert_eq!(library.view, View::FavouriteAlbums);
    assert_eq!(library.history.len(), before);
    library.leave_search();
    assert_eq!(library.view, View::FavouriteAlbums);
}

#[test]
fn a_fetch_that_was_overtaken_is_dropped() {
    let mut library = Library::new();
    open_initial(&mut library);
    let slow = library.drive().unwrap();
    assert!(library.drive().is_none());
    library.go(View::Playlists);
    let quick = library.drive().unwrap();
    library.landed(quick.epoch, Ok(Shelf::default()));
    library.landed(slow.epoch, Ok(shelf(vec![track(1, "late", None)])));
    assert!(library.shelf.tracks.is_empty());
    assert!(!library.loading);
}

#[test]
fn a_fetch_lands_in_the_order_asked_for() {
    let mut library = Library::new();
    open_initial(&mut library);
    library.set_sort(by(SortKey::Title, false));
    let errand = library.drive().unwrap();
    let came = vec![track(1, "b", None), track(2, "a", None)];
    library.landed(errand.epoch, Ok(shelf(came)));
    assert_eq!(titles(&library.shelf), ["a", "b"]);
    assert_eq!(titles(&library.loaded), ["b", "a"]);
    library.set_sort(Sort::default());
    assert_eq!(titles(&library.shelf), ["b", "a"]);
    library.go(View::Playlists);
    let errand = library.drive().unwrap();
    library.landed(errand.epoch, Err("gone".into()));
    assert_eq!(library.error.as_deref(), Some("gone"));
}

#[test]
fn a_heart_follows_the_cached_favourites() {
    let mut library = Library::new();
    assert!(library.wants_liked());
    library.set_liked("track", "4", true);
    assert!(!library.is_liked_track(4));
    let album = RemoteAlbum { id: "al".into(), ..Default::default() };
    let artist = RemoteArtist { id: 9, name: String::new(), albums_count: None, image: None };
    library.liked_loaded(&vec![track(1, "x", None)], &vec![album], &vec![artist]);
    assert!(!library.wants_liked());
    assert!(library.is_liked_track(1) && library.is_liked_album("al") && library.is_liked_artist(9));
    library.set_liked("track", "4", true);
    library.set_liked("track", "1", false);
    library.set_liked("album", "al", false);
    library.set_liked("artist", "nine", true);
    library.set_liked("other", "1", true);
    assert!(library.is_liked_track(4) && !library.is_liked_track(1));
    assert!(!library.is_liked_album("al"));
    assert!(library.is_liked_artist(9));
}

#[test]
fn toggles_ask_again_or_fetch_once() {
    let mut library = Library::new();
    library.search_to("x".into());
    let epoch = library.epoch;
    library.toggle_space_only();
    assert!(library.searching_space_only());
    assert_ne!(library.epoch, epoch);
    assert!(library.toggle_liked_only());
    assert!(!library.toggle_liked_only());
}

#[test]
fn hidden_artists_are_filtered_before_anything_is_numbered() {
    let mut library = Library::new();
    library.shelf = shelf(vec![track(1, "a", Some(5)), track(2, "b", Some(6)), track(3, "c", None)]);
    let visible = library.shelf.visible_tracks(&hiding(5));
    assert_eq!(visible.len(), 2);
    let rows = track_rows(&library, &hiding(5), &Vec::new());
    assert_eq!(rows[0].0, 0);
    assert_eq!(rows[0].1.id, 2);
}

#[test]
fn a_row_keeps_its_place_through_the_filter() {
    let mut library = Library::new();
    library.search_to("x".into());
    library.shelf = shelf(vec![track(1, "a", None), track(2, "b", None), track(3, "c", None)]);
    let space = vec![SpaceRow {
        track_id: 1,
        artist: String::new(),
        artist_id: None,
        title: String::new(),
        album: String::new(),
        album_id: String::new(),
    }];
    let rows = track_rows(&library, &nobody(), &space);
    let addressed: Vec<(usize, i64)> = rows.iter().map(|(i, t)| (*i, t.id)).collect();
    assert_eq!(addressed, [(1, 2), (2, 3)]);
    let visible = library.shelf.visible_tracks(&nobody());
    for (i, row) in &rows {
        assert_eq!(visible[*i].id, row.id);
    }
    assert_eq!(space_ids(&library, &space).len(), 1);
    library.view = View::FavouriteTracks;
    assert!(space_ids(&library, &space).is_empty());
    let none = std::collections::HashSet::new();
    assert_eq!(qobuz_only(vec![track(4, "d", None)], &none).len(), 1);
}

#[test]
fn the_liked_filter_spares_suggestions() {
    let mut library = Library::new();
    let artist = |id: i64| RemoteArtist { id, name: String::new(), albums_count: None, image: None };
    library.shelf.artists = vec![artist(1), artist(2)];
    library.shelf.similar = vec![artist(3)];
    library.shelf.albums = vec![RemoteAlbum { id: "a".into(), ..Default::default() }];
    library.liked_loaded(&Vec::new(), &Vec::new(), &vec![artist(2)]);
    library.toggle_liked_only();
    let rows = artist_rows(&library, &nobody(), false);
    assert_eq!(rows.len(), 1);
    assert_eq!(rows[0].0, 1);
    assert_eq!(artist_rows(&library, &nobody(), true).len(), 1);
    assert!(album_rows(&library, &nobody()).is_empty());
}

#[test]
fn nothing_here_belongs_to_the_whole_list() {
    let mut library = Library::new();
    library.search_to("x".into());
    let shown = panel(&library, &nobody(), &Vec::new(), 3);
    assert!(shown.shows_space && !shown.nothing_visible);
    assert_eq!(shown.heading.as_deref(), Some("results for “x”"));
    assert!(panel(&library, &nobody(), &Vec::new(), 0).nothing_visible);
    library.show(View::Album(RemoteAlbum { title: "t".into(), ..Default::default() }));
    assert_eq!(panel(&library, &nobody(), &Vec::new(), 0).heading, None);
}

#[test]
fn chips_light_and_widen() {
    assert_eq!(chip_scope(Scope::Tracks, Scope::Tracks), Scope::Everything);
    assert_eq!(chip_scope(Scope::Everything, Scope::Albums), Scope::Albums);
    let playlist = View::Playlist { id: 1, name: "p".into() };
    let lit: Vec<bool> = source_chips(&playlist).iter().map(|c| c.1).collect();
    assert_eq!(lit, [false, false, false, true]);
    assert_eq!(playlist.label(), "p");
    assert_eq!(sort_label(Sort::default()), "default ↑");
    assert_eq!(sort_label(by(SortKey::Released, true)), "release date ↓");
    assert!(!sort_active(Sort::default()) && sort_active(by(SortKey::Default, true)));
    assert_eq!(tracks_note(49), None);
    assert_eq!(tracks_note(50).as_deref(), Some("first 50"));
    assert_eq!(row_class(true, Some("playing")), "tile playing");
    assert_eq!(row_class(false, None), "row");
}

#[test]
fn the_space_section_counts_what_it_shows() {
    let mut library = Library::new();
    library.search_to("x".into());
    let row = |track_id: i64| SpaceRow {
        track_id,
        artist: String::new(),
        artist_id: None,
        title: String::new(),
        album: String::new(),
        album_id: String::new(),
    };
    let rows = vec![row(1), row(2), row(3)];
    let part = space_section(&library, &rows, 5, true, 2);
    assert_eq!(part.rows.len(), 2);
    assert_eq!(part.count, "2 of 5");
    assert!(part.more);
    let all = space_section(&library, &rows, 3, true, FIRST_SHOWN);
    assert_eq!(all.count, "3");
    assert!(!all.more);
    let none = space_section(&library, &Vec::new(), 0, true, FIRST_SHOWN);
    assert_eq!(none.message, Some("Nothing matches. Every word has to appear somewhere."));
    assert_eq!(space_section(&library, &Vec::new(), 0, false, FIRST_SHOWN).message, None);
    library.toggle_space_only();
    library.toggle_liked_only();
    let unliked = space_section(&library, &rows, 5, true, FIRST_SHOWN);
    assert_eq!(unliked.message, Some("Nothing you've liked matches."));
    assert_eq!(show_more(FIRST_SHOWN), 240);
}

#[test]
fn an_analysis_is_announced_and_reported() {
    let mut library = Library::new();
    request_analysis(&mut library, "Untrue");
    assert_eq!(library.notice.as_deref(), Some("fetching Untrue…"));
    analysis_requested(&mut library, "album", "Untrue", Ok(13));
    assert_eq!(
        library.notice.as_deref(),
        Some("Untrue: 13 tracks. Run analyse from the pipeline view to extract features.")
    );
    analysis_requested(&mut library, "artist", "Burial", Ok(4));
    assert_eq!(
        library.notice.as_deref(),
        Some("Burial: 4 albums queued. Run analyse from the pipeline view to extract features.")
    );
    analysis_requested(&mut library, "album", "x", Err("no".into()));
    assert_eq!(library.notice.as_deref(), Some("no"));
    assert_eq!(fetch_into_catalog("artist", "7"), Fetch::Artist(7));
    assert_eq!(fetch_into_catalog("artist", "seven"), Fetch::Unreadable);
    assert_eq!(fetch_into_catalog("album", "x"), Fetch::Album("x".into()));
}

#[test]
fn a_track_is_named_by_its_title_alone() {
    let terms = vec!["near".to_string(), "dark".to_string()];
    assert!(names_track(&terms, "near dark"));
    assert!(!names_track(&terms, "near"));
    assert!(names_track(&Vec::new(), ""));
}
