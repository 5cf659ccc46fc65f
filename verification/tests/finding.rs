use std::collections::HashSet;
use two_khz::db::{Catalog, TrackMeta};
use two_khz::qobuz::{RemoteTrack, SearchResults};
use two_khz::ui::finding::{
    filter, haystacks, plan, search_shelf, space_groups, space_shelf, terms, Haystack, Plan, SHOWN,
};
use two_khz::ui::library::{Scope, View};

fn haystack(artist: &str, title: &str, album: &str) -> Haystack {
    Haystack {
        artist: artist.to_lowercase(),
        title: title.to_lowercase(),
        album: album.to_lowercase(),
    }
}

/// Testing each field separately is the same predicate as testing the fields
/// joined only because terms are split on whitespace and so can never span the
/// joins.
#[test]
fn per_field_matches_the_joined_string() {
    let cases = [
        ("Aphex Twin", "Xtal", "Selected Ambient Works"),
        ("Burial", "Near Dark", "Untrue"),
        ("", "Untitled", ""),
    ];

    for (artist, title, album) in cases {
        let subject = haystack(artist, title, album);
        let joined = format!(
            "{} {} {}",
            artist.to_lowercase(),
            title.to_lowercase(),
            album.to_lowercase()
        );

        for term in ["aph", "xtal", "works", "near", "untrue", "zzz", "twin"] {
            assert_eq!(
                subject.contains(term),
                joined.contains(term),
                "{term:?} against {artist:?}/{title:?}/{album:?}"
            );
        }
    }
}

/// The one case where the two differ, and why splitting on whitespace before
/// matching keeps the difference unreachable.
#[test]
fn a_term_spanning_two_fields_cannot_be_produced_by_splitting() {
    let subject = haystack("Aphex Twin", "Xtal", "Ambient");
    // The joined string contains "twin xtal"; no single field does.
    assert!(!subject.contains("twin xtal"));
    assert!("aphex twin xtal ambient".contains("twin xtal"));
    // But a query is split first, so "twin xtal" is never one term.
    let terms: Vec<&str> = "twin xtal".split_whitespace().collect();
    assert_eq!(terms, ["twin", "xtal"]);
    assert!(terms.iter().all(|term| subject.contains(term)));
}

fn meta(track_id: i64, artist: &str, artist_id: i64, title: &str, album: &str) -> TrackMeta {
    TrackMeta {
        track_id,
        title: title.into(),
        artist: artist.into(),
        album: album.into(),
        genre: String::new(),
        artist_id,
        album_id: if album.is_empty() { String::new() } else { format!("id-{album}") },
        bpm: None,
        seed_distance: 0,
        isrc: None,
        x: None,
        y: None,
    }
}

fn catalog(tracks: Vec<TrackMeta>) -> Catalog {
    Catalog { tracks, clap: None, clap_dims: 0, blocked_artists: HashSet::new() }
}

fn small() -> Catalog {
    catalog(vec![
        meta(1, "The Burial Choir", 1, "Hymn", "Hymns"),
        meta(2, "Burial", 2, "Archangel", "Untrue"),
        meta(3, "Burial", 2, "Near Dark", "Untrue"),
        meta(4, "Aphex Twin", 3, "Xtal", "Ambient Burial"),
        meta(5, "Nobody", -1, "Burial Song", ""),
    ])
}

#[test]
fn terms_are_lowercased_words() {
    assert_eq!(terms("  Near  DARK "), ["near", "dark"]);
    assert!(terms("   ").is_empty());
    // Lowercasing goes by the whole of Unicode.
    assert_eq!(terms("ÉTÉ"), ["été"]);
}

#[test]
fn what_starts_with_the_query_comes_first() {
    let catalog = small();
    let hays = haystacks(&catalog);
    let (rows, total) = filter(&catalog, &hays, "burial");
    let ids: Vec<i64> = rows.iter().map(|r| r.track_id).collect();
    assert_eq!(total, 5);
    assert_eq!(ids, [2, 3, 5, 1, 4]);
    assert_eq!(rows[2].artist_id, None);
}

#[test]
fn every_word_has_to_appear_somewhere() {
    let catalog = small();
    let hays = haystacks(&catalog);
    let (rows, total) = filter(&catalog, &hays, "burial dark");
    assert_eq!(total, 1);
    assert_eq!(rows[0].track_id, 3);
    assert_eq!(filter(&catalog, &hays, "zzz").1, 0);
}

#[test]
fn nothing_typed_lists_everything_up_to_a_cap() {
    let tracks = (0..SHOWN as i64 + 10).map(|i| meta(i, "a", 1, "t", "")).collect();
    let mut big = catalog(tracks);
    let hays = haystacks(&big);
    let (rows, total) = filter(&big, &hays, " ");
    assert_eq!(rows.len(), SHOWN);
    assert_eq!(total, SHOWN + 10);
    big.blocked_artists.insert(1);
    assert_eq!(filter(&big, &hays, "").1, 0);
}

#[test]
fn rows_the_haystacks_do_not_reach_are_left_out() {
    let catalog = small();
    let mut hays = haystacks(&catalog);
    hays.truncate(2);
    assert_eq!(filter(&catalog, &hays, "burial").1, 2);
}

#[test]
fn groups_list_each_album_and_artist_once() {
    let (albums, artists) = space_groups(&small(), "burial");
    let titles: Vec<&str> = albums.iter().map(|a| a.title.as_str()).collect();
    assert_eq!(titles, ["Untrue", "Hymns", "Ambient Burial"]);
    assert_eq!(albums[0].artist_id, Some(2));
    let names: Vec<&str> = artists.iter().map(|a| a.name.as_str()).collect();
    assert_eq!(names, ["Burial", "The Burial Choir", "Aphex Twin"]);
    let (none, nobody) = space_groups(&small(), "  ");
    assert!(none.is_empty() && nobody.is_empty());
}

#[test]
fn a_space_search_is_narrowed_to_its_scope() {
    let shelf = space_shelf(&small(), "burial", Scope::Albums);
    assert_eq!(shelf.albums.len(), 3);
    assert!(shelf.artists.is_empty() && shelf.tracks.is_empty());
}

fn remote(id: i64, artist: &str, title: &str, album: &str) -> RemoteTrack {
    RemoteTrack {
        id,
        artist: artist.into(),
        title: title.into(),
        album: album.into(),
        ..Default::default()
    }
}

#[test]
fn a_tracks_search_drops_what_a_name_brought_in() {
    let found = || SearchResults {
        tracks: vec![
            remote(1, "Untrue", "Song", "x"),
            remote(2, "Burial", "Untrue", "x"),
            remote(3, "Ünträ", "Other", "x"),
        ],
        ..Default::default()
    };
    let ids = |scope| -> Vec<i64> {
        search_shelf("untrue", scope, found()).tracks.iter().map(|t| t.id).collect()
    };
    assert_eq!(ids(Scope::Tracks), [2, 3]);
    assert_eq!(ids(Scope::Everything), [1, 2, 3]);
    assert!(ids(Scope::Albums).is_empty());
}

#[test]
fn a_plan_asks_for_what_the_view_shows() {
    let search = |query: &str| View::Search { query: query.into(), scope: Scope::Everything };
    assert_eq!(plan(&search("  "), false), Plan::Nothing);
    assert!(matches!(plan(&search("x"), true), Plan::Space { .. }));
    assert!(matches!(plan(&search("x"), false), Plan::Search { limit: 50, .. }));
    assert_eq!(plan(&View::FavouriteTracks, true), Plan::FavouriteTracks { limit: 500 });
    assert_eq!(
        plan(&View::Playlist { id: 3, name: "n".into() }, false),
        Plan::Playlist { id: 3, limit: 500 }
    );
}
