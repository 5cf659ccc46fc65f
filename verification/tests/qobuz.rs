use two_khz::json::Json;
use two_khz::qobuz::{
    byte_prefix, cover_url, image, own_releases, RemoteAlbum, RemoteArtist, RemotePlaylist,
    RemoteTrack, TrackIdentity,
};

fn album(title: &str, artist_id: Option<i64>) -> RemoteAlbum {
    RemoteAlbum { title: title.into(), artist_id, ..Default::default() }
}

/// A cover album credits the original band, so a discography lists it under
/// them.
#[test]
fn discography_drops_albums_by_other_artists() {
    let kept = own_releases(
        155699,
        vec![
            album("Evil Empire", Some(155699)),
            album("Killing in the Name", Some(42)),
            album("Untagged", None),
        ],
    );
    let titles: Vec<_> = kept.iter().map(|a| a.title.as_str()).collect();
    assert_eq!(titles, ["Evil Empire", "Untagged"]);
}

fn track(id: i64, isrc: Option<&str>) -> RemoteTrack {
    RemoteTrack { id, isrc: isrc.map(str::to_string), ..Default::default() }
}

#[test]
fn one_recording_across_two_releases_is_one_identity() {
    assert_eq!(
        track(111, Some("GBAAA9100123")).identity(),
        track(222, Some("GBAAA9100123")).identity()
    );
}

#[test]
fn isrc_case_does_not_make_a_second_identity() {
    assert_eq!(
        track(111, Some("gbaaa9100123")).identity(),
        track(222, Some("GBAAA9100123")).identity()
    );
}

#[test]
fn an_untagged_track_is_only_ever_a_duplicate_of_itself() {
    assert_eq!(track(111, None).identity(), track(111, None).identity());
    assert_ne!(track(111, None).identity(), track(222, None).identity());
}

#[test]
fn a_blank_isrc_counts_as_absent() {
    assert_eq!(track(111, Some("   ")).identity(), TrackIdentity::Entry(111));
    assert_ne!(track(111, Some("")).identity(), track(222, Some("")).identity());
}

#[test]
fn a_tagged_and_an_untagged_track_never_collide() {
    assert_ne!(
        track(111, Some("GBAAA9100123")).identity(),
        track(111, None).identity()
    );
}

#[test]
fn cover_url_follows_the_two_by_two_tail_convention() {
    assert_eq!(
        cover_url("3610159663848").as_deref(),
        Some("https://static.qobuz.com/images/covers/48/38/3610159663848_230.jpg")
    );
    // Too short to split, so there is nothing to guess from.
    assert_eq!(cover_url("12"), None);
    assert_eq!(cover_url(""), None);
}

#[test]
fn own_releases_of_own_releases_are_the_same() {
    let once = own_releases(1, vec![album("a", Some(1)), album("b", Some(2)), album("c", None)]);
    let twice = own_releases(1, once.iter().cloned().collect());
    assert_eq!(once, twice);
}

fn text(s: &str) -> Json {
    Json::Text(s.to_string())
}

fn number(n: i64) -> Json {
    Json::Number { whole: Some(n), text: n.to_string() }
}

fn object(members: Vec<(&str, Json)>) -> Json {
    Json::Object(members.into_iter().map(|(k, v)| (k.to_string(), v)).collect())
}

#[test]
fn a_track_reads_its_fields_and_its_album() {
    let value = object(vec![
        ("id", number(7)),
        ("title", text("Xtal")),
        ("performer", object(vec![("id", number(3)), ("name", text("Aphex Twin"))])),
        ("duration", number(294)),
        ("streamable", Json::Bool(true)),
        ("isrc", text("GBAFL9200001")),
        (
            "album",
            object(vec![
                ("id", text("abc123")),
                ("title", text("Selected Ambient Works")),
                ("image", object(vec![("small", text("https://img/s.jpg"))])),
            ]),
        ),
    ]);
    let track = RemoteTrack::parse(&value, None).unwrap();
    assert_eq!(track.id, 7);
    assert_eq!(track.title, "Xtal");
    assert_eq!(track.artist, "Aphex Twin");
    assert_eq!(track.artist_id, Some(3));
    assert_eq!(track.album, "Selected Ambient Works");
    assert_eq!(track.album_id.as_deref(), Some("abc123"));
    assert_eq!(track.duration_label(), "4:54");
    assert!(track.streamable);
}

#[test]
fn a_value_without_an_id_is_no_track() {
    assert_eq!(RemoteTrack::parse(&object(vec![("title", text("x"))]), None), None);
    assert_eq!(RemoteArtist::parse(&Json::Null), None);
    assert_eq!(RemotePlaylist::parse(&object(vec![])), None);
}

#[test]
fn a_track_without_a_duration_shows_none() {
    assert_eq!(track(1, None).duration_label(), "");
    let mut long = track(1, None);
    long.duration = Some(61);
    assert_eq!(long.duration_label(), "1:01");
}

#[test]
fn a_year_is_the_front_of_a_date() {
    let mut dated = album("x", None);
    dated.released = Some("1992-11-09".to_string());
    assert_eq!(dated.year(), "1992");
    assert_eq!(album("x", None).year(), "");
}

#[test]
fn a_prefix_never_cuts_a_character() {
    assert_eq!(byte_prefix("abcd", 2).as_deref(), Some("ab"));
    assert_eq!(byte_prefix("é", 1), None);
    assert_eq!(byte_prefix("ab", 3), None);
}

#[test]
fn an_image_is_found_in_an_album() {
    assert_eq!(image(&Json::Null), None);
    let bag = object(vec![("large", text("l")), ("small", text("s"))]);
    assert_eq!(image(&object(vec![("image", bag)])).as_deref(), Some("s"));
    let hashed = object(vec![(
        "images",
        object(vec![("portrait", object(vec![("hash", text("abc"))]))]),
    )]);
    assert_eq!(
        image(&hashed).as_deref(),
        Some("https://static.qobuz.com/images/artists/covers/medium/abc.jpg")
    );
}

#[test]
fn the_recording_is_what_identity_compares() {
    let a = TrackIdentity::of(1, &Some("x".to_string()));
    let b = TrackIdentity::of(2, &Some(" X ".to_string()));
    let c = TrackIdentity::of(1, &None);
    assert!(a.same_as(&b));
    assert!(!a.same_as(&c));
}
