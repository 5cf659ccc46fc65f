use two_khz::api::{digest, SyncFile};
use two_khz::backend::remote::{
    album_tracks_path, artist_albums_path, blocked_path, check, device_path, favourite_albums_path,
    favourite_artists_path, favourite_path, favourite_tracks_path, fetch_album_path,
    fetch_artist_path, file_url_path, is_success, lines, local_digest, needs_download,
    playlist_tracks_path, playlists_path, refusal, search_path, similar_artists_path, sync_path,
    urlencode, Frames, Remote,
    StreamEvent, StreamNext,
};

#[test]
fn what_means_something_to_a_url_is_encoded() {
    assert_eq!(urlencode("a b&c/é~-_."), "a%20b%26c%2F%C3%A9~-_.");
    assert_eq!(urlencode(""), "");
}

#[test]
fn paths_name_what_is_asked_for() {
    assert_eq!(search_path("near dark", 50), "/api/search?q=near%20dark&limit=50");
    assert_eq!(favourite_tracks_path(500), "/api/favourites/tracks?cap=500");
    assert_eq!(favourite_albums_path(1), "/api/favourites/albums?cap=1");
    assert_eq!(favourite_artists_path(1), "/api/favourites/artists?cap=1");
    assert_eq!(playlists_path(2), "/api/playlists?cap=2");
    assert_eq!(playlist_tracks_path(7, 2), "/api/playlists/7?cap=2");
    assert_eq!(album_tracks_path("a/b"), "/api/albums/a%2Fb");
    assert_eq!(artist_albums_path(7, 2), "/api/artists/7/albums?cap=2");
    assert_eq!(similar_artists_path(7, 20), "/api/artists/7/similar?limit=20");
    assert_eq!(file_url_path(9, 5), "/api/tracks/9/url?format=5");
    assert_eq!(favourite_path("album", "x"), "/api/favourites/album/x");
    assert_eq!(blocked_path(-4), "/api/blocked/-4");
    assert_eq!(fetch_artist_path(4), "/api/artists/4/fetch");
    assert_eq!(fetch_album_path("x y"), "/api/albums/x%20y/fetch");
    assert_eq!(device_path(3), "/api/devices/3");
    assert_eq!(sync_path("space.bin"), "/api/sync/space.bin");
}

#[test]
fn an_answer_that_is_no_success_says_why() {
    assert!(is_success(204) && !is_success(301));
    assert_eq!(check(200, "200 OK", ""), Ok(()));
    assert_eq!(
        refusal(401, "401 Unauthorized", "no"),
        "the server rejected this device's token (401 Unauthorized): no"
    );
    assert_eq!(
        refusal(403, "403 Forbidden", "no"),
        "this device is not paired for that (403 Forbidden): no"
    );
    assert_eq!(
        refusal(404, "404 Not Found", "  "),
        "the server does not have this feature yet (404), it is older than this app; update it to use this"
    );
    assert_eq!(
        check(404, "404 Not Found", "no such album"),
        Err("server returned 404 Not Found: no such album".to_string())
    );
}

#[test]
fn lines_agree_with_the_standard_library() {
    for text in ["", "a", "a\n", "a\r\nb", "\n\n", "a\rb\r\n"] {
        let expected: Vec<&str> = text.lines().collect();
        assert_eq!(lines(text), expected, "{text:?}");
    }
}

#[test]
fn a_stream_reads_the_same_however_it_is_cut() {
    let stream = "data: one\n\nevent: x\ndata:two\n\ndata: thr";
    let mut whole = Frames::new();
    let at_once = whole.feed_text(stream);
    assert_eq!(at_once, ["one", "two"]);
    let mut cut = Frames::new();
    let mut piece_by_piece = Vec::new();
    for c in stream.chars() {
        piece_by_piece.extend(cut.feed_text(&c.to_string()));
    }
    assert_eq!(piece_by_piece, at_once);
    assert_eq!(cut.feed_text("ee\n\n"), ["three"]);
}

#[test]
fn bytes_that_are_no_text_are_replaced() {
    let mut frames = Frames::new();
    assert_eq!(frames.feed(b"data: a\xffb\n\n"), ["a\u{fffd}b"]);
}

#[test]
fn the_log_is_mirrored_by_one_reader() {
    let mut remote = Remote::new("http://nas:7700//", "t".into(), "/d".into());
    assert_eq!(remote.url("/api/corpus"), "http://nas:7700/api/corpus");
    assert!(remote.ensure_streaming());
    assert!(!remote.ensure_streaming());
    let mut frames = Frames::new();
    remote.take_chunk(&mut frames, b"data: hello\n\n");
    remote.stream_lost("reset");
    assert_eq!(remote.pipeline_log(), ["hello", "log stream lost: reset"]);
    remote.pipeline_clear_log();
    assert!(remote.pipeline_log().is_empty());
    remote.stream_refused("403");
    assert!(remote.ensure_streaming());
}

#[test]
fn only_a_copy_that_differs_is_fetched() {
    let file = SyncFile { name: "space.bin".into(), bytes: 3, digest: digest(b"abc") };
    assert!(!needs_download(Some(b"abc"), &file));
    assert!(needs_download(Some(b"abd"), &file));
    assert!(needs_download(None, &file));
    assert_eq!(local_digest(None), None);
}

#[test]
fn texts_that_look_alike_are_told_apart_once_encoded() {
    let texts = ["%41", "A", "%2541", " ", "%20", "+", "é", "e\u{301}", ""];
    for (i, a) in texts.iter().enumerate() {
        for (j, b) in texts.iter().enumerate() {
            assert_eq!(urlencode(a) == urlencode(b), i == j, "{a:?} against {b:?}");
        }
    }
}

#[test]
fn a_reader_comes_back_to_a_stream_unless_it_is_refused() {
    let mut remote = Remote::new("http://nas/", "t".into(), "/d".into());
    assert!(remote.ensure_streaming());
    let answered = |code| StreamEvent::Answered { code, status: "403 Forbidden".into() };
    assert_eq!(remote.stream_event(&answered(200)), StreamNext::Read);
    assert_eq!(remote.stream_event(&StreamEvent::Ended), StreamNext::Reconnect);
    assert!(remote.pipeline_log().is_empty());
    let failed = StreamEvent::Failed { error: "reset".into() };
    assert_eq!(remote.stream_event(&failed), StreamNext::Reconnect);
    assert!(!remote.ensure_streaming());
    assert_eq!(remote.stream_event(&answered(403)), StreamNext::Stop);
    assert_eq!(
        remote.pipeline_log(),
        ["log stream lost: reset", "log stream refused: 403 Forbidden"]
    );
    assert_eq!((remote.base.as_str(), remote.token.as_str()), ("http://nas", "t"));
    assert!(remote.ensure_streaming());
}
