use std::collections::{HashMap, HashSet};
use two_khz::api::{BlockedArtist, Corpus, CrawlStatus, Device, PipelineStatus, Scope, Stage};
use two_khz::db::{Catalog, TrackMeta};
use two_khz::json::Json;
use two_khz::paths::{Navigator, UNIT};
use two_khz::qobuz::{RemoteAlbum, RemoteArtist, RemoteTrack};
use two_khz::ui::context::{
    cover_art, is_eager, open_artist, open_track, playable, space_track, Blocklist, DetailSubject,
    MapView,
    reach,
};
use two_khz::ui::crawler::Crawler;
use two_khz::ui::generate::{Generator, Mode};
use two_khz::ui::library::{Library, View};
use two_khz::ui::menu::MenuTarget;
use two_khz::ui::pipeline::{
    device_name, hints, last_seen, stage_rows, tick, token_line, Order, Pipeline, StageControl,
};
use two_khz::ui::sheet::{
    album_badges, albums_label, cancel_path, controls, credits, detail_pane, export_name, exported,
    heart, list_message, path_pill, set_weight, space_bpm, sync_selection, tempo_label,
    toggled_like, track_badges, track_sheet, weight, weights_changed, Pane as DetailPane,
};
use two_khz::ui::shell::{
    body_class, carry_out, connect_failed, counts, counts_label, forgotten, pairing_unsaved,
    read_map_event, read_press, reload_script, reloaded, route_script, saved, selected_label,
    selection_script, wants_meta, window_size, Asked, MapEvent, Pane, Press, Search,
};

fn meta(track_id: i64) -> TrackMeta {
    TrackMeta {
        track_id,
        title: format!("t{track_id}"),
        artist: "Burial".into(),
        album: String::new(),
        genre: String::new(),
        artist_id: track_id,
        album_id: String::new(),
        bpm: Some(UNIT * 280 / 2),
        seed_distance: 0,
        isrc: None,
        x: if track_id == 1 { Some(0) } else { None },
        y: None,
    }
}

fn nav() -> Navigator {
    let mut index_of = HashMap::new();
    index_of.insert(1, 0);
    index_of.insert(2, 1);
    Navigator::new(
        index_of,
        Catalog {
            tracks: vec![meta(1), meta(2)],
            clap: None,
            clap_dims: 0,
            blocked_artists: HashSet::new(),
        },
    )
}

#[test]
fn a_query_waits_until_typing_stops() {
    let mut search = Search::new();
    search.text = " bu".into();
    assert_eq!(search.tick(), Asked::Nothing);
    search.text = " bur".into();
    assert_eq!(search.tick(), Asked::Nothing);
    assert_eq!(search.tick(), Asked::Query("bur".into()));
    assert_eq!(search.tick(), Asked::Nothing);
    search.text = "b".into();
    search.tick();
    assert_eq!(search.tick(), Asked::Nothing);
    search.text = "  ".into();
    search.tick();
    assert_eq!(search.tick(), Asked::Leave);
    assert_eq!(search.tick(), Asked::Nothing);
}

#[test]
fn enter_skips_the_wait() {
    let mut search = Search::new();
    assert_eq!(search.enter(), Asked::Nothing);
    search.text = "b ".into();
    assert_eq!(search.enter(), Asked::Query("b".into()));
    assert_eq!(search.enter(), Asked::Nothing);
    let mut library = Library::new();
    carry_out(&mut library, Asked::Query("b".into()));
    assert!(matches!(library.view, View::Search { .. }));
    carry_out(&mut library, Asked::Leave);
    assert_eq!(library.view, View::FavouriteTracks);
    let epoch = library.epoch;
    carry_out(&mut library, Asked::Nothing);
    assert_eq!(library.epoch, epoch);
}

fn object(members: Vec<(&str, Json)>) -> Json {
    Json::Object(members.into_iter().map(|(k, v)| (k.to_string(), v)).collect())
}

#[test]
fn a_press_opens_the_menu_of_its_row() {
    let tagged = object(vec![("target", Json::Text("queue:3".into()))]);
    assert_eq!(read_press(&tagged), Press::Menu(MenuTarget::QueueEntry(3)));
    let rubbish = object(vec![("target", Json::Text("nope".into()))]);
    assert_eq!(read_press(&rubbish), Press::Ignored);
    assert_eq!(read_press(&object(vec![("closeMap", Json::Null)])), Press::CloseMap);
    assert_eq!(read_press(&Json::Null), Press::Ignored);
}

#[test]
fn the_map_selects_and_opens_menus() {
    let number = || Json::Number { whole: Some(4), text: "4".into() };
    let menu = object(vec![("type", Json::Text("menu".into())), ("track_id", number())]);
    assert_eq!(read_map_event(&menu, Some(4)), MapEvent::Menu(4));
    assert_eq!(read_map_event(&menu, None), MapEvent::Ignored);
    let select = object(vec![("track_id", number())]);
    assert_eq!(read_map_event(&select, Some(4)), MapEvent::Select(Some(4)));
    let background = object(vec![("track_id", Json::Null)]);
    assert_eq!(read_map_event(&background, None), MapEvent::Select(None));
    assert_eq!(read_map_event(&object(vec![]), None), MapEvent::Ignored);
}

#[test]
fn scripts_tell_the_page() {
    assert_eq!(
        selection_script(Some(7)),
        "window.twoKhzSelected = 7;\nwindow.twoKhzSetSelected && window.twoKhzSetSelected(7);"
    );
    assert!(selection_script(None).contains("= null;"));
    assert_eq!(
        route_script(&Generator::new(), true),
        "window.twoKhzSetRoute && window.twoKhzSetRoute([]);"
    );
    assert_eq!(
        reload_script(),
        "window.twoKhzReloadPoints && window.twoKhzReloadPoints();"
    );
    assert!(wants_meta("/points/meta") && !wants_meta("/points") && !wants_meta("meta"));
}

#[test]
fn the_header_counts_and_names() {
    let mut nav = nav();
    nav.catalog.blocked_artists.insert(2);
    let now = counts(&nav.catalog);
    assert_eq!((now.visible, now.hidden, now.on_map), (1, 1, 1));
    assert_eq!(counts_label(now), ("1 tracks".to_string(), Some("(1 hidden)".to_string())));
    assert_eq!(selected_label(&nav.catalog, Some(2)), "Burial - t2");
    assert_eq!(selected_label(&nav.catalog, Some(9)), "nothing selected");
    assert_eq!(body_class(Pane::Tools, false), "body pane-tools hidden");
    assert_eq!(body_class(Pane::Library, true), "body pane-library");
    assert_eq!(Pane::Library.label(), "browse");
    assert_eq!(
        window_size("800 x 600"),
        Some(("800".to_string(), "600".to_string()))
    );
    assert_eq!(window_size("800"), None);
}

#[test]
fn a_rebuilt_space_clears_what_named_it() {
    let mut generator = Generator::new();
    generator.from = Some(1);
    let mut selected = Some(4);
    reloaded(&mut selected, &mut generator);
    assert_eq!(selected, None);
    assert_eq!(generator.from, Some(1));
}

#[test]
fn pairing_says_how_it_went() {
    assert!(connect_failed("refused").starts_with("refused\n\nIf the address"));
    assert!(saved(None).starts_with("Saved. Restart 2kHz"));
    assert_eq!(saved(Some("full")), "could not save: full");
    assert_eq!(forgotten(Some("x")), "could not clear the pairing: x");
    assert_eq!(pairing_unsaved("x"), "could not save the pairing: x");
}

#[test]
fn the_map_opens_for_a_reason() {
    let mut map = MapView::new();
    map.show_route();
    assert!(map.map_open && map.map_route);
    map.toggle();
    assert!(!map.map_open);
    map.toggle();
    assert!(map.map_open && !map.map_route);
}

#[test]
fn looking_at_a_track_selects_it() {
    let nav = nav();
    let mut selection = None;
    let mut detail = None;
    open_track(&nav, &mut selection, &mut detail, 2);
    assert_eq!(selection, Some(2));
    assert!(matches!(detail, Some(DetailSubject::Track(_))));
    let mut detail = Some(open_artist(3, "x".into()));
    open_track(&nav, &mut selection, &mut detail, 99);
    assert_eq!(selection, Some(99));
    assert!(matches!(detail, Some(DetailSubject::Artist(_))));
    assert!(space_track(&nav, 99).is_none());
    assert_eq!(playable(&nav, 1).len(), 1);
    sync_selection(&mut selection, 5, false);
    assert_eq!(selection, Some(99));
    sync_selection(&mut selection, 5, true);
    assert_eq!(selection, Some(5));
}

#[test]
fn a_cover_that_would_break_out_shows_nothing() {
    assert_eq!(cover_art(Some("https://x/a.jpg"), false).data, "https://x/a.jpg");
    assert_eq!(
        cover_art(Some("https://x/a.jpg"), true).style,
        "background-image:url('https://x/a.jpg')"
    );
    let broken = cover_art(Some("a')b"), true);
    assert!(broken.data.is_empty() && broken.style.is_empty());
    assert!(is_eager("detail-art eager") && !is_eager("eagerly"));
}

#[test]
fn a_hidden_artist_hides_their_tracks() {
    let blocked = Blocklist {
        artists: vec![BlockedArtist { artist_id: 5, name: "x".into(), reason: None }],
    };
    let mut track = RemoteTrack::default();
    assert!(!blocked.hides(&track));
    track.artist_id = Some(5);
    assert!(blocked.hides(&track));
    assert!(blocked.ids().contains(&5) && blocked.contains(5) && !blocked.contains(6));
}

#[test]
fn a_crawl_is_started_once() {
    let mut crawler = Crawler::new();
    assert!(crawler.start());
    assert!(crawler.pending);
    crawler.started(Some("no".into()));
    assert!(!crawler.pending);
    assert_eq!(crawler.last().as_deref(), Some("no"));
    crawler.polled(Some(CrawlStatus { running: true, ..Default::default() }));
    assert!(!crawler.start());
    crawler.polled(None);
    assert!(!crawler.running());
}

#[test]
fn one_stage_runs_at_a_time() {
    let mut pipeline = Pipeline::new();
    pipeline.refused("old".into());
    assert_eq!(pipeline.start(Stage::Crawl), Order::Crawl);
    assert_eq!(pipeline.error.as_deref(), Some("old"));
    assert_eq!(pipeline.start(Stage::Layout), Order::Run(Stage::Layout));
    assert_eq!(pipeline.error, None);
    let status = PipelineStatus {
        running: Some(Stage::Analyse),
        queued: vec![Stage::Layout],
        generation: 2,
    };
    assert!(pipeline.polled(status));
    assert_eq!(pipeline.start(Stage::Layout), Order::Nothing);
    assert_eq!(pipeline.start_full_run(), Order::Nothing);
    let rows = stage_rows(&pipeline, &Crawler::new());
    assert!(rows[1].active && !rows[0].active);
    assert_eq!(rows[3].control, StageControl::Queued);
    assert_eq!(rows[2].control, StageControl::Run { disabled: true });
    assert!(pipeline.logged(vec!["a".into()]));
    assert!(!pipeline.logged(vec!["a".into()]));
    pipeline.space_counts = (7, 5);
    pipeline.refreshed(Corpus { buildable: 9, ..Default::default() });
    assert_eq!(pipeline.corpus.in_space, 7);
    assert_eq!(tick(20), (true, 21));
    assert_eq!(tick(u32::MAX), (false, 0));
}

#[test]
fn hints_name_the_stage_that_would_help() {
    let said = hints(&Corpus { buildable: 9, in_space: 7, on_map: 5, ..Default::default() });
    assert_eq!(
        said.build.as_deref(),
        Some("The space holds 7 tracks but 9 are ready, run build space.")
    );
    assert_eq!(
        said.layout.as_deref(),
        Some("2 tracks in the space have no coordinates, run layout.")
    );
    assert!(!said.up_to_date);
    assert!(hints(&Corpus::default()).up_to_date);
}

#[test]
fn devices_are_named_and_seen() {
    assert_eq!(device_name("  phone "), Some("phone".to_string()));
    assert_eq!(device_name("  "), None);
    assert_eq!(token_line("abc"), "TWO_KHZ_TOKEN=abc");
    let device = Device {
        id: 1,
        name: "p".into(),
        scope: Scope::Play,
        created_at: String::new(),
        last_seen: None,
    };
    assert_eq!(last_seen(&device), "never seen");
}

#[test]
fn a_tempo_is_rounded_as_numbers_are_printed() {
    for bpm in [120.0_f32, 119.5, 120.5, 120.49, 0.5, 1.5, 2.5, 174.6] {
        let fixed = (bpm as f64 * UNIT as f64) as i64;
        assert_eq!(tempo_label(fixed), format!("{bpm:.0} bpm"));
    }
    assert_eq!(space_bpm(&nav(), 1), Some(UNIT * 140));
    assert_eq!(space_bpm(&nav(), 9), None);
}

#[test]
fn credits_are_split_and_trimmed() {
    let listed = credits(&Some("A, Composer; B, Producer ;;  ".into()));
    assert_eq!(listed, ["A, Composer", "B, Producer"]);
    assert!(credits(&None).is_empty());
}

#[test]
fn badges_say_what_is_known() {
    let track = RemoteTrack { released: Some("2007".into()), ..Default::default() };
    assert_eq!(
        track_badges(&track, true, Some(UNIT * 140)),
        ["in your space", "140 bpm", "2007", "not streamable here"]
    );
    let album = RemoteAlbum { tracks_count: Some(13), ..Default::default() };
    assert_eq!(album_badges(&album), ["13 tracks"]);
    let artist =
        RemoteArtist { id: 1, name: String::new(), albums_count: Some(4), image: None };
    assert_eq!(albums_label(&artist).as_deref(), Some("4 albums"));
}

#[test]
fn a_sheet_offers_walks_for_tracks_of_the_space() {
    let nav = nav();
    let track = space_track(&nav, 1).unwrap();
    let local: HashSet<i64> = [1].into_iter().collect();
    let sheet = track_sheet(&track, &Library::new(), &local, &nav, &Generator::new());
    assert!(sheet.in_space && !sheet.liked);
    let labels: Vec<&str> = sheet.verbs.iter().map(|v| v.label.as_str()).collect();
    assert_eq!(
        labels,
        ["Find neighbours", "Start radio", "Path A", "Path B", "Drift from here"]
    );
    assert_eq!(sheet.hide, Some((1, "Burial".to_string())));
    let outside = track_sheet(&track, &Library::new(), &HashSet::new(), &nav, &Generator::new());
    assert!(outside.verbs.is_empty());
    match detail_pane(&nav, &Generator::new(), Some(1)) {
        DetailPane::Track { title, bpm, verbs, .. } => {
            assert_eq!(title, "t1");
            assert_eq!(bpm.as_deref(), Some("140 bpm"));
            assert_eq!(verbs.len(), 4);
        }
        DetailPane::Message(text) => panic!("{text}"),
    }
    assert!(matches!(
        detail_pane(&nav, &Generator::new(), Some(9)),
        DetailPane::Message("That track is no longer in the space.")
    ));
}

#[test]
fn a_refused_like_says_why_and_changes_nothing() {
    let mut library = Library::new();
    library.liked_loaded(&Vec::new(), &Vec::new(), &Vec::new());
    assert_eq!(
        toggled_like(&mut library, "track", "4", false, Some("no".into())).as_deref(),
        Some("no")
    );
    assert!(!library.is_liked_track(4));
    assert_eq!(toggled_like(&mut library, "track", "4", false, None), None);
    assert!(library.is_liked_track(4));
    assert_eq!(heart(true, true), ("♥ Following", "unfollow"));
    assert_eq!(heart(false, false), ("♡ Like", "like"));
}

#[test]
fn lists_say_when_they_are_empty() {
    assert_eq!(list_message(None), Some("loading…"));
    assert_eq!(list_message(Some(0)), Some("nothing here"));
    assert_eq!(list_message(Some(2)), None);
    assert_eq!(export_name(20), "two_khz (20 tracks)");
    assert_eq!(exported(Ok(5)), "exported as playlist 5");
    assert_eq!(exported(Err("no".into())), "no");
}

#[test]
fn controls_follow_the_mode() {
    let nav = nav();
    let mut generator = Generator::new();
    let shown = controls(&generator, &nav.catalog, Some(1), false);
    assert!(shown.can_run && shown.count && shown.ends.is_none() && shown.empty);
    assert_eq!(shown.run_label, "generate");
    generator.mode = Mode::Path;
    generator.from = Some(1);
    let path = controls(&generator, &nav.catalog, None, false);
    assert!(!path.count && !path.can_run);
    assert_eq!(path.ends, Some(("Burial - t1".to_string(), "-".to_string())));
    assert_eq!(
        path_pill(&generator, &nav.catalog),
        Some((1, "Burial - t1".to_string()))
    );
    cancel_path(&mut generator);
    assert_eq!(path_pill(&generator, &nav.catalog), None);
    generator.mode = Mode::Drift;
    assert!(controls(&generator, &nav.catalog, None, true).needs_tower);
}

#[test]
fn a_moved_weight_offers_a_reset() {
    let bits = |v: f32| v.to_bits();
    let defaults = vec![("a".to_string(), bits(1.0)), ("b".to_string(), bits(2.0))];
    let mut current: Vec<(String, u32)> =
        defaults.iter().map(|(n, w)| (n.clone(), *w)).collect();
    let differs = |a: u32, b: u32| (f32::from_bits(a) - f32::from_bits(b)).abs() > 1e-6;
    assert!(!weights_changed(&defaults, &current, differs));
    set_weight(&mut current, "b", bits(0.5));
    assert!(weights_changed(&defaults, &current, differs));
    assert_eq!(weight(&current, "b"), Some(bits(0.5)));
    assert_eq!(weight(&current, "a"), Some(bits(1.0)));
    assert_eq!(weight(&current, "c"), None);
}

#[test]
fn an_album_is_in_reach_while_one_of_its_tracks_shows() {
    let mut catalog = nav().catalog;
    for (i, track) in catalog.tracks.iter_mut().enumerate() {
        track.artist_id = i as i64;
        track.album_id = format!("album {i}");
    }
    catalog.blocked_artists.insert(0);
    let all = reach(&catalog);
    assert!(!all.has_album("album 0") && !all.has_artist(0));
    assert!(all.has_album("album 1") && all.has_artist(1));
    assert!(!all.has_album("album 99") && !all.has_artist(99));
}
