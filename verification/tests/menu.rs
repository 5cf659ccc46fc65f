use std::collections::{HashMap, HashSet};
use two_khz::api::BlockedArtist;
use two_khz::db::Catalog;
use two_khz::paths::Navigator;
use two_khz::qobuz::{RemoteAlbum, RemoteArtist, RemoteTrack};
use two_khz::ui::context::Blocklist;
use two_khz::ui::generate::Generator;
use two_khz::ui::library::{Shelf, View};
use two_khz::ui::menu::{
    choose_queue_entry, choose_shelf_album, choose_shelf_artist, choose_shelf_track,
    choose_space_track, queue_menu, shelf_album_menu, shelf_artist_menu, shelf_track_menu,
    space_track_menu, Choice, Intent, MenuTarget, Playback,
};
use two_khz::ui::player::Player;

/// Every variant: one that fails to parse is a row whose long press does
/// nothing.
#[test]
fn every_target_survives_the_round_trip() {
    let cases = [
        MenuTarget::ShelfTrack(0),
        MenuTarget::ShelfTrack(12),
        MenuTarget::ShelfAlbum(3),
        MenuTarget::ShelfArtist { index: 4, similar: true },
        MenuTarget::ShelfArtist { index: 0, similar: false },
        MenuTarget::QueueEntry(7),
        MenuTarget::SpaceTrack(8_841_102),
        MenuTarget::SpaceTrack(-1),
    ];

    for target in cases {
        let tag = target.tag();
        assert_eq!(
            MenuTarget::parse(&tag),
            Some(target.clone()),
            "{tag} did not round-trip"
        );
    }
}

#[test]
fn rubbish_parses_to_nothing_rather_than_a_wrong_row() {
    for text in ["", "shelf-track", "shelf-track:x", "nope:1", "shelf-artist:1:sideways"] {
        assert_eq!(MenuTarget::parse(text), None, "{text:?} should not parse");
    }
}

#[test]
fn an_address_reads_as_numbers_do() {
    assert_eq!(MenuTarget::parse("queue:+7"), Some(MenuTarget::QueueEntry(7)));
    assert_eq!(MenuTarget::parse("queue:-0"), None);
    assert_eq!(MenuTarget::parse("queue:7:more"), Some(MenuTarget::QueueEntry(7)));
    assert_eq!(MenuTarget::parse("shelf-artist:1"), None);
    assert_eq!(MenuTarget::parse("space-track:-12"), Some(MenuTarget::SpaceTrack(-12)));
    assert_eq!(
        MenuTarget::ShelfArtist { index: 4, similar: true }.tag(),
        "shelf-artist:4:similar"
    );
}

fn track(id: i64, artist_id: Option<i64>) -> RemoteTrack {
    RemoteTrack {
        id,
        title: format!("t{id}"),
        artist: "Burial".into(),
        artist_id,
        ..Default::default()
    }
}

fn shelf() -> Shelf {
    Shelf {
        tracks: vec![track(1, Some(5)), track(2, Some(6)), track(3, None)],
        albums: vec![RemoteAlbum {
            id: "al".into(),
            title: "Untrue".into(),
            artist: "Burial".into(),
            artist_id: Some(6),
            ..Default::default()
        }],
        artists: vec![RemoteArtist {
            id: 6,
            name: "Burial".into(),
            albums_count: None,
            image: None,
        }],
        ..Default::default()
    }
}

fn hiding(ids: &[i64]) -> Blocklist {
    Blocklist {
        artists: ids
            .iter()
            .map(|&artist_id| BlockedArtist { artist_id, name: String::new(), reason: None })
            .collect(),
    }
}

fn labels(menu: &two_khz::ui::menu::Menu) -> Vec<&str> {
    menu.items.iter().map(|i| i.label.as_str()).collect()
}

#[test]
fn an_index_is_a_place_among_the_visible_rows() {
    let blocked = hiding(&[5]);
    match choose_shelf_track(&shelf(), &blocked, 0, Choice::PlayNext) {
        Intent::PlayNext { track } => assert_eq!(track.id, 2),
        other => panic!("{other:?}"),
    }
    match choose_shelf_track(&shelf(), &blocked, 1, Choice::PlayNow) {
        Intent::Play { queue, index } => {
            assert_eq!(queue.len(), 2);
            assert_eq!(index, 1);
        }
        other => panic!("{other:?}"),
    }
    assert_eq!(choose_shelf_track(&shelf(), &blocked, 9, Choice::AddToQueue), Intent::Nothing);
}

#[test]
fn only_a_track_of_the_space_can_be_walked_from() {
    let generator = Generator::new();
    let nobody = hiding(&[]);
    let outside = shelf_track_menu(&shelf(), &nobody, &HashSet::new(), &generator, 0).unwrap();
    assert_eq!(labels(&outside), ["Play now", "Play next", "Add to queue", "Hide Burial"]);
    let inside: HashSet<i64> = [1].into_iter().collect();
    let menu = shelf_track_menu(&shelf(), &nobody, &inside, &generator, 0).unwrap();
    assert_eq!(
        labels(&menu),
        [
            "Play now",
            "Play next",
            "Add to queue",
            "Show on the map",
            "Find neighbours",
            "Start radio here",
            "Set as path A",
            "Set as path B",
            "Drift from here…",
            "Hide Burial",
        ]
    );
    assert!(shelf_track_menu(&shelf(), &nobody, &inside, &generator, 7).is_none());
}

#[test]
fn the_second_end_of_a_path_goes() {
    let mut generator = Generator::new();
    generator.from = Some(1);
    let inside: HashSet<i64> = [1, 2].into_iter().collect();
    let nobody = hiding(&[]);
    let same = shelf_track_menu(&shelf(), &nobody, &inside, &generator, 0).unwrap();
    assert!(same.items.iter().any(|i| i.choice == Choice::PathA && i.disabled));
    let other = shelf_track_menu(&shelf(), &nobody, &inside, &generator, 1).unwrap();
    assert!(labels(&other).contains(&"Set as path B, and go"));
}

#[test]
fn an_album_is_fetched_before_it_is_played() {
    let nobody = hiding(&[]);
    assert_eq!(
        choose_shelf_album(&shelf(), &nobody, 0, Choice::PlayNext),
        Intent::AlbumTracks { album: "al".into(), then_play: Playback::Next }
    );
    assert!(matches!(
        choose_shelf_album(&shelf(), &nobody, 0, Choice::Open),
        Intent::Open { view: View::Album(_) }
    ));
    let menu = shelf_album_menu(&shelf(), &nobody, 0).unwrap();
    assert_eq!(
        labels(&menu),
        ["Open", "Play now", "Play next", "Add to queue", "Fetch into catalogue", "Hide Burial"]
    );
    assert!(shelf_album_menu(&shelf(), &hiding(&[6]), 0).is_none());
}

#[test]
fn an_artist_can_be_opened_fetched_and_hidden() {
    let nobody = hiding(&[]);
    let menu = shelf_artist_menu(&shelf(), &nobody, 0, false).unwrap();
    assert_eq!(labels(&menu), ["Open", "Fetch discography", "Hide everywhere"]);
    assert!(shelf_artist_menu(&shelf(), &nobody, 0, true).is_none());
    assert_eq!(
        choose_shelf_artist(&shelf(), &nobody, 0, false, Choice::Hide),
        Intent::Hide { artist_id: 6, name: "Burial".into() }
    );
}

#[test]
fn the_track_playing_cannot_be_started_again() {
    let mut player = Player::new();
    player.play_list(vec![track(1, None), track(2, None)], 0);
    player.index = 0;
    let first = queue_menu(&player, 0).unwrap();
    assert_eq!(
        labels(&first),
        ["Move up", "Move down", "Remove from queue", "Clear the queue"]
    );
    assert!(first.items[0].disabled && !first.items[1].disabled);
    let second = queue_menu(&player, 1).unwrap();
    assert_eq!(labels(&second)[0], "Play now");
    assert!(second.items[2].disabled);
    assert_eq!(choose_queue_entry(1, Choice::MoveUp), Intent::MoveBy { index: 1, delta: -1 });
}

#[test]
fn a_track_the_space_lost_has_no_menu() {
    let catalog = Catalog {
        tracks: Vec::new(),
        clap: None,
        clap_dims: 0,
        blocked_artists: HashSet::new(),
    };
    let nav = Navigator::new(HashMap::new(), catalog);
    assert!(space_track_menu(&nav, &Generator::new(), 1).is_none());
    assert_eq!(choose_space_track(&nav, 1, Choice::PlayNext), Intent::Nothing);
    assert_eq!(choose_space_track(&nav, 1, Choice::ShowOnMap), Intent::ShowOnMap { id: 1 });
}
