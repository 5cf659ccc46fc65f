use std::collections::HashSet;
use two_khz::db::{Catalog, TrackMeta};
use two_khz::paths::Step;
use two_khz::ui::generate::{
    as_remote, dedup_by_recording, describe, label_for, Generator, Mode, PathEnd, Recipe,
};

fn step(track_id: i64, isrc: Option<&str>) -> Step {
    Step {
        track: TrackMeta {
            track_id,
            title: format!("track {track_id}"),
            artist: "someone".into(),
            album: String::new(),
            genre: String::new(),
            artist_id: 1,
            album_id: String::new(),
            bpm: None,
            seed_distance: 0,
            isrc: isrc.map(str::to_string),
            x: None,
            y: None,
        },
        similarity: None,
    }
}

/// Two different track ids, same recording.
#[test]
fn drops_a_second_row_with_the_same_isrc() {
    let steps = vec![step(1, Some("GBAAA0000001")), step(2, Some("gbaaa0000001"))];
    let kept = dedup_by_recording(steps);
    assert_eq!(kept.len(), 1);
    assert_eq!(kept[0].track.track_id, 1);
}

/// No ISRC is not the same as a shared one.
#[test]
fn untagged_tracks_are_never_treated_as_duplicates() {
    let steps = vec![step(1, None), step(2, None)];
    assert_eq!(dedup_by_recording(steps).len(), 2);
}

#[test]
fn distinct_recordings_all_survive() {
    let steps = vec![
        step(1, Some("GBAAA0000001")),
        step(2, Some("GBAAA0000002")),
        step(3, None),
    ];
    assert_eq!(dedup_by_recording(steps).len(), 3);
}

#[test]
fn a_result_that_is_empty_says_so() {
    let mut generator = Generator::new();
    let walk = generator.request(Mode::Neighbours, 7).unwrap();
    assert!(generator.busy);
    generator.finish(walk, Vec::new());
    assert_eq!(generator.status.as_deref(), Some("nothing found, try a different start"));
    assert!(!generator.busy);
}

#[test]
fn a_path_runs_once_both_ends_are_named() {
    let mut generator = Generator::new();
    assert!(generator.set_path_end(PathEnd::A, 1).is_none());
    assert!(!generator.busy);
    let walk = generator.set_path_end(PathEnd::B, 2).unwrap();
    assert!(matches!(walk.recipe, Recipe::Path { a: 1, b: 2, even: false }));
    assert!(generator.busy);
}

#[test]
fn a_recipe_run_again_asks_the_same_question() {
    let mut generator = Generator::new();
    generator.mode = Mode::Radio;
    let recipe = Recipe::Drift { seed: 4, phrase: "darker".into() };
    let walk = generator.rerun(&recipe).unwrap();
    match walk.recipe {
        Recipe::Drift { seed, phrase } => {
            assert_eq!(seed, 4);
            assert_eq!(phrase, "darker");
        }
        _ => panic!("not the recipe that was asked for"),
    }
    assert_eq!(generator.mode, Mode::Drift);
    assert_eq!(generator.phrase, "darker");
}

#[test]
fn moving_the_weights_keeps_the_rows_and_says_so() {
    let mut generator = Generator::new();
    generator.invalidate();
    assert!(!generator.stale);
    let walk = generator.request(Mode::Radio, 1).unwrap();
    generator.finish(walk, vec![step(1, None)]);
    generator.invalidate();
    assert!(generator.stale);
    assert_eq!(generator.result.len(), 1);
    generator.clear();
    assert!(generator.result.is_empty() && !generator.stale);
}

#[test]
fn drift_needs_a_phrase_and_a_selection() {
    let mut generator = Generator::new();
    generator.aim_drift();
    assert!(!generator.ready(Some(1)));
    generator.phrase = "  ".into();
    assert!(!generator.ready(Some(1)));
    generator.phrase = "warm".into();
    assert!(generator.ready(Some(1)));
    assert!(!generator.ready(None));
    assert!(!generator.can_steer(true));
    generator.tower = true;
    assert!(generator.can_steer(true) && !generator.can_steer(false));
}

#[test]
fn a_failed_walk_keeps_what_was_there() {
    let mut generator = Generator::new();
    generator.run(Some(1));
    generator.fail("no tower".into());
    assert_eq!(generator.status.as_deref(), Some("no tower"));
    assert!(!generator.busy);
    assert!(generator.run(None).is_none());
    assert!(!generator.busy);
}

fn catalog() -> Catalog {
    Catalog {
        tracks: vec![step(1, None).track, step(2, None).track],
        clap: None,
        clap_dims: 0,
        blocked_artists: HashSet::new(),
    }
}

#[test]
fn a_heading_says_what_made_the_rows() {
    let catalog = catalog();
    assert_eq!(
        describe(&catalog, &Recipe::Neighbours { seed: 1 }),
        "Neighbours of someone - track 1"
    );
    assert_eq!(describe(&catalog, &Recipe::Radio { seed: 9 }), "Radio from 9");
    assert_eq!(
        describe(&catalog, &Recipe::Path { a: 1, b: 2, even: true }),
        "Path someone - track 1 → someone - track 2, evenly paced"
    );
    assert_eq!(
        describe(&catalog, &Recipe::Drift { seed: 2, phrase: "warm".into() }),
        "Drift from someone - track 2 towards “warm”"
    );
    assert_eq!(label_for(&catalog, None), "-");
}

#[test]
fn a_space_track_is_presented_with_a_guessed_cover() {
    let mut meta = step(5, None).track;
    meta.album_id = "3610159663848".into();
    meta.artist_id = -1;
    let track = as_remote(&meta);
    assert_eq!(track.artist_id, None);
    assert!(track.streamable);
    assert_eq!(
        track.image.as_deref(),
        Some("https://static.qobuz.com/images/covers/48/38/3610159663848_230.jpg")
    );
}

#[test]
fn a_route_is_traced_only_while_it_is_looked_at() {
    let mut generator = Generator::new();
    let walk = generator.request(Mode::Radio, 1).unwrap();
    generator.finish(walk, vec![step(1, None), step(2, None)]);
    assert_eq!(generator.route(true), vec![1, 2]);
    assert!(generator.route(false).is_empty());
    assert_eq!(generator.playable().len(), 2);
}
