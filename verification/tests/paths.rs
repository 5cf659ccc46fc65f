use std::collections::{HashMap, HashSet};
use two_khz::db::{Catalog, TrackMeta};
use two_khz::paths::{Constraints, Navigator, UNIT};
use two_khz::space::Score;
use two_khz::ui::generate::{Recipe, Walk};

fn meta(track_id: i64, artist_id: i64) -> TrackMeta {
    TrackMeta {
        track_id,
        title: format!("track {track_id}"),
        artist: format!("artist {artist_id}"),
        album: String::new(),
        genre: String::new(),
        artist_id,
        album_id: String::new(),
        bpm: None,
        seed_distance: 0,
        isrc: None,
        x: None,
        y: None,
    }
}

/// Points on a unit circle, one per track id. Cosine distance between two of
/// them grows with the angle between them, so the shortest route through a set
/// of them is simply angle order.
struct Circle {
    nav: Navigator,
    angles: Vec<f32>,
}

impl Circle {
    fn similarity(&self, a: usize, b: usize) -> f32 {
        let (a, b) = (self.angles[a].to_radians(), self.angles[b].to_radians());
        a.cos() * b.cos() + a.sin() * b.sin()
    }

    fn distance(&self, a: usize, b: usize) -> i32 {
        ((1.0 - self.similarity(a, b)) as f64 * UNIT as f64) as i32
    }

    fn scores(&self, row: usize) -> Vec<Score> {
        (0..self.angles.len())
            .map(|j| Score::At((self.similarity(row, j) as f64 * 1e9) as i64))
            .collect()
    }

    fn order(&self, ids: &[i64], from: Option<i64>) -> Vec<i64> {
        self.nav.shortest_path_order(ids, from, |a, b| self.distance(a, b))
    }
}

fn circle(angles_deg: &[(i64, f32)]) -> Circle {
    let mut tracks = Vec::new();
    let mut index_of = HashMap::new();
    let mut angles = Vec::new();
    for (row, &(id, degrees)) in angles_deg.iter().enumerate() {
        tracks.push(meta(id, -1));
        index_of.insert(id, row);
        angles.push(degrees);
    }
    let catalog =
        Catalog { tracks, clap: None, clap_dims: 0, blocked_artists: HashSet::new() };
    Circle { nav: Navigator::new(index_of, catalog), angles }
}

fn fixture() -> Circle {
    circle(&[(10, 0.0), (11, 10.0), (12, 20.0), (13, 30.0), (14, 40.0), (15, 50.0)])
}

fn free() -> Constraints {
    Constraints {
        artist_cooldown: 0,
        max_bpm_delta: None,
        allow_same_album_consecutive: true,
        exclude: HashSet::new(),
    }
}

#[test]
fn orders_by_distance_from_the_anchor() {
    let nav = fixture();
    assert_eq!(nav.order(&[13, 11, 15, 12, 14], Some(10)), vec![11, 12, 13, 14, 15]);
}

#[test]
fn without_an_anchor_the_first_track_stays_first() {
    let nav = fixture();
    let ordered = nav.order(&[13, 11, 15, 12, 14], None);
    assert_eq!(ordered[0], 13, "the anchorless start is held in place");

    // Whatever route it picks from there, nothing may be lost or repeated.
    let mut seen = ordered.clone();
    seen.sort();
    assert_eq!(seen, vec![11, 12, 13, 14, 15]);
}

#[test]
fn drops_ids_the_space_does_not_hold() {
    let nav = fixture();
    assert_eq!(nav.order(&[14, 999, 12, 998, 11], Some(10)), vec![11, 12, 14]);
}

#[test]
fn keeps_both_copies_of_a_repeated_track() {
    let nav = fixture();
    let ordered = nav.order(&[14, 12, 14, 11], Some(10));

    let mut seen = ordered.clone();
    seen.sort();
    assert_eq!(seen, vec![11, 12, 14, 14], "queued twice, played twice");

    // Two copies sit at zero distance, so nothing can come between them.
    let first = ordered.iter().position(|&id| id == 14).unwrap();
    assert_eq!(ordered[first + 1], 14);
}

#[test]
fn too_few_to_reorder_passes_through() {
    let nav = fixture();
    assert_eq!(nav.order(&[14, 11], Some(10)), vec![14, 11]);
    assert!(nav.order(&[], Some(10)).is_empty());
}

fn ids(steps: &[two_khz::paths::Step]) -> Vec<i64> {
    steps.iter().map(|s| s.track.track_id).collect()
}

#[test]
fn neighbours_are_the_nearest_and_never_the_track_itself() {
    let c = fixture();
    let steps = c.nav.neighbours(12, 3, false, |row| c.scores(row));
    assert_eq!(steps.len(), 3);
    let found = ids(&steps);
    assert!(!found.contains(&12));
    assert!(found.contains(&11) && found.contains(&13));
    assert!(c.nav.neighbours(999, 3, false, |row| c.scores(row)).is_empty());
}

#[test]
fn a_blocked_artist_is_never_a_neighbour() {
    let mut c = fixture();
    for (i, track) in c.nav.catalog.tracks.iter_mut().enumerate() {
        track.artist_id = i as i64;
    }
    c.nav.catalog.blocked_artists.insert(1);
    let steps = c.nav.neighbours(10, 1, false, |row| c.scores(row));
    assert_eq!(ids(&steps), vec![12]);
}

#[test]
fn a_radio_walk_visits_no_track_twice() {
    let c = fixture();
    let walk = c.nav.radio_nearest(10, 5, &free(), |row, _counts| c.scores(row));
    let found = ids(&walk);
    assert_eq!(found, vec![10, 11, 12, 13, 14]);
}

#[test]
fn a_radio_walk_keeps_an_artist_away() {
    let mut c = fixture();
    for (i, track) in c.nav.catalog.tracks.iter_mut().enumerate() {
        track.artist_id = (i % 2) as i64;
    }
    let mut rules = free();
    rules.artist_cooldown = 1;
    let walk = c.nav.radio_nearest(10, 4, &rules, |row, _counts| c.scores(row));
    for pair in walk.windows(2) {
        assert_ne!(pair[0].track.artist_id, pair[1].track.artist_id);
    }
}

#[test]
fn a_graph_path_leads_from_one_end_to_the_other() {
    let mut c = fixture();
    let angles = c.angles.clone();
    let near = |row: usize| {
        let similarity = |j: usize| {
            let (a, b) = (angles[row].to_radians(), angles[j].to_radians());
            a.cos() * b.cos() + a.sin() * b.sin()
        };
        let scores: Vec<Score> =
            (0..angles.len()).map(|j| Score::At((similarity(j) as f64 * 1e9) as i64)).collect();
        let distances: Vec<i32> = (0..angles.len())
            .map(|j| ((1.0 - similarity(j)) as f64 * UNIT as f64) as i32)
            .collect();
        (scores, distances)
    };
    let path = c.nav.graph_path(10, 15, 2, near);
    let found = ids(&path);
    assert_eq!(found.first(), Some(&10));
    assert_eq!(found.last(), Some(&15));
    let mut unique = found.clone();
    unique.sort();
    unique.dedup();
    assert_eq!(unique.len(), found.len());
    assert!(c.nav.graph_path(10, 999, 2, near).is_empty());
}

#[test]
fn an_even_path_is_paced_between_its_ends() {
    let c = fixture();
    let at = |from: usize, to: Vec<usize>, step: usize| {
        // Angles are evenly spaced, so aim at the angle that far along.
        let target = c.angles[from]
            + (c.angles[to[0]] - c.angles[from]) * step as f32 / 4.0;
        (0..c.angles.len())
            .map(|j| Score::At(-((c.angles[j] - target).abs() * 1000.0) as i64))
            .collect::<Vec<Score>>()
    };
    let walk = c.nav.interpolate(10, 14, 5, &free(), at);
    assert_eq!(ids(&walk), vec![10, 11, 12, 13, 14]);
}

#[test]
fn masked_scores_are_the_blocked_rows() {
    let mut c = fixture();
    c.nav.catalog.tracks[2].artist_id = 9;
    c.nav.catalog.blocked_artists.insert(9);
    let mut scores = vec![Score::At(1); 6];
    c.nav.mask_blocked(&mut scores);
    assert_eq!(scores[2], Score::Masked);
    assert_eq!(scores[1], Score::At(1));
}

#[test]
fn repeats_count_earlier_uses_of_an_artist() {
    let mut c = fixture();
    for track in c.nav.catalog.tracks.iter_mut() {
        track.artist_id = 4;
    }
    let counts = c.nav.count_repeats(&[0, 1]);
    assert_eq!(counts.len(), 6);
    assert_eq!(counts[5], 2);
}

#[test]
fn the_same_start_gives_the_same_walk_again() {
    let c = fixture();
    let radio = || -> Vec<i64> {
        c.nav
            .radio_nearest(12, 4, &free(), |row, _| c.scores(row))
            .iter()
            .map(|step| step.track.track_id)
            .collect()
    };
    assert_eq!(radio(), vec![12, 11, 10, 13]);
    assert_eq!(radio(), radio());

    let even = || -> Vec<i64> {
        c.nav
            .interpolate(10, 15, 4, &free(), |_, to, step| c.scores(if step == 1 { 1 } else { to[0] }))
            .iter()
            .map(|step| step.track.track_id)
            .collect()
    };
    assert_eq!(even(), vec![10, 11, 14, 15]);
    assert_eq!(even(), even());
}

#[test]
fn neighbours_in_a_walk_differ_in_album_and_stay_close_in_tempo() {
    let mut c = fixture();
    for (row, (album, bpm)) in
        [("a", 100), ("a", 101), ("b", 102), ("c", 160), ("d", 104), ("d", 105)].iter().enumerate()
    {
        c.nav.catalog.tracks[row].album_id = album.to_string();
        c.nav.catalog.tracks[row].bpm = Some(*bpm * UNIT);
    }
    let strict = Constraints {
        artist_cooldown: 3,
        max_bpm_delta: Some(10 * UNIT),
        allow_same_album_consecutive: false,
        exclude: HashSet::new(),
    };
    let walk = c.nav.radio_nearest(10, 6, &strict, |row, _| c.scores(row));
    let ids: Vec<i64> = walk.iter().map(|step| step.track.track_id).collect();
    // 11 shares its album with 10, and 13 is too fast for anything here.
    assert_eq!(ids, vec![10, 12, 11, 14]);
}

#[test]
fn asking_for_more_neighbours_than_there_are_gives_those_there_are() {
    let mut c = fixture();
    let all = c.nav.neighbours(12, 99, false, |row| c.scores(row));
    assert_eq!(all.len(), 5);
    assert!(!ids(&all).contains(&12));
    assert!(all.iter().all(|step| matches!(step.similarity, Some(Score::At(_)))));
    let near = |step: &two_khz::paths::Step| match step.similarity {
        Some(Score::At(n)) => n,
        _ => panic!("a neighbour has a similarity"),
    };
    for pair in all.windows(2) {
        assert!(near(&pair[0]) >= near(&pair[1]));
    }

    for (i, track) in c.nav.catalog.tracks.iter_mut().enumerate() {
        track.artist_id = (i % 3) as i64;
    }
    c.nav.catalog.blocked_artists.insert(1);
    assert_eq!(ids(&c.nav.neighbours(10, 99, false, |row| c.scores(row))), vec![12, 13, 15]);
    assert_eq!(ids(&c.nav.neighbours(10, 99, true, |row| c.scores(row))), vec![12, 15]);
    assert_eq!(ids(&c.nav.neighbours(10, 1, true, |row| c.scores(row))), vec![12]);

    let alone = circle(&[(1, 0.0)]);
    assert!(alone.nav.neighbours(1, 1, false, |row| alone.scores(row)).is_empty());
}

#[test]
fn a_hidden_row_anchors_nothing() {
    let mut c = fixture();
    for (i, track) in c.nav.catalog.tracks.iter_mut().enumerate() {
        track.artist_id = (i % 2) as i64;
    }
    c.nav.catalog.clap = Some(vec![0; 12]);
    c.nav.catalog.clap_dims = 2;
    let score = |row: usize| Score::At(row as i64);
    assert_eq!(c.nav.text_anchors(&[0, 0], 99, score), vec![5, 4, 3, 2, 1, 0]);
    c.nav.catalog.blocked_artists.insert(1);
    assert_eq!(c.nav.text_anchors(&[0, 0], 99, score), vec![4, 2, 0]);
    assert_eq!(c.nav.text_anchors(&[0, 0], 2, score), vec![4, 2]);
    assert!(c.nav.text_anchors(&[0], 2, score).is_empty());
    c.nav.catalog.blocked_artists.insert(0);
    assert!(c.nav.text_anchors(&[0, 0], 99, score).is_empty());
    assert!(c.nav.text_target(&[0, 0], 99, score).is_none());
}

#[test]
fn a_walk_is_the_one_its_recipe_names() {
    let c = fixture();
    let mut nav = fixture().nav;
    nav.catalog.clap = Some(vec![0; 6]);
    nav.catalog.clap_dims = 1;
    let mut produced = |recipe: Recipe, count: usize| {
        let walk = Walk { recipe, count, artist_penalty: 0 };
        let steps = walk.produce(
            &mut nav,
            &[0],
            |row: usize| c.scores(row),
            |row: usize, _used: Vec<usize>| c.scores(row),
            |_from: usize, to: Vec<usize>, _step: usize| c.scores(to[0]),
            |row: usize| {
                (c.scores(row), (0..6).map(|j| c.distance(row, j)).collect::<Vec<i32>>())
            },
            |row: usize| Score::At(row as i64),
        );
        (ids(&steps), nav.knn.is_some())
    };
    assert_eq!(produced(Recipe::Neighbours { seed: 10 }, 2), (vec![11, 12], false));
    assert_eq!(produced(Recipe::Radio { seed: 10 }, 3), (vec![10, 11, 12], false));
    let even = produced(Recipe::Path { a: 10, b: 15, even: true }, 3);
    assert_eq!(even, (vec![10, 14, 15], false));
    let drift = produced(Recipe::Drift { seed: 10, phrase: "slow".into() }, 2);
    assert_eq!(drift, (vec![10, 15], false));
    let (route, kept) = produced(Recipe::Path { a: 10, b: 12, even: false }, 0);
    assert_eq!((route.first(), route.last()), (Some(&10), Some(&12)));
    assert!(kept);
}
