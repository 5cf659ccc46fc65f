use std::collections::HashSet;
use two_khz::db::{Catalog, TrackMeta};
use two_khz::map::{laid_out, meta, payload, Bounds};

fn track(track_id: i64, genre: &str, at: Option<(f32, f32)>) -> TrackMeta {
    TrackMeta {
        track_id,
        title: String::new(),
        artist: String::new(),
        album: String::new(),
        genre: genre.into(),
        artist_id: track_id,
        album_id: String::new(),
        bpm: None,
        seed_distance: 0,
        isrc: None,
        x: at.map(|p| p.0.to_bits()),
        y: at.map(|p| p.1.to_bits()),
    }
}

fn catalog(tracks: Vec<TrackMeta>) -> Catalog {
    Catalog { tracks, clap: None, clap_dims: 0, blocked_artists: HashSet::new() }
}

#[test]
fn the_points_are_the_visible_tracks_with_coordinates() {
    let mut all = catalog(vec![
        track(1, "dub", Some((0.5, -2.0))),
        track(2, "ambient", None),
        track(3, "dub", Some((-1.5, 4.0))),
        track(4, "house", Some((9.0, 9.0))),
    ]);
    all.blocked_artists.insert(4);
    assert_eq!(laid_out(&all), [0, 2]);
    let described = meta(&all);
    assert_eq!(described.n, 2);
    assert!(described.has_layout);
    assert_eq!(described.genres, ["dub"]);
    assert_eq!(f32::from_bits(described.bounds.min_x), -1.5);
    assert_eq!(f32::from_bits(described.bounds.max_x), 0.5);
    assert_eq!(f32::from_bits(described.bounds.min_y), -2.0);
    assert_eq!(f32::from_bits(described.bounds.max_y), 4.0);
}

#[test]
fn nothing_laid_out_has_no_bounds() {
    let described = meta(&catalog(vec![track(1, "x", None)]));
    assert!(!described.has_layout);
    assert_eq!(described.bounds, Bounds::default());
}

#[test]
fn the_points_are_packed_ids_first() {
    let all = catalog(vec![track(7, "a", Some((1.0, 2.0))), track(8, "b", Some((3.0, 4.0)))]);
    let bytes = payload(&all, |id| (id as f64).to_bits());
    let mut expected = Vec::new();
    for id in [7.0_f64, 8.0] {
        expected.extend_from_slice(&id.to_le_bytes());
    }
    for c in [1.0_f32, 2.0, 3.0, 4.0] {
        expected.extend_from_slice(&c.to_le_bytes());
    }
    for genre in [0_u16, 1] {
        expected.extend_from_slice(&genre.to_le_bytes());
    }
    assert_eq!(bytes, expected);
}
