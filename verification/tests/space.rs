use std::collections::HashSet;
use two_khz::db::{clap_matrix, decode_clap, Catalog, Row, TrackMeta};
use two_khz::engine::{
    engine, engine_ready, init_engine, reload_engine, Engine, Loaded,
};
use two_khz::space::{
    argsort_desc, index_rows, top_k, Block, Manifest, Score, SemanticPca, Space, SpaceError,
    SPACE_VERSION, UNWEIGHTED,
};

fn block(name: &str, start: usize, end: usize) -> Block {
    Block {
        name: name.into(),
        start,
        end,
        columns: Vec::new(),
        default_weight: UNWEIGHTED,
        mean: Vec::new(),
        std: Vec::new(),
    }
}

fn manifest() -> Manifest {
    Manifest {
        version: SPACE_VERSION.into(),
        built_at: String::new(),
        n_tracks: 2,
        n_dims: 3,
        track_ids: vec![10, 20],
        blocks: vec![block("a", 0, 2), block("b", 2, 3)],
        weights: vec![("a".into(), 2.0_f32.to_bits())],
        semantic_pca: SemanticPca { file: "pca.bin".into(), input_dim: 2, n_components: 2 },
    }
}

#[test]
fn a_space_is_loaded_where_its_parts_agree() {
    let space = Space::load(manifest(), 24).ok().unwrap();
    assert_eq!(space.index_of.get(&20), Some(&1));
    assert_eq!(space.default_weights().len(), 1);
    let two = 2.0_f32.to_bits();
    let default = space.default_weights().iter().map(|(n, w)| (n.clone(), *w)).collect::<Vec<_>>();
    assert_eq!(space.scale(&default), vec![two, two, UNWEIGHTED]);
    assert_eq!(space.scale(&[]), vec![UNWEIGHTED; 3]);
}

#[test]
fn a_space_of_another_format_is_refused() {
    let mut other = manifest();
    other.version = "space-0".into();
    let refused = Space::load(other, 24).err().unwrap();
    assert!(matches!(refused, SpaceError::Format { .. }));
    assert!(refused.message().starts_with("space.json is format space-0, this build reads space-1"));
}

#[test]
fn blocks_have_to_cover_the_dimensions() {
    let mut short = manifest();
    short.blocks.pop();
    assert_eq!(
        short.check().err().unwrap().message(),
        "space.json blocks cover 2 dims but n_dims is 3, rebuild the space"
    );
}

#[test]
fn the_vectors_have_to_be_as_long_as_said() {
    assert_eq!(
        Space::load(manifest(), 20).err().unwrap().message(),
        "space.bin is 20 bytes, manifest implies 24 (2x3 f32), rebuild the space"
    );
}

#[test]
fn a_projection_is_split_into_mean_and_components() {
    let space = Space::load(manifest(), 24).ok().unwrap();
    let (mean, components) = space.semantic_pca("p", &[1, 2, 3, 4, 5, 6]).ok().unwrap();
    assert_eq!(mean, [1, 2]);
    assert_eq!(components, [3, 4, 5, 6]);
    assert_eq!(
        space.semantic_pca("p", &[1]).err().unwrap().message(),
        "p has 1 floats, expected 6"
    );
}

#[test]
fn ranking_is_by_score_and_then_by_row() {
    let scores = [Score::At(1), Score::Masked, Score::At(5), Score::At(5)];
    assert_eq!(argsort_desc(&scores), [2, 3, 0, 1]);
    assert_eq!(top_k(&scores, 2), [2, 3]);
    assert_eq!(top_k(&scores, 9), [2, 3, 0, 1]);
    assert!(top_k(&scores, 0).is_empty());
}

#[test]
fn an_id_listed_twice_keeps_its_last_row() {
    let rows = index_rows(&[7, 8, 7]);
    assert_eq!(rows.get(&7), Some(&2));
    assert_eq!(rows.len(), 2);
}

fn row(id: i64, artist_id: Option<i64>) -> Row {
    Row {
        id,
        title: format!("t{id}"),
        artist_id,
        album_id: None,
        seed_distance: 1,
        artist: Some("a".into()),
        album: None,
        genre: None,
        bpm: None,
        x: None,
        y: None,
        isrc: None,
    }
}

#[test]
fn metadata_stands_in_the_order_of_the_space() {
    let blocked: HashSet<i64> = [5].into_iter().collect();
    let catalog =
        Catalog::load(&[row(20, Some(5)), row(10, None)], &[10, 20, 30], (None, 0), blocked);
    let ids: Vec<i64> = catalog.tracks.iter().map(|t| t.track_id).collect();
    assert_eq!(ids, [10, 20, 30]);
    assert_eq!(catalog.get(0).artist_id, -1);
    assert_eq!(catalog.get(2).title, "<missing 30>");
    assert_eq!(catalog.len(), 3);
    assert!(!catalog.is_empty());
    assert!(catalog.is_blocked(1) && !catalog.is_blocked(0));
    assert!(catalog.is_blocked_id(20));
    assert_eq!(catalog.visible(), [0, 2]);
    assert!(catalog.id_set().contains(&10) && !catalog.id_set().contains(&20));
    assert_eq!(TrackMeta::from_row(&row(4, Some(9))).artist_id, 9);
}

#[test]
fn embeddings_are_decoded_word_by_word() {
    let one = 1.0_f32.to_ne_bytes().to_vec();
    let stored = decode_clap(&[(10, one), (11, vec![1, 2, 3])]);
    assert_eq!(stored.len(), 1);
    assert_eq!(stored[0].1, [1.0_f32.to_bits()]);
    let (matrix, dims) = clap_matrix(&stored, &[11, 10]);
    assert_eq!(dims, 1);
    assert_eq!(matrix.unwrap(), [0, 1.0_f32.to_bits()]);
    let (none, zero) = clap_matrix(&[], &[1]);
    assert!(none.is_none() && zero == 0);
}

fn loaded() -> Loaded {
    Loaded {
        manifest: manifest(),
        bytes: 24,
        rows: vec![row(10, Some(1)), row(20, Some(2))],
        clap: (None, 0),
        blocked_artists: HashSet::new(),
    }
}

#[test]
fn an_engine_is_loaded_once_and_then_swapped() {
    let mut slot = None;
    assert!(!engine_ready(&slot));
    assert!(init_engine(&mut slot, Engine::load("/one".into(), loaded())).is_ok());
    assert!(init_engine(&mut slot, Engine::load("/two".into(), loaded())).is_ok());
    assert_eq!(engine(&slot).data_dir, "/one");
    assert!(reload_engine(&mut slot, Engine::load("/three".into(), loaded())).is_ok());
    assert_eq!(engine(&slot).data_dir, "/three");
    let mut broken = loaded();
    broken.bytes = 1;
    assert!(reload_engine(&mut slot, Engine::load("/four".into(), broken)).is_err());
    assert_eq!(engine(&slot).data_dir, "/three");
}

#[test]
fn blocking_only_filters() {
    let mut engine = Engine::load("/d".into(), loaded()).ok().unwrap();
    assert!(!engine.has_audio_embeddings());
    engine.set_blocked([2].into_iter().collect());
    assert_eq!(engine.blocked_count(), 1);
    assert_eq!(engine.navigator.catalog.visible(), [0]);
    assert!(engine.refresh_blocked::<String>(Err("locked".into())).is_err());
    assert_eq!(engine.blocked_count(), 1);
    assert!(engine.refresh_blocked::<String>(Ok(HashSet::new())).is_ok());
    assert_eq!(engine.blocked_count(), 0);
    assert_eq!(engine.navigator.index_of.len(), 2);
    assert_eq!(engine.navigator.catalog.tracks.len(), 2);
    engine.set_weights(&[("b".into(), 0)]);
    assert_eq!(engine.scale, [UNWEIGHTED, UNWEIGHTED, 0]);
}
