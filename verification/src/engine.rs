//! The loaded space, for the life of the process.

use crate::db::{Catalog, Row};
use crate::paths::Navigator;
use crate::space::{a_row_holds_its_track, index_rows, rows_of, scale_at, Manifest, Space, SpaceError};
use std::collections::HashSet;
use vstd::prelude::*;

verus! {

broadcast use vstd::std_specs::hash::group_hash_axioms;

/// Everything the navigation side needs, loaded once at startup.
pub struct Engine {
    pub data_dir: String,
    pub space: Space,
    pub navigator: Navigator,
    /// The weight of each dimension, as 32-bit patterns.
    pub scale: Vec<u32>,
}

/// `scale` is what `weights` make of the blocks of `space`.
pub open spec fn scaled(space: Space, weights: Seq<(String, u32)>, scale: Seq<u32>) -> bool {
    &&& scale.len() == space.manifest.n_dims
    &&& forall|d: int|
        0 <= d < scale.len() ==> #[trigger] scale[d] == scale_at(space.manifest.blocks@, weights, d)
}

/// What is read from disk to load a space.
pub struct Loaded {
    pub manifest: Manifest,
    /// The length of the vector file.
    pub bytes: usize,
    pub rows: Vec<Row>,
    /// The embeddings, and how long each is.
    pub clap: (Option<Vec<u32>>, usize),
    pub blocked_artists: HashSet<i64>,
}

impl Engine {
    /// The catalog and the space are about the same tracks.
    pub open spec fn wf(self) -> bool {
        &&& self.space.wf()
        &&& self.navigator.wf()
        &&& self.navigator.index_of@ == rows_of(self.space.manifest.track_ids@)
        &&& self.navigator.catalog.tracks@.len() == self.space.manifest.track_ids@.len()
    }

    /// The engine with `blocked` hidden, and without the graph that was built
    /// over what showed before.
    pub open spec fn with_blocked(self, blocked: HashSet<i64>) -> Self {
        Engine {
            navigator: Navigator {
                catalog: Catalog { blocked_artists: blocked, ..self.navigator.catalog },
                knn: None,
                ..self.navigator
            },
            ..self
        }
    }

    pub fn load(data_dir: String, loaded: Loaded) -> (engine: Result<Self, SpaceError>)
        requires
            loaded.manifest.n_tracks * loaded.manifest.n_dims * crate::space::COORDINATE_BYTES
                <= usize::MAX,
        ensures
            engine is Ok <==> loaded.manifest.layout_fits() && loaded.bytes
                == loaded.manifest.n_tracks * loaded.manifest.n_dims
                * crate::space::COORDINATE_BYTES,
            engine matches Ok(e) ==> {
                &&& e.wf()
                &&& e.data_dir == data_dir
                &&& e.space.manifest == loaded.manifest
                &&& scaled(e.space, loaded.manifest.weights@, e.scale@)
                &&& e.navigator.knn is None
                &&& e.navigator.catalog.clap == loaded.clap.0
                &&& e.navigator.catalog.clap_dims == loaded.clap.1
                &&& e.navigator.catalog.blocked_artists == loaded.blocked_artists
                &&& forall|i: int|
                    0 <= i < loaded.manifest.track_ids@.len() ==> match crate::db::answering(
                        loaded.rows@,
                        loaded.manifest.track_ids@,
                        i,
                    ) {
                        Some(row) => (#[trigger] e.navigator.catalog.tracks@[i]).reads(
                            loaded.rows@[row],
                        ),
                        None => e.navigator.catalog.tracks@[i].is_missing(
                            loaded.manifest.track_ids@[i],
                        ),
                    }
            },
            engine matches Err(e) ==> e == (if loaded.manifest.version@
                != crate::space::SPACE_VERSION@ {
                SpaceError::Format { found: loaded.manifest.version }
            } else if crate::space::furthest(loaded.manifest.blocks@) != loaded.manifest.n_dims {
                SpaceError::Blocks {
                    covered: crate::space::furthest(loaded.manifest.blocks@) as usize,
                    n_dims: loaded.manifest.n_dims,
                }
            } else {
                SpaceError::Size {
                    bytes: loaded.bytes,
                    expected: (loaded.manifest.n_tracks * loaded.manifest.n_dims
                        * crate::space::COORDINATE_BYTES) as usize,
                    n_tracks: loaded.manifest.n_tracks,
                    n_dims: loaded.manifest.n_dims,
                }
            }),
    {
        let Loaded { manifest, bytes, rows, clap, blocked_artists } = loaded;
        let space = match Space::load(manifest, bytes) {
            Err(e) => return Err(e),
            Ok(space) => space,
        };
        let catalog = Catalog::load(&rows, &space.manifest.track_ids, clap, blocked_artists);
        let scale = space.scale(&space.manifest.weights);
        let index_of = index_rows(&space.manifest.track_ids);
        let count: usize = space.manifest.track_ids.len();
        proof {
            assert(count == space.manifest.track_ids@.len());
            a_row_holds_its_track(space.manifest.track_ids@);
        }
        let navigator = Navigator::new(index_of, catalog);
        Ok(Engine { data_dir, space, navigator, scale })
    }

    /// Whether the corpus carries the embeddings text steering anchors
    /// against. Only half the question: the server answers whether the text
    /// tower is available.
    pub fn has_audio_embeddings(&self) -> (yes: bool)
        ensures
            yes == self.navigator.catalog.clap is Some,
    {
        self.navigator.catalog.clap.is_some()
    }

    /// Reshape distances after a slider move. The graph was built over the old
    /// distances, so it goes.
    pub fn set_weights(&mut self, weights: &[(String, u32)])
        requires
            old(self).wf(),
        ensures
            final(self).wf(),
            scaled(final(self).space, weights@, final(self).scale@),
            final(self).navigator.knn is None,
            final(self).navigator.catalog == old(self).navigator.catalog,
            final(self).navigator.index_of == old(self).navigator.index_of,
            final(self).space == old(self).space,
            final(self).data_dir == old(self).data_dir,
    {
        self.scale = self.space.scale(weights);
        self.navigator.invalidate_graph();
    }

    /// Apply a block list the server has already settled. Blocking only
    /// filters, so nothing needs rebuilding but the graph, which was built
    /// over the old visibility.
    pub fn set_blocked(&mut self, blocked: HashSet<i64>)
        requires
            old(self).wf(),
        ensures
            final(self).wf(),
            *final(self) == old(self).with_blocked(blocked),
    {
        self.navigator.knn = None;
        self.navigator.catalog.blocked_artists = blocked;
    }

    /// Apply the block list just read from a database, where it could be read.
    pub fn refresh_blocked<E>(&mut self, read: Result<HashSet<i64>, E>) -> (done: Result<(), E>)
        requires
            old(self).wf(),
        ensures
            final(self).wf(),
            match read {
                Ok(blocked) => {
                    &&& done is Ok
                    &&& *final(self) == old(self).with_blocked(blocked)
                },
                Err(e) => done == Err::<(), E>(e) && *final(self) == *old(self),
            },
    {
        match read {
            Ok(blocked) => {
                self.set_blocked(blocked);
                Ok(())
            },
            Err(e) => Err(e),
        }
    }

    pub fn blocked_count(&self) -> (n: usize)
        ensures
            n == self.navigator.catalog.blocked_artists@.len(),
    {
        self.navigator.catalog.blocked_artists.len()
    }
}

// ------------------------------------------------------------ the one engine

/// Puts the first engine in its place. One that is there already stays.
pub fn init_engine(slot: &mut Option<Engine>, loaded: Result<Engine, SpaceError>) -> (done: Result<
    (),
    SpaceError,
>)
    ensures
        match loaded {
            Ok(engine) => done is Ok && *final(slot) == (match *old(slot) {
                Some(there) => Some(there),
                None => Some(engine),
            }),
            Err(e) => done == Err::<(), SpaceError>(e) && *final(slot) == *old(slot),
        },
{
    match loaded {
        Ok(engine) => {
            if slot.is_none() {
                *slot = Some(engine);
            }
            Ok(())
        },
        Err(e) => Err(e),
    }
}

/// Swap in a freshly built space. A space that cannot be loaded leaves the old
/// one in place.
pub fn reload_engine(slot: &mut Option<Engine>, loaded: Result<Engine, SpaceError>) -> (done:
    Result<(), SpaceError>)
    requires
        loaded is Ok ==> *old(slot) is Some,
    ensures
        match loaded {
            Ok(engine) => done is Ok && *final(slot) == Some(engine),
            Err(e) => done == Err::<(), SpaceError>(e) && *final(slot) == *old(slot),
        },
{
    match loaded {
        Ok(engine) => {
            *slot = Some(engine);
            Ok(())
        },
        Err(e) => Err(e),
    }
}

/// The engine, which startup has put in its place.
pub fn engine(slot: &Option<Engine>) -> (engine: &Engine)
    requires
        *slot is Some,
    ensures
        *slot == Some(*engine),
{
    match slot {
        Some(engine) => engine,
        None => vstd::pervasive::unreached(),
    }
}

/// Whether a space has been loaded yet. A client may start before it has
/// synced one, so it has to be able to ask.
pub fn engine_ready(slot: &Option<Engine>) -> (yes: bool)
    ensures
        yes == slot is Some,
{
    slot.is_some()
}

} // verus!
