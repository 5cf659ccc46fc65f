//! The vector space written by the analysis pipeline: its manifest, the checks
//! a loaded copy has to pass, the weight each dimension gets, and ranking by
//! similarity.
//!
//! The vectors themselves are floating point and stay with the caller. Here a
//! weight is an opaque 32-bit pattern that is only ever carried, and a
//! similarity is a `Score`: its place in the order and nothing else.

use crate::ordering::{foremost, is_top, orders_all, ranking, stable_order, Ranked};
use crate::strings::{decimal, digits, joined, push_text, same};
use std::collections::HashMap;
use vstd::prelude::*;

verus! {

broadcast use vstd::std_specs::hash::group_hash_axioms;

/// The space format this build understands. The pipeline bumps it whenever
/// the block layout changes: a reordered block keeps the same byte count, so
/// the length check cannot see it.
pub const SPACE_VERSION: &'static str = "space-1";

/// The weight of a dimension no block covers: one, as a 32-bit pattern.
pub const UNWEIGHTED: u32 = 0x3f80_0000;

/// Bytes one coordinate takes in `space.bin`.
pub const COORDINATE_BYTES: usize = 4;

// ----------------------------------------------------------------- manifest

pub struct Block {
    pub name: String,
    pub start: usize,
    pub end: usize,
    pub columns: Vec<String>,
    pub default_weight: u32,
    /// Per-column z-score parameters, needed to project an outside point into
    /// this block.
    pub mean: Vec<u32>,
    pub std: Vec<u32>,
}

pub struct SemanticPca {
    pub file: String,
    pub input_dim: usize,
    pub n_components: usize,
}

pub struct Manifest {
    pub version: String,
    pub built_at: String,
    pub n_tracks: usize,
    pub n_dims: usize,
    pub track_ids: Vec<i64>,
    pub blocks: Vec<Block>,
    /// Weights by block name.
    pub weights: Vec<(String, u32)>,
    pub semantic_pca: SemanticPca,
}

/// Why a space on disk is refused.
pub enum SpaceError {
    Format { found: String },
    Blocks { covered: usize, n_dims: usize },
    Size { bytes: usize, expected: usize, n_tracks: usize, n_dims: usize },
    Pca { path: String, floats: usize, expected: usize },
}

/// The furthest dimension any block reaches, or none of them.
pub open spec fn furthest(blocks: Seq<Block>) -> nat
    decreases blocks.len(),
{
    if blocks.len() == 0 {
        0
    } else {
        let rest = furthest(blocks.drop_last());
        if blocks.last().end >= rest {
            blocks.last().end as nat
        } else {
            rest
        }
    }
}

impl Manifest {
    pub open spec fn layout_fits(self) -> bool {
        self.version@ == SPACE_VERSION@ && furthest(self.blocks@) == self.n_dims
    }

    /// The manifest against this build and against itself.
    pub fn check(&self) -> (verdict: Result<(), SpaceError>)
        ensures
            verdict is Ok <==> self.layout_fits(),
            verdict matches Err(e) ==> e == (if self.version@ != SPACE_VERSION@ {
                SpaceError::Format { found: self.version }
            } else {
                SpaceError::Blocks {
                    covered: furthest(self.blocks@) as usize,
                    n_dims: self.n_dims,
                }
            }),
    {
        if !same(self.version.as_str(), SPACE_VERSION) {
            return Err(SpaceError::Format { found: self.version.clone() });
        }
        let mut covered: usize = 0;
        let mut i: usize = 0;
        assert(self.blocks@.take(0) =~= Seq::empty());
        while i < self.blocks.len()
            invariant
                i <= self.blocks@.len(),
                covered == furthest(self.blocks@.take(i as int)),
            decreases self.blocks@.len() - i,
        {
            assert(self.blocks@.take(i + 1).drop_last() =~= self.blocks@.take(i as int));
            if self.blocks[i].end >= covered {
                covered = self.blocks[i].end;
            }
            i = i + 1;
        }
        assert(self.blocks@.take(self.blocks@.len() as int) =~= self.blocks@);
        // Catches a stale space.bin next to a fresh manifest.
        if covered != self.n_dims {
            return Err(SpaceError::Blocks { covered, n_dims: self.n_dims });
        }
        Ok(())
    }
}

impl SpaceError {
    pub open spec fn text(self) -> Seq<char> {
        match self {
            SpaceError::Format { found } => "space.json is format "@ + found@
                + ", this build reads "@ + SPACE_VERSION@
                + ", rebuild it:\n  cd pipeline && uv run qsuggest build-space && uv run qsuggest layout"@,
            SpaceError::Blocks { covered, n_dims } => "space.json blocks cover "@ + digits(
                covered as nat,
            ) + " dims but n_dims is "@ + digits(n_dims as nat) + ", rebuild the space"@,
            SpaceError::Size { bytes, expected, n_tracks, n_dims } => "space.bin is "@ + digits(
                bytes as nat,
            ) + " bytes, manifest implies "@ + digits(expected as nat) + " ("@ + digits(n_tracks as nat) + "x"@ + digits(n_dims as nat)
                + " f32), rebuild the space"@,
            SpaceError::Pca { path, floats, expected } => path@ + " has "@ + digits(floats as nat)
                + " floats, expected "@ + digits(expected as nat),
        }
    }

    /// The refusal in words.
    pub fn message(&self) -> (text: String)
        ensures
            text@ == self.text(),
    {
        match self {
            SpaceError::Format { found } => {
                let mut out = joined("space.json is format ", found.as_str());
                push_text(&mut out, ", this build reads ");
                push_text(&mut out, SPACE_VERSION);
                push_text(
                    &mut out,
                    ", rebuild it:\n  cd pipeline && uv run qsuggest build-space && uv run qsuggest layout",
                );
                out
            },
            SpaceError::Blocks { covered, n_dims } => {
                let mut out = joined(
                    "space.json blocks cover ",
                    decimal(*covered as u128).as_str(),
                );
                push_text(&mut out, " dims but n_dims is ");
                push_text(&mut out, decimal(*n_dims as u128).as_str());
                push_text(&mut out, ", rebuild the space");
                out
            },
            SpaceError::Size { bytes, expected, n_tracks, n_dims } => {
                let mut out = joined("space.bin is ", decimal(*bytes as u128).as_str());
                push_text(&mut out, " bytes, manifest implies ");
                push_text(&mut out, decimal(*expected as u128).as_str());
                push_text(&mut out, " (");
                push_text(&mut out, decimal(*n_tracks as u128).as_str());
                push_text(&mut out, "x");
                push_text(&mut out, decimal(*n_dims as u128).as_str());
                push_text(&mut out, " f32), rebuild the space");
                out
            },
            SpaceError::Pca { path, floats, expected } => {
                let mut out = joined(path.as_str(), " has ");
                push_text(&mut out, decimal(*floats as u128).as_str());
                push_text(&mut out, " floats, expected ");
                push_text(&mut out, decimal(*expected as u128).as_str());
                out
            },
        }
    }
}

// -------------------------------------------------------------------- space

/// The row each track id stands in. An id listed twice keeps its last row.
pub open spec fn rows_of(ids: Seq<i64>) -> Map<i64, usize>
    decreases ids.len(),
{
    if ids.len() == 0 {
        Map::empty()
    } else {
        rows_of(ids.drop_last()).insert(ids.last(), (ids.len() - 1) as usize)
    }
}

/// Exactly the listed ids have a row, and the row of an id holds that id.
pub proof fn a_row_holds_its_track(ids: Seq<i64>)
    requires
        ids.len() <= usize::MAX,
    ensures
        forall|id: i64|
            #![trigger rows_of(ids).contains_key(id)]
            rows_of(ids).contains_key(id) <==> ids.contains(id),
        forall|id: i64| #[trigger]
            rows_of(ids).contains_key(id) ==> rows_of(ids)[id] < ids.len()
                && ids[rows_of(ids)[id] as int] == id,
    decreases ids.len(),
{
    if ids.len() > 0 {
        let shorter = ids.drop_last();
        a_row_holds_its_track(shorter);
        assert forall|id: i64| #[trigger] rows_of(ids).contains_key(id) implies ids.contains(id)
            && rows_of(ids)[id] < ids.len() && ids[rows_of(ids)[id] as int] == id by {
            if id == ids.last() {
                assert(ids[ids.len() - 1] == id);
            } else {
                assert(rows_of(shorter).contains_key(id));
                assert(ids[rows_of(shorter)[id] as int] == id);
            }
        }
        assert forall|id: i64| ids.contains(id) implies #[trigger] rows_of(ids).contains_key(id) by {
            let at = choose|at: int| 0 <= at < ids.len() && ids[at] == id;
            if at < ids.len() - 1 {
                assert(shorter[at] == id);
                assert(shorter.contains(id));
                assert(rows_of(shorter).contains_key(id));
            }
        }
    }
}

/// The row of every id in `ids`.
pub fn index_rows(ids: &[i64]) -> (index_of: HashMap<i64, usize>)
    ensures
        index_of@ == rows_of(ids@),
{
    let mut index_of: HashMap<i64, usize> = HashMap::new();
    let mut i: usize = 0;
    assert(ids@.take(0) =~= Seq::empty());
    while i < ids.len()
        invariant
            i <= ids@.len(),
            index_of@ == rows_of(ids@.take(i as int)),
        decreases ids@.len() - i,
    {
        assert(ids@.take(i + 1).drop_last() =~= ids@.take(i as int));
        index_of.insert(ids[i], i);
        i = i + 1;
    }
    assert(ids@.take(ids@.len() as int) =~= ids@);
    index_of
}

/// The weight `weights` gives `block`, or the block's own.
pub open spec fn weight_of(weights: Seq<(String, u32)>, block: Block) -> u32
    decreases weights.len(),
{
    if weights.len() == 0 {
        block.default_weight
    } else if weights[0].0@ == block.name@ {
        weights[0].1
    } else {
        weight_of(weights.drop_first(), block)
    }
}

/// The weight of one dimension: that of the last block to cover it.
pub open spec fn scale_at(blocks: Seq<Block>, weights: Seq<(String, u32)>, dim: int) -> u32
    decreases blocks.len(),
{
    if blocks.len() == 0 {
        UNWEIGHTED
    } else if blocks.last().start <= dim < blocks.last().end {
        weight_of(weights, blocks.last())
    } else {
        scale_at(blocks.drop_last(), weights, dim)
    }
}

fn find_weight(weights: &[(String, u32)], block: &Block) -> (weight: u32)
    ensures
        weight == weight_of(weights@, *block),
{
    let mut i: usize = 0;
    assert(weights@.skip(0) =~= weights@);
    while i < weights.len()
        invariant
            i <= weights@.len(),
            weight_of(weights@.skip(i as int), *block) == weight_of(weights@, *block),
        decreases weights@.len() - i,
    {
        assert(weights@.skip(i as int)[0] == weights@[i as int]);
        assert(weights@.skip(i as int).drop_first() =~= weights@.skip(i + 1));
        if same(weights[i].0.as_str(), block.name.as_str()) {
            return weights[i].1;
        }
        i = i + 1;
    }
    block.default_weight
}

/// A space whose manifest and vector file agree.
pub struct Space {
    pub manifest: Manifest,
    pub index_of: HashMap<i64, usize>,
}

impl Space {
    pub open spec fn wf(self) -> bool {
        &&& self.manifest.layout_fits()
        &&& self.index_of@ == rows_of(self.manifest.track_ids@)
    }

    /// Takes a manifest and the length of the vector file beside it. The
    /// vectors of more tracks than memory can address are out of the question.
    pub fn load(manifest: Manifest, bytes: usize) -> (space: Result<Self, SpaceError>)
        requires
            manifest.n_tracks * manifest.n_dims * COORDINATE_BYTES <= usize::MAX,
        ensures
            space is Ok <==> manifest.layout_fits() && bytes == manifest.n_tracks * manifest.n_dims
                * COORDINATE_BYTES,
            space matches Ok(s) ==> s.wf() && s.manifest == manifest,
            space matches Err(e) ==> e == (if manifest.version@ != SPACE_VERSION@ {
                SpaceError::Format { found: manifest.version }
            } else if furthest(manifest.blocks@) != manifest.n_dims {
                SpaceError::Blocks {
                    covered: furthest(manifest.blocks@) as usize,
                    n_dims: manifest.n_dims,
                }
            } else {
                SpaceError::Size {
                    bytes,
                    expected: (manifest.n_tracks * manifest.n_dims * COORDINATE_BYTES) as usize,
                    n_tracks: manifest.n_tracks,
                    n_dims: manifest.n_dims,
                }
            }),
    {
        match manifest.check() {
            Err(e) => return Err(e),
            Ok(()) => {},
        }
        proof {
            assert(manifest.n_tracks * manifest.n_dims <= usize::MAX) by (nonlinear_arith)
                requires
                    manifest.n_tracks * manifest.n_dims * COORDINATE_BYTES <= usize::MAX,
                    COORDINATE_BYTES == 4,
            ;
        }
        let expected: usize = manifest.n_tracks * manifest.n_dims * COORDINATE_BYTES;
        if bytes != expected {
            return Err(
                SpaceError::Size {
                    bytes,
                    expected,
                    n_tracks: manifest.n_tracks,
                    n_dims: manifest.n_dims,
                },
            );
        }
        let index_of = index_rows(&manifest.track_ids);
        Ok(Space { manifest, index_of })
    }

    /// The weights the space was built with.
    pub fn default_weights(&self) -> (weights: &Vec<(String, u32)>)
        ensures
            *weights == self.manifest.weights,
    {
        &self.manifest.weights
    }

    /// The weight of each dimension, the blocks' own where `weights` does not
    /// name them.
    pub fn scale(&self, weights: &[(String, u32)]) -> (scale: Vec<u32>)
        ensures
            scale@.len() == self.manifest.n_dims,
            forall|d: int|
                0 <= d < scale@.len() ==> #[trigger] scale@[d] == scale_at(
                    self.manifest.blocks@,
                    weights@,
                    d,
                ),
    {
        let n: usize = self.manifest.n_dims;
        let mut scale: Vec<u32> = Vec::new();
        while scale.len() < n
            invariant
                n == self.manifest.n_dims,
                scale@.len() <= n,
                forall|d: int| 0 <= d < scale@.len() ==> #[trigger] scale@[d] == UNWEIGHTED,
            decreases n - scale@.len(),
        {
            scale.push(UNWEIGHTED);
        }
        let blocks = &self.manifest.blocks;
        let mut b: usize = 0;
        while b < blocks.len()
            invariant
                *blocks == self.manifest.blocks,
                b <= blocks@.len(),
                scale@.len() == n,
                forall|d: int|
                    0 <= d < n ==> #[trigger] scale@[d] == scale_at(
                        blocks@.take(b as int),
                        weights@,
                        d,
                    ),
            decreases blocks@.len() - b,
        {
            let weight: u32 = find_weight(weights, &blocks[b]);
            let ghost earlier = scale@;
            let mut d: usize = blocks[b].start;
            while d < n && d < blocks[b].end
                invariant
                    b < blocks@.len(),
                    scale@.len() == n,
                    earlier.len() == n,
                    blocks@[b as int].start <= d,
                    forall|k: int|
                        0 <= k < n ==> #[trigger] scale@[k] == (if blocks@[b as int].start <= k < d
                            && k < blocks@[b as int].end {
                            weight
                        } else {
                            earlier[k]
                        }),
                decreases n - d,
            {
                scale.set(d, weight);
                d = d + 1;
            }
            proof {
                let now = blocks@.take(b + 1);
                assert(now.drop_last() =~= blocks@.take(b as int));
                assert(now.last() == blocks@[b as int]);
            }
            b = b + 1;
        }
        assert(blocks@.take(blocks@.len() as int) =~= blocks@);
        scale
    }

    pub open spec fn pca_floats(self) -> int {
        self.manifest.semantic_pca.input_dim + self.manifest.semantic_pca.n_components
            * self.manifest.semantic_pca.input_dim
    }

    /// Splits the projection file into its mean and its components.
    pub fn semantic_pca(&self, path: &str, floats: &[u32]) -> (parts: Result<
        (Vec<u32>, Vec<u32>),
        SpaceError,
    >)
        requires
            self.pca_floats() <= usize::MAX,
        ensures
            parts is Ok <==> floats@.len() == self.pca_floats(),
            parts matches Ok((mean, components)) ==> mean@.len()
                == self.manifest.semantic_pca.input_dim && mean@ + components@ == floats@,
            parts matches Err(e) ==> (e matches SpaceError::Pca { path: p, floats: f, expected }
                && p@ == path@ && f == floats@.len() && expected == self.pca_floats()),
    {
        let pca = &self.manifest.semantic_pca;
        proof {
            assert(0 <= pca.n_components * pca.input_dim) by (nonlinear_arith);
        }
        let expected: usize = pca.input_dim + pca.n_components * pca.input_dim;
        if floats.len() != expected {
            return Err(SpaceError::Pca { path: path.to_owned(), floats: floats.len(), expected });
        }
        let mut mean: Vec<u32> = Vec::new();
        let mut components: Vec<u32> = Vec::new();
        let mut i: usize = 0;
        while i < floats.len()
            invariant
                i <= floats@.len(),
                pca.input_dim <= floats@.len(),
                mean@ == floats@.take(if i <= pca.input_dim {
                    i as int
                } else {
                    pca.input_dim as int
                }),
                components@ == (if i <= pca.input_dim {
                    Seq::<u32>::empty()
                } else {
                    floats@.subrange(pca.input_dim as int, i as int)
                }),
            decreases floats@.len() - i,
        {
            if i < pca.input_dim {
                mean.push(floats[i]);
            } else {
                components.push(floats[i]);
            }
            i = i + 1;
        }
        assert(mean@ + components@ =~= floats@);
        Ok((mean, components))
    }
}

// ------------------------------------------------------------------ ranking

/// A similarity: its place in the order, or out of reach of any ranking.
#[derive(Clone, Copy, PartialEq, Eq, Structural, Debug)]
pub enum Score {
    /// Below every similarity.
    Masked,
    /// Higher is closer.
    At(i64),
}

impl Ranked for Score {
    open spec fn no_later(self, other: Self) -> bool {
        match (self, other) {
            (_, Score::Masked) => true,
            (Score::Masked, Score::At(_)) => false,
            (Score::At(a), Score::At(b)) => a >= b,
        }
    }

    proof fn any_two_compare(a: Self, b: Self) {
    }

    proof fn carries_across(a: Self, b: Self, c: Self) {
    }

    fn is_no_later(&self, other: &Self) -> (yes: bool) {
        match (self, other) {
            (_, Score::Masked) => true,
            (Score::Masked, Score::At(_)) => false,
            (Score::At(a), Score::At(b)) => *a >= *b,
        }
    }
}

/// Indices of the `k` highest scores, ordered as `argsort_desc` would.
///
/// Selecting beats sorting when `k` is small: building the graph wants a
/// handful out of several thousand.
pub fn top_k(scores: &[Score], k: usize) -> (top: Vec<usize>)
    ensures
        is_top(scores@, k as nat, top@),
        orders_all(scores@, ranking(scores@)),
        top@ == ranking(scores@).take(top@.len() as int),
{
    foremost(scores, k)
}

/// Indices by descending score, ties broken by index.
pub fn argsort_desc(scores: &[Score]) -> (order: Vec<usize>)
    ensures
        orders_all(scores@, order@),
        order@ == ranking(scores@),
{
    stable_order(scores)
}

} // verus!
