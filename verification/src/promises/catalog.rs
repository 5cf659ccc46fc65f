//! What the catalogue, the space and the map have to live up to.

use crate::db::{answering, clap_at, decoded, words_in, Catalog, Row, TrackMeta};
use crate::engine::{scaled, Engine};
use crate::space::{
    a_row_holds_its_track, furthest, rows_of, scale_at, weight_of, Block, Manifest, Space,
};
use std::collections::HashSet;
use vstd::prelude::*;

verus! {

// ---------------------------------------------------------------------- rows

/// `at` is where `id` stands for the last time.
pub open spec fn stands_last(ids: Seq<i64>, id: i64, at: int) -> bool {
    &&& 0 <= at < ids.len()
    &&& ids[at] == id
    &&& forall|p: int| at < p < ids.len() ==> #[trigger] ids[p] != id
}

/// Every listed id has a row, the last one it stands in, and no other id has any.
pub proof fn the_last_row_of_a_track_counts(ids: Seq<i64>, id: i64)
    requires
        ids.len() <= usize::MAX,
    ensures
        rows_of(ids).contains_key(id) <==> exists|at: int| 0 <= at < ids.len() && ids[at] == id,
        rows_of(ids).contains_key(id) ==> stands_last(ids, id, rows_of(ids)[id] as int),
    decreases ids.len(),
{
    a_row_holds_its_track(ids);
    if ids.len() > 0 {
        let fewer = ids.drop_last();
        the_last_row_of_a_track_counts(fewer, id);
        if rows_of(ids).contains_key(id) {
            let at = rows_of(ids)[id] as int;
            if id != ids.last() {
                assert forall|p: int| at < p < ids.len() implies #[trigger] ids[p] != id by {
                    if p < fewer.len() {
                        assert(fewer[p] == ids[p]);
                    }
                }
            }
        }
        if exists|at: int| 0 <= at < ids.len() && ids[at] == id {
            assert(ids.contains(id));
        }
    }
    if rows_of(ids).contains_key(id) {
        assert(ids.contains(id));
    }
}

/// A row of the database is read as it is: what it leaves out is empty, no artist
/// is `-1`, and of the distance the low half is kept.
pub proof fn a_row_is_read_as_it_is(meta: TrackMeta, row: Row)
    requires
        meta.reads(row),
    ensures
        meta.track_id == row.id,
        meta.title@ == row.title@,
        row.artist_id is None ==> meta.artist_id == -1,
        row.artist_id matches Some(id) ==> meta.artist_id == id,
        row.album_id is None ==> meta.album_id@.len() == 0,
        row.album_id matches Some(text) ==> meta.album_id@ == text@,
        row.artist is None ==> meta.artist@.len() == 0,
        row.artist matches Some(text) ==> meta.artist@ == text@,
        row.album is None ==> meta.album@.len() == 0,
        row.album matches Some(text) ==> meta.album@ == text@,
        row.genre is None ==> meta.genre@.len() == 0,
        row.genre matches Some(text) ==> meta.genre@ == text@,
        meta.bpm == row.bpm,
        meta.x == row.x,
        meta.y == row.y,
        meta.isrc == row.isrc,
        -0x8000_0000 <= row.seed_distance <= 0x7fff_ffff ==> meta.seed_distance
            == row.seed_distance,
{
    let n = row.seed_distance;
    assert(-0x8000_0000 <= n <= 0x7fff_ffff ==> (n as i32) as i64 == n) by (bit_vector);
}

/// A track that the database does not know says so in its title, and nothing
/// else.
pub proof fn an_unknown_track_says_only_that(meta: TrackMeta, id: i64)
    requires
        meta.is_missing(id),
    ensures
        meta.track_id == id,
        meta.title@ == "<missing "@ + crate::strings::signed_digits(id as int) + ">"@,
        meta.artist@.len() == 0 && meta.album@.len() == 0 && meta.genre@.len() == 0,
        meta.artist_id == 0 && meta.album_id@.len() == 0 && meta.seed_distance == 0,
        meta.bpm is None && meta.isrc is None && meta.x is None && meta.y is None,
{
}

/// The row that answers for a position is the last one with its id, and it
/// answers only for the first position of that id.
pub proof fn a_position_is_answered_by_its_id(rows: Seq<Row>, ids: Seq<i64>, i: int)
    requires
        rows.len() <= usize::MAX,
        0 <= i < ids.len(),
    ensures
        answering(rows, ids, i) matches Some(r) ==> {
            &&& 0 <= r < rows.len()
            &&& rows[r].id == ids[i]
            &&& forall|later: int| r < later < rows.len() ==> (#[trigger] rows[later]).id != ids[i]
            &&& forall|sooner: int| 0 <= sooner < i ==> #[trigger] ids[sooner] != ids[i]
        },
        answering(rows, ids, i) is None ==> (exists|sooner: int|
            0 <= sooner < i && #[trigger] ids[sooner] == ids[i]) || forall|r: int|
            0 <= r < rows.len() ==> (#[trigger] rows[r]).id != ids[i],
{
    let keys = rows.map_values(|r: Row| r.id);
    the_last_row_of_a_track_counts(keys, ids[i]);
    match answering(rows, ids, i) {
        Some(r) => {
            assert(keys[r] == ids[i]);
            assert forall|later: int| r < later < rows.len() implies (#[trigger] rows[later]).id
                != ids[i] by {
                assert(keys[later] == rows[later].id);
            }
            assert forall|sooner: int| 0 <= sooner < i implies #[trigger] ids[sooner] != ids[i] by {
                if ids[sooner] == ids[i] {
                    assert(ids.take(i)[sooner] == ids[i]);
                }
            }
        },
        None => {
            if ids.take(i).contains(ids[i]) {
                let k = choose|k: int| 0 <= k < ids.take(i).len() && ids.take(i)[k] == ids[i];
                assert(ids[k] == ids[i]);
            } else {
                assert forall|r: int| 0 <= r < rows.len() implies (#[trigger] rows[r]).id
                    != ids[i] by {
                    assert(keys[r] == rows[r].id);
                }
            }
        },
    }
}

/// A row is hidden exactly when its artist is blocked.
pub proof fn a_row_is_hidden_with_its_artist(catalog: Catalog, i: int)
    requires
        0 <= i < catalog.tracks@.len(),
    ensures
        catalog.blocks(i) <==> catalog.blocked_artists@.contains(catalog.tracks@[i].artist_id),
{
}

/// The rows that show are all those of artists who are not blocked, in the order
/// of the catalogue.
pub proof fn what_is_not_blocked_shows(catalog: Catalog, n: nat)
    requires
        n <= catalog.tracks@.len() <= usize::MAX,
    ensures
        forall|i: int, j: int|
            0 <= i < j < catalog.visible_rows(n).len() ==> #[trigger] catalog.visible_rows(n)[i]
                < #[trigger] catalog.visible_rows(n)[j],
        forall|row: usize| #[trigger]
            catalog.visible_rows(n).contains(row) <==> row < n && !catalog.blocked_artists@.contains(
                catalog.tracks@[row as int].artist_id,
            ),
    decreases n,
{
    let all = catalog.visible_rows(n);
    assert forall|row: usize| #[trigger] all.contains(row) <==> row < n
        && !catalog.blocked_artists@.contains(catalog.tracks@[row as int].artist_id) by {
        crate::db::visible_rows_are_the_unblocked_ones(catalog, n, row);
    }
    if n > 0 {
        let rest = catalog.visible_rows((n - 1) as nat);
        what_is_not_blocked_shows(catalog, (n - 1) as nat);
        assert forall|i: int, j: int| 0 <= i < j < all.len() implies #[trigger] all[i]
            < #[trigger] all[j] by {
            if j < rest.len() {
                assert(all[i] == rest[i] && all[j] == rest[j]);
            } else {
                assert(rest.contains(rest[i]));
                assert(all[i] == rest[i]);
            }
        }
    }
}

// ---------------------------------------------------------------- embeddings

/// The `i`th of the blobs is kept, as the `r`th embedding.
pub open spec fn is_kept_as(
    blobs: Seq<(i64, Vec<u8>)>,
    stored: Seq<(i64, Vec<u32>)>,
    i: int,
    r: int,
) -> bool {
    &&& 0 <= i < blobs.len()
    &&& 0 <= r < stored.len()
    &&& stored[r].0 == blobs[i].0
    &&& stored[r].1@.len() * 4 == blobs[i].1@.len()
    &&& words_in(blobs[i].1@, stored[r].1@)
}

/// Exactly the blobs that are whole words are kept, each under its own id, in the
/// order they came.
pub proof fn whole_embeddings_are_kept(
    blobs: Seq<(i64, Vec<u8>)>,
    stored: Seq<(i64, Vec<u32>)>,
) -> (came: Seq<int>)
    requires
        decoded(blobs, stored),
    ensures
        came.len() == stored.len(),
        forall|r: int| 0 <= r < came.len() ==> is_kept_as(blobs, stored, #[trigger] came[r], r),
        forall|r: int, q: int|
            0 <= r < q < came.len() ==> #[trigger] came[r] < #[trigger] came[q],
        forall|i: int|
            0 <= i < blobs.len() && (#[trigger] blobs[i]).1@.len() % 4 == 0 ==> came.contains(i),
    decreases blobs.len(),
{
    if blobs.len() == 0 {
        Seq::empty()
    } else {
        let fewer = blobs.drop_last();
        let last = blobs.len() - 1;
        let whole = blobs.last().1@.len() % 4 == 0;
        let kept = if whole {
            stored.drop_last()
        } else {
            stored
        };
        let sooner = whole_embeddings_are_kept(fewer, kept);
        let came = if whole {
            sooner.push(last)
        } else {
            sooner
        };
        assert forall|r: int| 0 <= r < came.len() implies is_kept_as(
            blobs,
            stored,
            #[trigger] came[r],
            r,
        ) by {
            if r < sooner.len() {
                assert(is_kept_as(fewer, kept, sooner[r], r));
                assert(fewer[sooner[r]] == blobs[sooner[r]]);
                assert(kept[r] == stored[r]);
            }
        }
        assert forall|r: int, q: int| 0 <= r < q < came.len() implies #[trigger] came[r]
            < #[trigger] came[q] by {
            assert(is_kept_as(fewer, kept, sooner[r], r));
            if q < sooner.len() {
                assert(came[r] == sooner[r] && came[q] == sooner[q]);
            }
        }
        assert forall|i: int| 0 <= i < blobs.len() && (#[trigger] blobs[i]).1@.len() % 4
            == 0 implies came.contains(i) by {
            if i < last {
                assert(fewer[i] == blobs[i]);
                assert(sooner.contains(i));
                let k = choose|k: int| 0 <= k < sooner.len() && sooner[k] == i;
                assert(came[k] == i);
            } else {
                assert(came[sooner.len() as int] == i);
            }
        }
        came
    }
}

/// A track's embedding is the last one stored for it, and nothing but zeros where
/// none is, or one of another length.
pub proof fn the_last_embedding_of_a_track_counts(
    stored: Seq<(i64, Vec<u32>)>,
    dims: nat,
    id: i64,
    at: int,
    d: int,
)
    requires
        stored.len() <= usize::MAX,
        0 <= d < dims,
    ensures
        0 <= at < stored.len() && stored[at].0 == id && (forall|later: int|
            at < later < stored.len() ==> (#[trigger] stored[later]).0 != id) ==> clap_at(
            stored,
            dims,
            id,
            d,
        ) == (if stored[at].1@.len() == dims {
            stored[at].1@[d]
        } else {
            0
        }),
        (forall|any: int| 0 <= any < stored.len() ==> (#[trigger] stored[any]).0 != id)
            ==> clap_at(stored, dims, id, d) == 0,
{
    let keys = stored.map_values(|s: (i64, Vec<u32>)| s.0);
    the_last_row_of_a_track_counts(keys, id);
    if 0 <= at < stored.len() && stored[at].0 == id && (forall|later: int|
        at < later < stored.len() ==> (#[trigger] stored[later]).0 != id) {
        assert(keys[at] == id);
        let found = rows_of(keys)[id] as int;
        if found < at {
            assert(keys[at] != id);
        }
        if at < found {
            assert(keys[found] == stored[found].0);
        }
    }
    if forall|any: int| 0 <= any < stored.len() ==> (#[trigger] stored[any]).0 != id {
        if rows_of(keys).contains_key(id) {
            let found = rows_of(keys)[id] as int;
            assert(keys[found] == stored[found].0);
        }
    }
}

// ------------------------------------------------------------------- weights

/// `weight` is what the first entry of that name says, and `otherwise` where
/// there is none.
pub open spec fn is_said(
    weights: Seq<(String, u32)>,
    name: Seq<char>,
    otherwise: u32,
    weight: u32,
) -> bool {
    if exists|w: int| 0 <= w < weights.len() && (#[trigger] weights[w]).0@ == name {
        exists|w: int|
            {
                &&& 0 <= w < weights.len()
                &&& (#[trigger] weights[w]).0@ == name
                &&& weights[w].1 == weight
                &&& forall|sooner: int|
                    0 <= sooner < w ==> (#[trigger] weights[sooner]).0@ != name
            }
    } else {
        weight == otherwise
    }
}

/// A block weighs what is said of its name, and what it says itself where nothing
/// is said.
pub proof fn a_block_weighs_what_is_said(weights: Seq<(String, u32)>, block: Block)
    ensures
        is_said(weights, block.name@, block.default_weight, weight_of(weights, block)),
    decreases weights.len(),
{
    if weights.len() > 0 {
        if weights[0].0@ == block.name@ {
            assert(weights[0].1 == weight_of(weights, block));
        } else {
            let rest = weights.drop_first();
            a_block_weighs_what_is_said(rest, block);
            let weight = weight_of(weights, block);
            if exists|w: int| 0 <= w < weights.len() && (#[trigger] weights[w]).0@ == block.name@ {
                let w = choose|w: int|
                    0 <= w < weights.len() && (#[trigger] weights[w]).0@ == block.name@;
                assert(rest[w - 1] == weights[w]);
                let v = choose|v: int|
                    {
                        &&& 0 <= v < rest.len()
                        &&& (#[trigger] rest[v]).0@ == block.name@
                        &&& rest[v].1 == weight
                        &&& forall|sooner: int|
                            0 <= sooner < v ==> (#[trigger] rest[sooner]).0@ != block.name@
                    };
                assert(weights[v + 1] == rest[v]);
                assert forall|sooner: int| 0 <= sooner < v + 1 implies (
                #[trigger] weights[sooner]).0@ != block.name@ by {
                    if sooner > 0 {
                        assert(rest[sooner - 1] == weights[sooner]);
                    }
                }
            } else {
                assert forall|w: int| 0 <= w < rest.len() implies (#[trigger] rest[w]).0@
                    != block.name@ by {
                    assert(weights[w + 1] == rest[w]);
                }
            }
        }
    }
}

/// A dimension weighs what the last block that covers it does, and one where no
/// block does.
pub proof fn a_dimension_weighs_what_its_block_does(
    blocks: Seq<Block>,
    weights: Seq<(String, u32)>,
    dim: int,
)
    ensures
        (forall|b: int| 0 <= b < blocks.len() ==> !((#[trigger] blocks[b]).start <= dim < blocks[b].end))
            ==> scale_at(blocks, weights, dim) == 0x3f80_0000,
        forall|b: int|
            {
                &&& 0 <= b < blocks.len()
                &&& (#[trigger] blocks[b]).start <= dim < blocks[b].end
                &&& forall|later: int|
                    b < later < blocks.len() ==> !((#[trigger] blocks[later]).start <= dim
                        < blocks[later].end)
            } ==> is_said(
                weights,
                blocks[b].name@,
                blocks[b].default_weight,
                scale_at(blocks, weights, dim),
            ),
    decreases blocks.len(),
{
    if blocks.len() > 0 {
        let fewer = blocks.drop_last();
        let last = blocks.len() - 1;
        a_dimension_weighs_what_its_block_does(fewer, weights, dim);
        a_block_weighs_what_is_said(weights, blocks.last());
        if forall|b: int|
            0 <= b < blocks.len() ==> !((#[trigger] blocks[b]).start <= dim < blocks[b].end) {
            assert(!(blocks[last].start <= dim < blocks[last].end));
            assert forall|b: int| 0 <= b < fewer.len() implies !((#[trigger] fewer[b]).start <= dim
                < fewer[b].end) by {
                assert(fewer[b] == blocks[b]);
            }
        }
        assert forall|b: int|
            {
                &&& 0 <= b < blocks.len()
                &&& (#[trigger] blocks[b]).start <= dim < blocks[b].end
                &&& forall|later: int|
                    b < later < blocks.len() ==> !((#[trigger] blocks[later]).start <= dim
                        < blocks[later].end)
            } implies is_said(
            weights,
            blocks[b].name@,
            blocks[b].default_weight,
            scale_at(blocks, weights, dim),
        ) by {
            if b < last {
                assert(!(blocks[last].start <= dim < blocks[last].end));
                assert(fewer[b] == blocks[b]);
                assert forall|later: int| b < later < fewer.len() implies !((
                #[trigger] fewer[later]).start <= dim < fewer[later].end) by {
                    assert(fewer[later] == blocks[later]);
                }
            }
        }
    }
}

/// The blocks reach as far as the one that reaches furthest.
pub proof fn blocks_reach_as_far_as_the_furthest(blocks: Seq<Block>)
    ensures
        forall|b: int| 0 <= b < blocks.len() ==> (#[trigger] blocks[b]).end <= furthest(blocks),
        blocks.len() == 0 ==> furthest(blocks) == 0,
        blocks.len() > 0 ==> exists|b: int|
            0 <= b < blocks.len() && (#[trigger] blocks[b]).end == furthest(blocks),
    decreases blocks.len(),
{
    if blocks.len() > 0 {
        let fewer = blocks.drop_last();
        let last = blocks.len() - 1;
        blocks_reach_as_far_as_the_furthest(fewer);
        assert(blocks[last] == blocks.last());
        assert forall|b: int| 0 <= b < blocks.len() implies (#[trigger] blocks[b]).end <= furthest(
            blocks,
        ) by {
            if b < last {
                assert(fewer[b] == blocks[b]);
            }
        }
        if furthest(blocks) != blocks.last().end {
            let b = choose|b: int|
                0 <= b < fewer.len() && (#[trigger] fewer[b]).end == furthest(fewer);
            assert(blocks[b] == fewer[b]);
        }
    }
}

/// A manifest fits when it is of the format that is understood and the block that
/// reaches furthest ends with the last dimension.
pub proof fn a_manifest_fits_its_blocks(manifest: Manifest)
    ensures
        manifest.layout_fits() ==> manifest.version@ == "space-1"@ && (forall|b: int|
            0 <= b < manifest.blocks@.len() ==> (#[trigger] manifest.blocks@[b]).end
                <= manifest.n_dims) && (manifest.n_dims == 0 || exists|b: int|
            0 <= b < manifest.blocks@.len() && (#[trigger] manifest.blocks@[b]).end
                == manifest.n_dims),
        manifest.version@ == "space-1"@ && (forall|b: int|
            0 <= b < manifest.blocks@.len() ==> (#[trigger] manifest.blocks@[b]).end
                <= manifest.n_dims) && (exists|b: int|
            0 <= b < manifest.blocks@.len() && (#[trigger] manifest.blocks@[b]).end
                == manifest.n_dims) ==> manifest.layout_fits(),
{
    blocks_reach_as_far_as_the_furthest(manifest.blocks@);
}

/// The projection file holds the mean and as many components, each as long.
pub proof fn a_projection_is_a_mean_and_its_components(space: Space)
    ensures
        space.pca_floats() == (1 + space.manifest.semantic_pca.n_components)
            * space.manifest.semantic_pca.input_dim,
{
    let a = space.manifest.semantic_pca.input_dim;
    let b = space.manifest.semantic_pca.n_components;
    assert((1 + b) * a == a + b * a) by (nonlinear_arith);
}

/// A space that was loaded finds every track by the last row its id stands in.
pub proof fn a_space_finds_its_tracks(space: Space, id: i64)
    requires
        space.wf(),
        space.manifest.track_ids@.len() <= usize::MAX,
    ensures
        space.index_of@.contains_key(id) <==> exists|at: int|
            0 <= at < space.manifest.track_ids@.len() && space.manifest.track_ids@[at] == id,
        space.index_of@.contains_key(id) ==> stands_last(
            space.manifest.track_ids@,
            id,
            space.index_of@[id] as int,
        ),
{
    the_last_row_of_a_track_counts(space.manifest.track_ids@, id);
}

/// Weights that were set are the weights of the dimensions.
pub proof fn set_weights_weigh(
    space: Space,
    weights: Seq<(String, u32)>,
    scale: Seq<u32>,
    b: int,
    dim: int,
)
    requires
        scaled(space, weights, scale),
        0 <= dim < space.manifest.n_dims,
        0 <= b < space.manifest.blocks@.len(),
        space.manifest.blocks@[b].start <= dim < space.manifest.blocks@[b].end,
        forall|later: int|
            b < later < space.manifest.blocks@.len() ==> !((
            #[trigger] space.manifest.blocks@[later]).start <= dim
                < space.manifest.blocks@[later].end),
    ensures
        scale.len() == space.manifest.n_dims,
        is_said(
            weights,
            space.manifest.blocks@[b].name@,
            space.manifest.blocks@[b].default_weight,
            scale[dim],
        ),
{
    a_dimension_weighs_what_its_block_does(space.manifest.blocks@, weights, dim);
    assert(scale[dim] == scale_at(space.manifest.blocks@, weights, dim));
}

/// Blocking changes who is hidden and takes away the graph that was built over
/// what showed before, and changes nothing else.
pub proof fn blocking_only_hides(engine: Engine, blocked: HashSet<i64>)
    ensures
        engine.with_blocked(blocked).navigator.catalog.blocked_artists == blocked,
        engine.with_blocked(blocked).navigator.knn is None,
        engine.with_blocked(blocked).navigator.catalog.tracks == engine.navigator.catalog.tracks,
        engine.with_blocked(blocked).navigator.catalog.clap == engine.navigator.catalog.clap,
        engine.with_blocked(blocked).navigator.catalog.clap_dims
            == engine.navigator.catalog.clap_dims,
        engine.with_blocked(blocked).navigator.index_of == engine.navigator.index_of,
        engine.with_blocked(blocked).space == engine.space,
        engine.with_blocked(blocked).scale == engine.scale,
        engine.with_blocked(blocked).data_dir == engine.data_dir,
{
}

} // verus!
