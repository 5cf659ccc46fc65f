//! Navigation: neighbours, paths, drift, radio.
//!
//! What a similarity or a distance is, is the caller's to compute: the
//! functions here are handed scores by row and decide what to do with them.

use crate::db::{Catalog, TrackMeta, NO_ARTIST};
use crate::ordering::{
    before, fitting, foremost_fit, is_top, leads_the_fit, pick_foremost, ranking, Ranked,
};
use crate::route::{cheapest_route, connects, is_route, Graph};
use crate::space::{top_k, Score};
use crate::tour::{
    dist, greedy, is_tour, refined, refining_keeps_every_point, square, symmetric, tour, Distances,
    ROUNDS,
};
use std::collections::{HashMap, HashSet};
use vstd::prelude::*;

verus! {

broadcast use vstd::std_specs::hash::group_hash_axioms;

/// One, in the fixed-point units of distances and tempos.
pub const UNIT: i64 = 268_435_456;

/// Above this the pairwise distances stop being worth their memory and 2-opt
/// stops being worth its time.
pub const SORT_CAP: usize = 1024;

pub struct Constraints {
    /// No repeated artist within this many steps.
    pub artist_cooldown: usize,
    /// In the units of `UNIT`.
    pub max_bpm_delta: Option<i64>,
    pub allow_same_album_consecutive: bool,
    pub exclude: HashSet<i64>,
}

impl Constraints {
    /// What holds of a walk that nothing else was asked of.
    pub open spec fn is_usual(self) -> bool {
        &&& self.artist_cooldown == 3
        &&& self.max_bpm_delta is None
        &&& !self.allow_same_album_consecutive
        &&& self.exclude@ == Set::<i64>::empty()
    }
}

impl Default for Constraints {
    fn default() -> (c: Self)
        ensures
            c.is_usual(),
    {
        Constraints {
            artist_cooldown: 3,
            max_bpm_delta: None,
            allow_same_album_consecutive: false,
            exclude: HashSet::new(),
        }
    }
}

pub struct Step {
    pub track: TrackMeta,
    pub similarity: Option<Score>,
}

pub struct Navigator {
    pub catalog: Catalog,
    pub index_of: HashMap<i64, usize>,
    /// The neighbour graph, with the number of neighbours it was built for.
    pub knn: Option<(usize, Graph)>,
}

pub open spec fn gap(a: int, b: int) -> int {
    if a >= b {
        a - b
    } else {
        b - a
    }
}

/// The constraints let `candidate` follow the rows chosen so far.
pub open spec fn allows(
    catalog: Catalog,
    c: Constraints,
    candidate: int,
    chosen: Seq<usize>,
) -> bool {
    let meta = catalog.tracks@[candidate];
    let previous = catalog.tracks@[chosen.last() as int];
    let window = if chosen.len() >= c.artist_cooldown {
        chosen.len() - c.artist_cooldown
    } else {
        0
    };
    &&& !catalog.blocks(candidate)
    &&& !c.exclude@.contains(meta.track_id)
    &&& chosen.len() > 0 ==> {
        &&& meta.artist_id != NO_ARTIST ==> forall|p: int|
            window <= p < chosen.len() ==> catalog.tracks@[#[trigger] chosen[p] as int].artist_id
                != meta.artist_id
        &&& c.allow_same_album_consecutive || meta.album_id@.len() == 0 || meta.album_id@
            != previous.album_id@
        &&& (match (c.max_bpm_delta, meta.bpm, previous.bpm) {
            (Some(limit), Some(a), Some(b)) => gap(a as int, b as int) <= limit,
            _ => true,
        })
    }
}

/// Every entry is a row of the catalog.
pub open spec fn are_rows(catalog: Catalog, rows: Seq<usize>) -> bool {
    forall|i: int| 0 <= i < rows.len() ==> #[trigger] rows[i] < catalog.tracks@.len()
}

/// `scores` with what `hidden` picks out pushed below everything.
pub open spec fn masked(scores: Seq<Score>, hidden: spec_fn(int) -> bool) -> Seq<Score> {
    Seq::new(
        scores.len(),
        |j: int|
            if hidden(j) {
                Score::Masked
            } else {
                scores[j]
            },
    )
}

/// `pick` is the first row in the order of `scores` that is `fit`.
pub open spec fn first_fit(
    scores: Seq<Score>,
    fit: spec_fn(int) -> bool,
    pick: Option<usize>,
) -> bool {
    match pick {
        Some(j) => {
            &&& j < scores.len()
            &&& fit(j as int)
            &&& forall|h: int|
                0 <= h < scores.len() && h != j && #[trigger] fit(h) ==> before(scores, j as int, h)
        },
        None => forall|h: int| 0 <= h < scores.len() ==> !#[trigger] fit(h),
    }
}

/// `step` shows row `row`.
pub open spec fn shows(catalog: Catalog, step: Step, row: usize, similarity: Option<Score>) -> bool {
    step.track == catalog.tracks@[row as int] && step.similarity == similarity
}

/// The steps show these rows, without similarities.
pub open spec fn show_rows(catalog: Catalog, steps: Seq<Step>, rows: Seq<usize>) -> bool {
    &&& steps.len() == rows.len()
    &&& forall|i: int|
        0 <= i < rows.len() ==> shows(catalog, #[trigger] steps[i], rows[i], None)
}

/// What a neighbour may not be: the track itself, anything blocked, and, on
/// request, anything by the same artist.
pub open spec fn no_neighbour(catalog: Catalog, i: int, exclude_same_artist: bool, j: int) -> bool {
    ||| j == i
    ||| catalog.blocks(j)
    ||| exclude_same_artist && catalog.tracks@[i].artist_id != NO_ARTIST
        && catalog.tracks@[j].artist_id == catalog.tracks@[i].artist_id
}

/// The rows that may be neighbours of row `i`.
pub open spec fn may_neighbour(catalog: Catalog, i: int, exclude_same_artist: bool) -> spec_fn(
    int,
) -> bool {
    |j: int| !no_neighbour(catalog, i, exclude_same_artist, j)
}

/// The steps show the `k` closest rows that may be neighbours of row `i`, the
/// closest first, given every row's similarity to it; all of them, where there
/// are fewer.
pub open spec fn shows_neighbours(
    catalog: Catalog,
    i: int,
    k: nat,
    exclude_same_artist: bool,
    similarities: Seq<Score>,
    steps: Seq<Step>,
) -> bool {
    let fit = may_neighbour(catalog, i, exclude_same_artist);
    let rows = foremost_fit(similarities, fit, k);
    &&& leads_the_fit(similarities, fit, k, rows)
    &&& steps.len() == rows.len()
    &&& forall|r: int|
        0 <= r < steps.len() ==> shows(
            catalog,
            #[trigger] steps[r],
            rows[r],
            Some(similarities[rows[r] as int]),
        )
}

/// The rows that may be neighbours of row `i`, as a set.
pub open spec fn possible_neighbours(catalog: Catalog, i: int, exclude_same_artist: bool) -> Set<
    usize,
> {
    Set::new(
        |j: usize|
            j < catalog.tracks@.len() && !no_neighbour(catalog, i, exclude_same_artist, j as int),
    )
}

/// `step` shows a row that may be a neighbour of row `i`, at its similarity.
pub open spec fn shows_possible(
    catalog: Catalog,
    i: int,
    exclude_same_artist: bool,
    similarities: Seq<Score>,
    step: Step,
) -> bool {
    exists|row: usize|
        possible_neighbours(catalog, i, exclude_same_artist).contains(row) && #[trigger] shows(
            catalog,
            step,
            row,
            Some(similarities[row as int]),
        )
}

/// Every neighbour is a row that may be one: never the track itself, nothing
/// hidden and, on request, nothing by the same artist. There are as many as
/// were asked for, or as may be had.
pub proof fn a_neighbour_may_be_one(
    catalog: Catalog,
    i: int,
    k: nat,
    exclude_same_artist: bool,
    similarities: Seq<Score>,
    steps: Seq<Step>,
)
    requires
        similarities.len() == catalog.tracks@.len(),
        shows_neighbours(catalog, i, k, exclude_same_artist, similarities, steps),
    ensures
        possible_neighbours(catalog, i, exclude_same_artist).finite(),
        steps.len() == (if k <= possible_neighbours(catalog, i, exclude_same_artist).len() {
            k
        } else {
            possible_neighbours(catalog, i, exclude_same_artist).len()
        }),
        forall|r: int|
            0 <= r < steps.len() ==> shows_possible(
                catalog,
                i,
                exclude_same_artist,
                similarities,
                #[trigger] steps[r],
            ),
{
    let fit = may_neighbour(catalog, i, exclude_same_artist);
    let rows = foremost_fit(similarities, fit, k);
    let all = possible_neighbours(catalog, i, exclude_same_artist);
    assert(all =~= fitting(similarities.len(), fit));
    assert forall|r: int| 0 <= r < steps.len() implies shows_possible(
        catalog,
        i,
        exclude_same_artist,
        similarities,
        #[trigger] steps[r],
    ) by {
        assert(all.contains(rows[r]));
        assert(shows(catalog, steps[r], rows[r], Some(similarities[rows[r] as int])));
    }
}

impl Navigator {
    /// The graph is over this catalog's rows and leads to no blocked one.
    pub open spec fn graph_fits(self, graph: Seq<Vec<(usize, i32)>>) -> bool {
        &&& graph.len() == self.catalog.tracks@.len()
        &&& forall|u: int, e: int|
            #![trigger graph[u]@[e]]
            0 <= u < graph.len() && 0 <= e < graph[u]@.len() ==> graph[u]@[e].0 < graph.len()
                && !self.catalog.blocks(graph[u]@[e].0 as int)
    }

    pub open spec fn wf(self) -> bool {
        &&& forall|id: i64| #[trigger]
            self.index_of@.contains_key(id) ==> self.index_of@[id] < self.catalog.tracks@.len()
        &&& self.knn matches Some((_, graph)) ==> self.graph_fits(graph@)
    }

    /// The row of a track that is in the space and not blocked.
    pub open spec fn open_row(self, id: i64) -> Option<usize> {
        if self.index_of@.contains_key(id) && !self.catalog.blocks(self.index_of@[id] as int) {
            Some(self.index_of@[id])
        } else {
            None
        }
    }

    pub fn new(index_of: HashMap<i64, usize>, catalog: Catalog) -> (nav: Self)
        requires
            forall|id: i64| #[trigger]
                index_of@.contains_key(id) ==> index_of@[id] < catalog.tracks@.len(),
        ensures
            nav.wf(),
            nav.catalog == catalog,
            nav.index_of == index_of,
            nav.knn is None,
    {
        Navigator { catalog, index_of, knn: None }
    }

    fn find_row(&self, id: i64) -> (row: Option<usize>)
        ensures
            row == self.open_row(id),
    {
        match self.index_of.get(&id) {
            Some(row) => if self.catalog.is_blocked(*row) {
                None
            } else {
                Some(*row)
            },
            None => None,
        }
    }

    /// Push blocked rows out of reach of any ranking.
    pub fn mask_blocked(&self, scores: &mut Vec<Score>)
        ensures
            final(scores)@ == masked(old(scores)@, |j: int| self.catalog.blocks(j)),
    {
        let ghost start = scores@;
        let mut j: usize = 0;
        while j < scores.len()
            invariant
                j <= scores@.len(),
                scores@.len() == start.len(),
                forall|h: int|
                    0 <= h < scores@.len() ==> #[trigger] scores@[h] == (if h < j
                        && self.catalog.blocks(h) {
                        Score::Masked
                    } else {
                        start[h]
                    }),
            decreases scores@.len() - j,
        {
            if self.catalog.is_blocked(j) {
                scores.set(j, Score::Masked);
            }
            j = j + 1;
        }
        assert(scores@ =~= masked(start, |j: int| self.catalog.blocks(j)));
    }

    /// Drop the cached graph. Needed when visibility changes, since the
    /// graph's edges were chosen over the old set of reachable tracks.
    pub fn invalidate_graph(&mut self)
        requires
            old(self).wf(),
        ensures
            final(self).wf(),
            final(self).knn is None,
            final(self).catalog == old(self).catalog,
            final(self).index_of == old(self).index_of,
    {
        self.knn = None;
    }

    fn step(&self, i: usize, similarity: Option<Score>) -> (step: Step)
        requires
            i < self.catalog.tracks@.len(),
        ensures
            shows(self.catalog, step, i, similarity),
    {
        Step { track: self.catalog.get(i).clone(), similarity }
    }

    fn steps(&self, rows: &[usize]) -> (steps: Vec<Step>)
        requires
            are_rows(self.catalog, rows@),
        ensures
            show_rows(self.catalog, steps@, rows@),
    {
        let mut steps: Vec<Step> = Vec::new();
        let mut i: usize = 0;
        while i < rows.len()
            invariant
                are_rows(self.catalog, rows@),
                i <= rows@.len(),
                steps@.len() == i,
                forall|h: int| 0 <= h < i ==> shows(self.catalog, #[trigger] steps@[h], rows@[h], None),
            decreases rows@.len() - i,
        {
            assert(rows@[i as int] < self.catalog.tracks@.len());
            steps.push(self.step(rows[i], None));
            i = i + 1;
        }
        steps
    }

    // ------------------------------------------------------------ primitives

    fn is_no_neighbour(&self, i: usize, exclude_same_artist: bool, j: usize) -> (yes: bool)
        requires
            i < self.catalog.tracks@.len(),
            j < self.catalog.tracks@.len(),
        ensures
            yes == no_neighbour(self.catalog, i as int, exclude_same_artist, j as int),
    {
        let artist: i64 = self.catalog.get(i).artist_id;
        j == i || self.catalog.is_blocked(j) || (exclude_same_artist && artist != NO_ARTIST
            && self.catalog.get(j).artist_id == artist)
    }

    /// The neighbours of row `i`, given every row's similarity to it.
    pub fn neighbours_of(
        &self,
        i: usize,
        k: usize,
        exclude_same_artist: bool,
        similarities: Vec<Score>,
    ) -> (steps: Vec<Step>)
        requires
            i < self.catalog.tracks@.len(),
            similarities@.len() == self.catalog.tracks@.len(),
        ensures
            shows_neighbours(
                self.catalog,
                i as int,
                k as nat,
                exclude_same_artist,
                similarities@,
                steps@,
            ),
    {
        let ghost fit = may_neighbour(self.catalog, i as int, exclude_same_artist);
        let open = |j: usize| -> (yes: bool)
            requires
                i < self.catalog.tracks@.len(),
                j < self.catalog.tracks@.len(),
            ensures
                yes == !no_neighbour(self.catalog, i as int, exclude_same_artist, j as int),
        {
            !self.is_no_neighbour(i, exclude_same_artist, j)
        };
        let rows = pick_foremost(similarities.as_slice(), k, open, Ghost(fit));
        let mut steps: Vec<Step> = Vec::new();
        let mut r: usize = 0;
        while r < rows.len()
            invariant
                leads_the_fit(similarities@, fit, k as nat, rows@),
                similarities@.len() == self.catalog.tracks@.len(),
                r <= rows@.len(),
                steps@.len() == r,
                forall|q: int|
                    0 <= q < r ==> shows(
                        self.catalog,
                        #[trigger] steps@[q],
                        rows@[q],
                        Some(similarities@[rows@[q] as int]),
                    ),
            decreases rows@.len() - r,
        {
            let row: usize = rows[r];
            assert(row == rows@[r as int]);
            steps.push(self.step(row, Some(similarities[row])));
            r = r + 1;
        }
        steps
    }

    /// The neighbours of a track; none where the space does not hold it.
    pub fn neighbours(
        &self,
        track_id: i64,
        k: usize,
        exclude_same_artist: bool,
        similarities: impl Fn(usize) -> Vec<Score>,
    ) -> (steps: Vec<Step>)
        requires
            self.wf(),
            forall|row: usize|
                row < self.catalog.tracks@.len() ==> #[trigger] similarities.requires((row,)),
            forall|row: usize, out: Vec<Score>| #[trigger]
                similarities.ensures((row,), out) ==> out@.len() == self.catalog.tracks@.len(),
        ensures
            self.shows_near(track_id, k, exclude_same_artist, similarities, steps@),
    {
        match self.index_of.get(&track_id) {
            None => Vec::new(),
            Some(i) => {
                let raw: Vec<Score> = similarities(*i);
                self.neighbours_of(*i, k, exclude_same_artist, raw)
            },
        }
    }

    /// Whether the constraints let `candidate` come next.
    pub fn allowed(&self, candidate: usize, chosen: &[usize], c: &Constraints) -> (yes: bool)
        requires
            candidate < self.catalog.tracks@.len(),
            are_rows(self.catalog, chosen@),
        ensures
            yes == allows(self.catalog, *c, candidate as int, chosen@),
    {
        if self.catalog.is_blocked(candidate) {
            return false;
        }
        let meta = self.catalog.get(candidate);
        if c.exclude.contains(&meta.track_id) {
            return false;
        }
        let n: usize = chosen.len();
        if n == 0 {
            return true;
        }
        let window: usize = if n >= c.artist_cooldown {
            n - c.artist_cooldown
        } else {
            0
        };
        if meta.artist_id != NO_ARTIST {
            let mut p: usize = window;
            while p < n
                invariant
                    window <= p <= n,
                    window == (if n >= c.artist_cooldown {
                        n - c.artist_cooldown
                    } else {
                        0
                    }),
                    n == chosen@.len(),
                    candidate < self.catalog.tracks@.len(),
                    meta.artist_id != NO_ARTIST,
                    are_rows(self.catalog, chosen@),
                    *meta == self.catalog.tracks@[candidate as int],
                    forall|q: int|
                        window <= q < p ==> self.catalog.tracks@[#[trigger] chosen@[q] as int].artist_id
                            != meta.artist_id,
                decreases n - p,
            {
                assert(chosen@[p as int] < self.catalog.tracks@.len());
                if self.catalog.get(chosen[p]).artist_id == meta.artist_id {
                    return false;
                }
                p = p + 1;
            }
        }
        assert(chosen@[n - 1] < self.catalog.tracks@.len());
        let previous = self.catalog.get(chosen[n - 1]);
        proof {
            reveal_strlit("");
            assert(meta.album_id@.len() == 0 ==> meta.album_id@ =~= ""@);
        }
        if !c.allow_same_album_consecutive && !crate::strings::same(meta.album_id.as_str(), "")
            && crate::strings::same(meta.album_id.as_str(), previous.album_id.as_str()) {
            return false;
        }
        match (c.max_bpm_delta, meta.bpm, previous.bpm) {
            (Some(limit), Some(a), Some(b)) => {
                let distance: i128 = if a >= b {
                    a as i128 - b as i128
                } else {
                    b as i128 - a as i128
                };
                distance <= limit as i128
            },
            _ => true,
        }
    }
}

// -------------------------------------------------------------------- walks

/// The first row in the order of `scores` that `fits` marks.
fn pick_first(scores: &[Score], fits: &[bool]) -> (pick: Option<usize>)
    requires
        scores@.len() == fits@.len(),
    ensures
        first_fit(scores@, |j: int| fits@[j], pick),
{
    let ghost fit = |j: int| fits@[j];
    let mut pick: Option<usize> = None;
    let mut j: usize = 0;
    while j < scores.len()
        invariant
            scores@.len() == fits@.len(),
            j <= scores@.len(),
            fit == (|j: int| fits@[j]),
            match pick {
                Some(b) => {
                    &&& b < j
                    &&& fit(b as int)
                    &&& forall|h: int|
                        0 <= h < j && h != b && #[trigger] fit(h) ==> before(scores@, b as int, h)
                },
                None => forall|h: int| 0 <= h < j ==> !#[trigger] fit(h),
            },
        decreases scores@.len() - j,
    {
        if fits[j] {
            match pick {
                None => {
                    pick = Some(j);
                },
                Some(b) => {
                    if !scores[b].is_no_later(&scores[j]) {
                        proof {
                            Score::any_two_compare(scores@[b as int], scores@[j as int]);
                            assert(before(scores@, j as int, b as int));
                            assert forall|h: int| 0 <= h < j + 1 && h != j && #[trigger] fit(
                                h,
                            ) implies before(scores@, j as int, h) by {
                                if h != b {
                                    crate::ordering::lemma_before_carries(
                                        scores@,
                                        j as int,
                                        b as int,
                                        h,
                                    );
                                }
                            }
                        }
                        pick = Some(j);
                    }
                },
            }
        }
        j = j + 1;
    }
    pick
}

/// Which of two ways of saying what is fit are the same.
proof fn lemma_same_fit(
    scores: Seq<Score>,
    fit: spec_fn(int) -> bool,
    other: spec_fn(int) -> bool,
    pick: Option<usize>,
)
    requires
        first_fit(scores, fit, pick),
        forall|j: int| 0 <= j < scores.len() ==> #[trigger] fit(j) == other(j),
    ensures
        first_fit(scores, other, pick),
{
    assert forall|h: int| 0 <= h < scores.len() && #[trigger] other(h) implies fit(h) by {
        assert(fit(h) == other(h));
    }
    assert forall|h: int| 0 <= h < scores.len() && !#[trigger] other(h) implies !fit(h) by {
        assert(fit(h) == other(h));
    }
}

/// How many of the chosen rows are by `artist`.
pub open spec fn times(catalog: Catalog, chosen: Seq<usize>, artist: i64) -> nat
    decreases chosen.len(),
{
    if chosen.len() == 0 {
        0
    } else {
        times(catalog, chosen.drop_last(), artist) + (if catalog.tracks@[chosen.last() as int].artist_id
            == artist {
            1nat
        } else {
            0nat
        })
    }
}

/// How often each row's artist has been chosen. No artist is never a repeat.
pub open spec fn repeats(catalog: Catalog, chosen: Seq<usize>) -> Seq<usize> {
    Seq::new(
        catalog.tracks@.len(),
        |j: int|
            if catalog.tracks@[j].artist_id == NO_ARTIST {
                0usize
            } else {
                times(catalog, chosen, catalog.tracks@[j].artist_id) as usize
            },
    )
}

proof fn lemma_times_bounded(catalog: Catalog, chosen: Seq<usize>, artist: i64)
    ensures
        times(catalog, chosen, artist) <= chosen.len(),
    decreases chosen.len(),
{
    if chosen.len() > 0 {
        lemma_times_bounded(catalog, chosen.drop_last(), artist);
    }
}

/// Scores with what a radio walk may not return to pushed out of reach.
pub open spec fn radio_scores(catalog: Catalog, chosen: Seq<usize>, raw: Seq<Score>) -> Seq<Score> {
    masked(raw, |j: int| chosen.contains(j as usize) || catalog.blocks(j))
}

/// The next row of a radio walk: the closest one in reach that the constraints
/// accept.
pub open spec fn radio_pick(
    catalog: Catalog,
    c: Constraints,
    chosen: Seq<usize>,
    raw: Seq<Score>,
    pick: Option<usize>,
) -> bool {
    let scores = radio_scores(catalog, chosen, raw);
    first_fit(scores, |j: int| scores[j] is At && allows(catalog, c, j, chosen), pick)
}

/// Asked for the scores after `chosen`, `score` gave `raw`.
pub open spec fn scored<F: Fn(usize, Vec<usize>) -> Vec<Score>>(
    catalog: Catalog,
    score: F,
    chosen: Seq<usize>,
    raw: Vec<Score>,
) -> bool {
    exists|counts: Vec<usize>| #[trigger]
        score.ensures((chosen.last(), counts), raw) && counts@ == repeats(catalog, chosen)
}

/// The row at `p` is the one to pick by the scores that followed what came
/// before it, and `similarity` is its score there.
pub open spec fn radio_step<F: Fn(usize, Vec<usize>) -> Vec<Score>>(
    catalog: Catalog,
    c: Constraints,
    score: F,
    sooner: Seq<usize>,
    row: usize,
    similarity: Option<Score>,
) -> bool {
    exists|raw: Vec<Score>| #[trigger]
        scored(catalog, score, sooner, raw) && radio_pick(catalog, c, sooner, raw@, Some(row))
            && similarity == Some(raw@[row as int])
}

/// By the scores that followed `rows`, nothing can come next.
pub open spec fn radio_stuck<F: Fn(usize, Vec<usize>) -> Vec<Score>>(
    catalog: Catalog,
    c: Constraints,
    score: F,
    rows: Seq<usize>,
) -> bool {
    exists|raw: Vec<Score>| #[trigger]
        scored(catalog, score, rows, raw) && radio_pick(catalog, c, rows, raw@, None)
}

/// Every row but the first was picked by the scores that followed what came
/// before it.
pub open spec fn radio_chain<F: Fn(usize, Vec<usize>) -> Vec<Score>>(
    catalog: Catalog,
    c: Constraints,
    score: F,
    rows: Seq<usize>,
    similarity: Seq<Option<Score>>,
) -> bool {
    &&& rows.len() == similarity.len()
    &&& similarity.len() > 0 ==> similarity[0] is None
    &&& forall|p: int|
        1 <= p < rows.len() ==> #[trigger] radio_step(
            catalog,
            c,
            score,
            rows.take(p),
            rows[p],
            similarity[p],
        )
}

proof fn lemma_chain_grows<F: Fn(usize, Vec<usize>) -> Vec<Score>>(
    catalog: Catalog,
    c: Constraints,
    score: F,
    rows: Seq<usize>,
    similarity: Seq<Option<Score>>,
    row: usize,
    last: Option<Score>,
)
    requires
        rows.len() > 0,
        radio_chain(catalog, c, score, rows, similarity),
        radio_step(catalog, c, score, rows, row, last),
    ensures
        radio_chain(catalog, c, score, rows.push(row), similarity.push(last)),
{
    let more = rows.push(row);
    let sims = similarity.push(last);
    assert forall|p: int| 1 <= p < more.len() implies #[trigger] radio_step(
        catalog,
        c,
        score,
        more.take(p),
        more[p],
        sims[p],
    ) by {
        if p < rows.len() {
            assert(more.take(p) =~= rows.take(p));
            assert(radio_step(catalog, c, score, rows.take(p), rows[p], similarity[p]));
        } else {
            assert(more.take(p) =~= rows);
        }
    }
}

/// `rows` is a radio walk of at most `steps` rows, with the similarity each
/// was picked for. It ends early only where nothing could follow.
pub open spec fn radio_walked<F: Fn(usize, Vec<usize>) -> Vec<Score>>(
    catalog: Catalog,
    c: Constraints,
    steps: int,
    score: F,
    rows: Seq<usize>,
    similarity: Seq<Option<Score>>,
) -> bool {
    &&& 1 <= rows.len()
    &&& rows.len() == 1 || rows.len() <= steps
    &&& radio_chain(catalog, c, score, rows, similarity)
    &&& rows.len() < steps ==> radio_stuck(catalog, c, score, rows)
}

/// Every pick of a radio walk is one the constraints accept, in reach, and
/// not in the walk already.
pub proof fn a_radio_walk_keeps_the_rules<F: Fn(usize, Vec<usize>) -> Vec<Score>>(
    catalog: Catalog,
    c: Constraints,
    steps: int,
    score: F,
    rows: Seq<usize>,
    similarity: Seq<Option<Score>>,
)
    requires
        radio_walked(catalog, c, steps, score, rows, similarity),
    ensures
        by_the_rules(catalog, c, rows),
        rows.no_duplicates(),
        forall|p: int|
            1 <= p < rows.len() ==> !catalog.blocks(#[trigger] rows[p] as int) && (
            similarity[p] matches Some(s) && s is At),
{
    assert forall|p: int| 1 <= p < rows.len() implies #[trigger] allows(
        catalog,
        c,
        rows[p] as int,
        rows.take(p),
    ) && !rows.take(p).contains(rows[p]) && (similarity[p] matches Some(s) && s is At) by {
        let sooner = rows.take(p);
        assert(radio_step(catalog, c, score, sooner, rows[p], similarity[p]));
        let raw = choose|raw: Vec<Score>| #[trigger]
            scored(catalog, score, sooner, raw) && radio_pick(
                catalog,
                c,
                sooner,
                raw@,
                Some(rows[p]),
            ) && similarity[p] == Some(raw@[rows[p] as int]);
        let scores = radio_scores(catalog, sooner, raw@);
        let fit = |j: int| scores[j] is At && allows(catalog, c, j, sooner);
        assert(fit(rows[p] as int));
        assert(!sooner.contains(rows[p] as int as usize));
    }
    assert forall|p: int| 1 <= p < rows.len() implies !catalog.blocks(#[trigger] rows[p] as int)
        && (similarity[p] matches Some(s) && s is At) by {
        assert(allows(catalog, c, rows[p] as int, rows.take(p)));
    }
    lemma_none_returns(catalog, c, rows);
}

/// Rows that are each not among those before them are all different.
proof fn lemma_none_returns(catalog: Catalog, c: Constraints, rows: Seq<usize>)
    requires
        forall|p: int|
            1 <= p < rows.len() ==> #[trigger] allows(catalog, c, rows[p] as int, rows.take(p))
                && !rows.take(p).contains(rows[p]),
    ensures
        rows.no_duplicates(),
{
    assert forall|i: int, j: int| 0 <= i < j < rows.len() implies rows[i] != rows[j] by {
        assert(allows(catalog, c, rows[j] as int, rows.take(j)));
        assert(rows.take(j)[i] == rows[i]);
    }
}

/// Asked twice about the same row and the same repeats, `score` gives the same
/// scores.
pub open spec fn settled_scores<F: Fn(usize, Vec<usize>) -> Vec<Score>>(score: F) -> bool {
    forall|row: usize, a: Vec<usize>, b: Vec<usize>, x: Vec<Score>, y: Vec<Score>|
        #![trigger score.ensures((row, a), x), score.ensures((row, b), y)]
        score.ensures((row, a), x) && score.ensures((row, b), y) && a@ == b@ ==> x@ == y@
}

/// Only one row is the first fit.
proof fn lemma_one_first_fit(
    scores: Seq<Score>,
    fit: spec_fn(int) -> bool,
    a: Option<usize>,
    b: Option<usize>,
)
    requires
        first_fit(scores, fit, a),
        first_fit(scores, fit, b),
    ensures
        a == b,
{
    match (a, b) {
        (Some(i), Some(j)) => {
            if i != j {
                assert(fit(i as int) && fit(j as int));
                assert(before(scores, i as int, j as int));
                assert(before(scores, j as int, i as int));
            }
        },
        (Some(i), None) => {
            assert(fit(i as int));
        },
        (None, Some(j)) => {
            assert(fit(j as int));
        },
        (None, None) => {},
    }
}

/// What follows the same rows by settled scores is the same.
proof fn lemma_one_radio_pick<F: Fn(usize, Vec<usize>) -> Vec<Score>>(
    catalog: Catalog,
    c: Constraints,
    score: F,
    chosen: Seq<usize>,
    x: Vec<Score>,
    a: Option<usize>,
    y: Vec<Score>,
    b: Option<usize>,
)
    requires
        settled_scores(score),
        scored(catalog, score, chosen, x),
        scored(catalog, score, chosen, y),
        radio_pick(catalog, c, chosen, x@, a),
        radio_pick(catalog, c, chosen, y@, b),
    ensures
        x@ == y@,
        a == b,
{
    let r = choose|counts: Vec<usize>| #[trigger]
        score.ensures((chosen.last(), counts), x) && counts@ == repeats(catalog, chosen);
    let s = choose|counts: Vec<usize>| #[trigger]
        score.ensures((chosen.last(), counts), y) && counts@ == repeats(catalog, chosen);
    assert(r@ == s@);
    let scores = radio_scores(catalog, chosen, x@);
    lemma_one_first_fit(scores, |j: int| scores[j] is At && allows(catalog, c, j, chosen), a, b);
}

proof fn lemma_radio_walks_agree<F: Fn(usize, Vec<usize>) -> Vec<Score>>(
    catalog: Catalog,
    c: Constraints,
    score: F,
    rows: Seq<usize>,
    similarity: Seq<Option<Score>>,
    other: Seq<usize>,
    other_similarity: Seq<Option<Score>>,
    p: int,
)
    requires
        settled_scores(score),
        radio_chain(catalog, c, score, rows, similarity),
        radio_chain(catalog, c, score, other, other_similarity),
        1 <= p <= rows.len(),
        p <= other.len(),
        rows[0] == other[0],
    ensures
        rows.take(p) == other.take(p),
        similarity.take(p) == other_similarity.take(p),
    decreases p,
{
    if p == 1 {
        assert(rows.take(1) =~= other.take(1));
        assert(similarity.take(1) =~= other_similarity.take(1));
    } else {
        let q = p - 1;
        lemma_radio_walks_agree(
            catalog,
            c,
            score,
            rows,
            similarity,
            other,
            other_similarity,
            q,
        );
        let sooner = rows.take(q);
        assert(radio_step(catalog, c, score, rows.take(q), rows[q], similarity[q]));
        assert(radio_step(catalog, c, score, other.take(q), other[q], other_similarity[q]));
        let x = choose|raw: Vec<Score>| #[trigger]
            scored(catalog, score, sooner, raw) && radio_pick(
                catalog,
                c,
                sooner,
                raw@,
                Some(rows[q]),
            ) && similarity[q] == Some(raw@[rows[q] as int]);
        let y = choose|raw: Vec<Score>| #[trigger]
            scored(catalog, score, sooner, raw) && radio_pick(
                catalog,
                c,
                sooner,
                raw@,
                Some(other[q]),
            ) && other_similarity[q] == Some(raw@[other[q] as int]);
        lemma_one_radio_pick(catalog, c, score, sooner, x, Some(rows[q]), y, Some(other[q]));
        assert(rows.take(p) =~= rows.take(q).push(rows[q]));
        assert(other.take(p) =~= other.take(q).push(other[q]));
        assert(similarity.take(p) =~= similarity.take(q).push(similarity[q]));
        assert(other_similarity.take(p) =~= other_similarity.take(q).push(other_similarity[q]));
    }
}

proof fn lemma_no_radio_walk_outlasts<F: Fn(usize, Vec<usize>) -> Vec<Score>>(
    catalog: Catalog,
    c: Constraints,
    steps: int,
    score: F,
    rows: Seq<usize>,
    similarity: Seq<Option<Score>>,
    other: Seq<usize>,
    other_similarity: Seq<Option<Score>>,
)
    requires
        settled_scores(score),
        radio_walked(catalog, c, steps, score, rows, similarity),
        radio_walked(catalog, c, steps, score, other, other_similarity),
        rows[0] == other[0],
    ensures
        other.len() <= rows.len(),
{
    if rows.len() < other.len() {
        let n = rows.len() as int;
        lemma_radio_walks_agree(
            catalog,
            c,
            score,
            rows,
            similarity,
            other,
            other_similarity,
            n,
        );
        assert(rows.take(n) =~= rows);
        assert(radio_stuck(catalog, c, score, rows));
        let x = choose|raw: Vec<Score>| #[trigger]
            scored(catalog, score, rows, raw) && radio_pick(catalog, c, rows, raw@, None);
        assert(radio_step(catalog, c, score, other.take(n), other[n], other_similarity[n]));
        let y = choose|raw: Vec<Score>| #[trigger]
            scored(catalog, score, rows, raw) && radio_pick(
                catalog,
                c,
                rows,
                raw@,
                Some(other[n]),
            ) && other_similarity[n] == Some(raw@[other[n] as int]);
        lemma_one_radio_pick(catalog, c, score, rows, x, None, y, Some(other[n]));
    }
}

/// Radio is deterministic: by scores that do not change, the same start gives
/// the same walk.
pub proof fn the_same_start_gives_the_same_radio<F: Fn(usize, Vec<usize>) -> Vec<Score>>(
    catalog: Catalog,
    c: Constraints,
    steps: int,
    score: F,
    rows: Seq<usize>,
    similarity: Seq<Option<Score>>,
    other: Seq<usize>,
    other_similarity: Seq<Option<Score>>,
)
    requires
        settled_scores(score),
        radio_walked(catalog, c, steps, score, rows, similarity),
        radio_walked(catalog, c, steps, score, other, other_similarity),
        rows[0] == other[0],
    ensures
        rows == other,
        similarity == other_similarity,
{
    lemma_no_radio_walk_outlasts(
        catalog,
        c,
        steps,
        score,
        rows,
        similarity,
        other,
        other_similarity,
    );
    lemma_no_radio_walk_outlasts(
        catalog,
        c,
        steps,
        score,
        other,
        other_similarity,
        rows,
        similarity,
    );
    let n = rows.len() as int;
    lemma_radio_walks_agree(catalog, c, score, rows, similarity, other, other_similarity, n);
    assert(rows.take(n) =~= rows);
    assert(other.take(n) =~= other);
    assert(similarity.take(n) =~= similarity);
    assert(other_similarity.take(n) =~= other_similarity);
}

/// Every row but the first is one the constraints let follow the rows before
/// it.
pub open spec fn by_the_rules(catalog: Catalog, c: Constraints, rows: Seq<usize>) -> bool {
    forall|p: int|
        1 <= p < rows.len() ==> #[trigger] allows(catalog, c, rows[p] as int, rows.take(p))
}

/// In a walk that keeps the rules a known artist does not return before the
/// cooldown is over, and neighbours neither share an album, unless that is
/// allowed, nor lie further apart in tempo than the limit.
pub proof fn an_artist_waits_its_turn(
    catalog: Catalog,
    c: Constraints,
    rows: Seq<usize>,
    p: int,
    q: int,
)
    requires
        by_the_rules(catalog, c, rows),
        0 <= p < q < rows.len(),
    ensures
        q - p <= c.artist_cooldown && catalog.tracks@[rows[q] as int].artist_id != NO_ARTIST
            ==> catalog.tracks@[rows[p] as int].artist_id
            != catalog.tracks@[rows[q] as int].artist_id,
        q == p + 1 && !c.allow_same_album_consecutive && catalog.tracks@[rows[q] as int].album_id@.len()
            > 0 ==> catalog.tracks@[rows[p] as int].album_id@
            != catalog.tracks@[rows[q] as int].album_id@,
        q == p + 1 ==> match (
            c.max_bpm_delta,
            catalog.tracks@[rows[q] as int].bpm,
            catalog.tracks@[rows[p] as int].bpm,
        ) {
            (Some(limit), Some(a), Some(b)) => gap(a as int, b as int) <= limit,
            _ => true,
        },
{
    let sooner = rows.take(q);
    assert(allows(catalog, c, rows[q] as int, sooner));
    assert(sooner[p] == rows[p]);
    assert(q == p + 1 ==> sooner.last() == rows[p]);
}

/// What a stepwise walk may pick: not used, and acceptable to the constraints.
pub open spec fn snap_fit(
    catalog: Catalog,
    c: Constraints,
    chosen: Seq<usize>,
    also: Option<usize>,
) -> spec_fn(int) -> bool {
    |j: int|
        !chosen.contains(j as usize) && also != Some(j as usize) && allows(catalog, c, j, chosen)
}

/// Asked for every row's similarity to the waypoint `step` steps along from
/// `start` towards the middle of `targets`, `at` gave `raw`.
pub open spec fn aimed<F: Fn(usize, Vec<usize>, usize) -> Vec<Score>>(
    at: F,
    start: usize,
    targets: Seq<usize>,
    step: int,
    raw: Vec<Score>,
) -> bool {
    exists|asked: Vec<usize>| #[trigger]
        at.ensures((start, asked, step as usize), raw) && asked@ == targets
}

/// `row` is the acceptable row closest to the waypoint that follows `sooner`.
pub open spec fn snap_step<F: Fn(usize, Vec<usize>, usize) -> Vec<Score>>(
    catalog: Catalog,
    c: Constraints,
    also: Option<usize>,
    at: F,
    targets: Seq<usize>,
    sooner: Seq<usize>,
    row: Option<usize>,
) -> bool {
    exists|raw: Vec<Score>| #[trigger]
        aimed(at, sooner[0], targets, sooner.len() as int, raw) && first_fit(
            raw@,
            snap_fit(catalog, c, sooner, also),
            row,
        )
}

pub open spec fn snap_chain<F: Fn(usize, Vec<usize>, usize) -> Vec<Score>>(
    catalog: Catalog,
    c: Constraints,
    also: Option<usize>,
    at: F,
    targets: Seq<usize>,
    rows: Seq<usize>,
) -> bool {
    forall|p: int|
        1 <= p < rows.len() ==> #[trigger] snap_step(
            catalog,
            c,
            also,
            at,
            targets,
            rows.take(p),
            Some(rows[p]),
        )
}

proof fn lemma_snap_grows<F: Fn(usize, Vec<usize>, usize) -> Vec<Score>>(
    catalog: Catalog,
    c: Constraints,
    also: Option<usize>,
    at: F,
    targets: Seq<usize>,
    rows: Seq<usize>,
    row: usize,
)
    requires
        rows.len() > 0,
        snap_chain(catalog, c, also, at, targets, rows),
        snap_step(catalog, c, also, at, targets, rows, Some(row)),
    ensures
        snap_chain(catalog, c, also, at, targets, rows.push(row)),
{
    let more = rows.push(row);
    assert forall|p: int| 1 <= p < more.len() implies #[trigger] snap_step(
        catalog,
        c,
        also,
        at,
        targets,
        more.take(p),
        Some(more[p]),
    ) by {
        if p < rows.len() {
            assert(more.take(p) =~= rows.take(p));
            assert(snap_step(catalog, c, also, at, targets, rows.take(p), Some(rows[p])));
        } else {
            assert(more.take(p) =~= rows);
        }
    }
}

/// `rows` is a walk that at each step takes the acceptable row closest to that
/// step's waypoint. It leaves `also` alone, has fewer than `end` steps after
/// the first row, and fewer still only where nothing could follow.
pub open spec fn snap_walked<F: Fn(usize, Vec<usize>, usize) -> Vec<Score>>(
    catalog: Catalog,
    c: Constraints,
    also: Option<usize>,
    end: int,
    at: F,
    targets: Seq<usize>,
    rows: Seq<usize>,
) -> bool {
    &&& 1 <= rows.len()
    &&& rows.len() == 1 || rows.len() <= end
    &&& snap_chain(catalog, c, also, at, targets, rows)
    &&& rows.len() < end ==> snap_step(catalog, c, also, at, targets, rows, None)
}

/// Every pick of a stepwise walk is one the constraints accept, and not in the
/// walk already.
pub proof fn a_stepwise_walk_keeps_the_rules<F: Fn(usize, Vec<usize>, usize) -> Vec<Score>>(
    catalog: Catalog,
    c: Constraints,
    also: Option<usize>,
    end: int,
    at: F,
    targets: Seq<usize>,
    rows: Seq<usize>,
)
    requires
        snap_walked(catalog, c, also, end, at, targets, rows),
    ensures
        by_the_rules(catalog, c, rows),
        rows.no_duplicates(),
        forall|p: int|
            1 <= p < rows.len() ==> !catalog.blocks(#[trigger] rows[p] as int) && also != Some(
                rows[p],
            ),
{
    assert forall|p: int| 1 <= p < rows.len() implies #[trigger] allows(
        catalog,
        c,
        rows[p] as int,
        rows.take(p),
    ) && !rows.take(p).contains(rows[p]) && also != Some(rows[p]) by {
        let sooner = rows.take(p);
        assert(snap_step(catalog, c, also, at, targets, sooner, Some(rows[p])));
        let fit = snap_fit(catalog, c, sooner, also);
        assert(fit(rows[p] as int));
        assert(!sooner.contains(rows[p] as int as usize));
    }
    assert forall|p: int| 1 <= p < rows.len() implies !catalog.blocks(#[trigger] rows[p] as int)
        && also != Some(rows[p]) by {
        assert(allows(catalog, c, rows[p] as int, rows.take(p)));
    }
    lemma_none_returns(catalog, c, rows);
}

/// Asked twice about the same waypoint, `at` gives the same similarities.
pub open spec fn settled_waypoints<F: Fn(usize, Vec<usize>, usize) -> Vec<Score>>(at: F) -> bool {
    forall|from: usize, a: Vec<usize>, b: Vec<usize>, step: usize, x: Vec<Score>, y: Vec<Score>|
        #![trigger at.ensures((from, a, step), x), at.ensures((from, b, step), y)]
        at.ensures((from, a, step), x) && at.ensures((from, b, step), y) && a@ == b@ ==> x@ == y@
}

/// What follows the same rows towards the same waypoint is the same.
proof fn lemma_one_snap<F: Fn(usize, Vec<usize>, usize) -> Vec<Score>>(
    catalog: Catalog,
    c: Constraints,
    also: Option<usize>,
    at: F,
    targets: Seq<usize>,
    sooner: Seq<usize>,
    a: Option<usize>,
    b: Option<usize>,
)
    requires
        settled_waypoints(at),
        snap_step(catalog, c, also, at, targets, sooner, a),
        snap_step(catalog, c, also, at, targets, sooner, b),
    ensures
        a == b,
{
    let fit = snap_fit(catalog, c, sooner, also);
    let n = sooner.len() as int;
    let x = choose|raw: Vec<Score>| #[trigger]
        aimed(at, sooner[0], targets, n, raw) && first_fit(raw@, fit, a);
    let y = choose|raw: Vec<Score>| #[trigger]
        aimed(at, sooner[0], targets, n, raw) && first_fit(raw@, fit, b);
    let r = choose|asked: Vec<usize>| #[trigger]
        at.ensures((sooner[0], asked, n as usize), x) && asked@ == targets;
    let s = choose|asked: Vec<usize>| #[trigger]
        at.ensures((sooner[0], asked, n as usize), y) && asked@ == targets;
    assert(r@ == s@);
    lemma_one_first_fit(x@, fit, a, b);
}

proof fn lemma_stepwise_walks_agree<F: Fn(usize, Vec<usize>, usize) -> Vec<Score>>(
    catalog: Catalog,
    c: Constraints,
    also: Option<usize>,
    at: F,
    targets: Seq<usize>,
    rows: Seq<usize>,
    other: Seq<usize>,
    p: int,
)
    requires
        settled_waypoints(at),
        snap_chain(catalog, c, also, at, targets, rows),
        snap_chain(catalog, c, also, at, targets, other),
        1 <= p <= rows.len(),
        p <= other.len(),
        rows[0] == other[0],
    ensures
        rows.take(p) == other.take(p),
    decreases p,
{
    if p == 1 {
        assert(rows.take(1) =~= other.take(1));
    } else {
        let q = p - 1;
        lemma_stepwise_walks_agree(catalog, c, also, at, targets, rows, other, q);
        assert(snap_step(catalog, c, also, at, targets, rows.take(q), Some(rows[q])));
        assert(snap_step(catalog, c, also, at, targets, other.take(q), Some(other[q])));
        lemma_one_snap(
            catalog,
            c,
            also,
            at,
            targets,
            rows.take(q),
            Some(rows[q]),
            Some(other[q]),
        );
        assert(rows.take(p) =~= rows.take(q).push(rows[q]));
        assert(other.take(p) =~= other.take(q).push(other[q]));
    }
}

proof fn lemma_no_stepwise_walk_outlasts<F: Fn(usize, Vec<usize>, usize) -> Vec<Score>>(
    catalog: Catalog,
    c: Constraints,
    also: Option<usize>,
    end: int,
    at: F,
    targets: Seq<usize>,
    rows: Seq<usize>,
    other: Seq<usize>,
)
    requires
        settled_waypoints(at),
        snap_walked(catalog, c, also, end, at, targets, rows),
        snap_walked(catalog, c, also, end, at, targets, other),
        rows[0] == other[0],
    ensures
        other.len() <= rows.len(),
{
    if rows.len() < other.len() {
        let n = rows.len() as int;
        lemma_stepwise_walks_agree(catalog, c, also, at, targets, rows, other, n);
        assert(rows.take(n) =~= rows);
        assert(snap_step(catalog, c, also, at, targets, rows, None));
        assert(snap_step(catalog, c, also, at, targets, other.take(n), Some(other[n])));
        lemma_one_snap(catalog, c, also, at, targets, rows, None, Some(other[n]));
    }
}

/// By similarities that do not change, a walk from the same start towards the
/// same targets is the same walk.
pub proof fn the_same_ends_give_the_same_walk<F: Fn(usize, Vec<usize>, usize) -> Vec<Score>>(
    catalog: Catalog,
    c: Constraints,
    also: Option<usize>,
    end: int,
    at: F,
    targets: Seq<usize>,
    rows: Seq<usize>,
    other: Seq<usize>,
)
    requires
        settled_waypoints(at),
        snap_walked(catalog, c, also, end, at, targets, rows),
        snap_walked(catalog, c, also, end, at, targets, other),
        rows[0] == other[0],
    ensures
        rows == other,
{
    lemma_no_stepwise_walk_outlasts(catalog, c, also, end, at, targets, rows, other);
    lemma_no_stepwise_walk_outlasts(catalog, c, also, end, at, targets, other, rows);
    let n = rows.len() as int;
    lemma_stepwise_walks_agree(catalog, c, also, at, targets, rows, other, n);
    assert(rows.take(n) =~= rows);
    assert(other.take(n) =~= other);
}

impl Navigator {
    /// What a radio walk does next, given the scores after the rows chosen so
    /// far.
    pub fn radio_next(&self, chosen: &[usize], raw: &[Score], c: &Constraints) -> (pick: Option<usize>)
        requires
            are_rows(self.catalog, chosen@),
            raw@.len() == self.catalog.tracks@.len(),
        ensures
            radio_pick(self.catalog, *c, chosen@, raw@, pick),
    {
        let n: usize = raw.len();
        let mut used: HashSet<usize> = HashSet::new();
        let mut i: usize = 0;
        while i < chosen.len()
            invariant
                i <= chosen@.len(),
                forall|r: usize| #[trigger] used@.contains(r) <==> chosen@.take(i as int).contains(r),
            decreases chosen@.len() - i,
        {
            let ghost earlier = used@;
            used.insert(chosen[i]);
            proof {
                let now = chosen@.take(i + 1);
                let sooner = chosen@.take(i as int);
                assert forall|r: usize| #[trigger] used@.contains(r) <==> now.contains(r) by {
                    if sooner.contains(r) {
                        let k = choose|k: int| 0 <= k < sooner.len() && sooner[k] == r;
                        assert(now[k] == r);
                    }
                    if now.contains(r) {
                        let k = choose|k: int| 0 <= k < now.len() && now[k] == r;
                        if k < i {
                            assert(sooner[k] == r);
                        }
                    }
                    if r == chosen@[i as int] {
                        assert(now[i as int] == r);
                    }
                }
            }
            i = i + 1;
        }
        assert(chosen@.take(chosen@.len() as int) =~= chosen@);
        let mut scores: Vec<Score> = Vec::new();
        let mut fits: Vec<bool> = Vec::new();
        let mut j: usize = 0;
        while j < n
            invariant
                j <= n,
                n == raw@.len(),
                n == self.catalog.tracks@.len(),
                are_rows(self.catalog, chosen@),
                forall|r: usize| #[trigger] used@.contains(r) <==> chosen@.contains(r),
                scores@.len() == j,
                fits@.len() == j,
                forall|h: int|
                    0 <= h < j ==> #[trigger] scores@[h] == radio_scores(
                        self.catalog,
                        chosen@,
                        raw@,
                    )[h],
                forall|h: int|
                    0 <= h < j ==> #[trigger] fits@[h] == (scores@[h] is At && allows(
                        self.catalog,
                        *c,
                        h,
                        chosen@,
                    )),
            decreases n - j,
        {
            let score: Score = if used.contains(&j) || self.catalog.is_blocked(j) {
                Score::Masked
            } else {
                raw[j]
            };
            let in_reach: bool = match score {
                Score::At(_) => true,
                Score::Masked => false,
            };
            scores.push(score);
            fits.push(in_reach && self.allowed(j, chosen, c));
            j = j + 1;
        }
        assert(scores@ =~= radio_scores(self.catalog, chosen@, raw@));
        let pick = pick_first(&scores, &fits);
        proof {
            let all = radio_scores(self.catalog, chosen@, raw@);
            lemma_same_fit(
                scores@,
                |j: int| fits@[j],
                |j: int| all[j] is At && allows(self.catalog, *c, j, chosen@),
                pick,
            );
        }
        pick
    }

    /// How often each row's artist is among the chosen rows.
    pub fn count_repeats(&self, chosen: &[usize]) -> (counts: Vec<usize>)
        requires
            are_rows(self.catalog, chosen@),
        ensures
            counts@ == repeats(self.catalog, chosen@),
    {
        let mut seen: HashMap<i64, usize> = HashMap::new();
        let mut i: usize = 0;
        while i < chosen.len()
            invariant
                i <= chosen@.len(),
                are_rows(self.catalog, chosen@),
                forall|a: i64| #[trigger]
                    seen@.contains_key(a) ==> seen@[a] == times(
                        self.catalog,
                        chosen@.take(i as int),
                        a,
                    ),
                forall|a: i64|
                    a != NO_ARTIST && !#[trigger] seen@.contains_key(a) ==> times(
                        self.catalog,
                        chosen@.take(i as int),
                        a,
                    ) == 0,
                !seen@.contains_key(NO_ARTIST),
            decreases chosen@.len() - i,
        {
            assert(chosen@[i as int] < self.catalog.tracks@.len());
            assert(chosen@.take(i + 1).drop_last() =~= chosen@.take(i as int));
            let artist: i64 = self.catalog.get(chosen[i]).artist_id;
            if artist != NO_ARTIST {
                let so_far: usize = match seen.get(&artist) {
                    Some(count) => *count,
                    None => 0,
                };
                proof {
                    lemma_times_bounded(self.catalog, chosen@.take(i as int), artist);
                }
                seen.insert(artist, so_far + 1);
            }
            i = i + 1;
        }
        assert(chosen@.take(chosen@.len() as int) =~= chosen@);
        let mut counts: Vec<usize> = Vec::new();
        let n: usize = self.catalog.len();
        let mut j: usize = 0;
        while j < n
            invariant
                n == self.catalog.tracks@.len(),
                j <= n,
                counts@ == repeats(self.catalog, chosen@).take(j as int),
                forall|a: i64| #[trigger]
                    seen@.contains_key(a) ==> seen@[a] == times(self.catalog, chosen@, a),
                forall|a: i64|
                    a != NO_ARTIST && !#[trigger] seen@.contains_key(a) ==> times(
                        self.catalog,
                        chosen@,
                        a,
                    ) == 0,
                !seen@.contains_key(NO_ARTIST),
            decreases n - j,
        {
            let count: usize = match seen.get(&self.catalog.get(j).artist_id) {
                Some(count) => *count,
                None => 0,
            };
            counts.push(count);
            assert(counts@ =~= repeats(self.catalog, chosen@).take(j + 1));
            j = j + 1;
        }
        assert(counts@ =~= repeats(self.catalog, chosen@));
        counts
    }

    /// The rows of a radio walk from `start`.
    pub fn radio_rows<F: Fn(usize, Vec<usize>) -> Vec<Score>>(
        &self,
        start: usize,
        steps: usize,
        c: &Constraints,
        score: F,
    ) -> (walk: (Vec<usize>, Vec<Option<Score>>))
        requires
            start < self.catalog.tracks@.len(),
            forall|row: usize, counts: Vec<usize>|
                row < self.catalog.tracks@.len() && counts@.len() == self.catalog.tracks@.len()
                    ==> #[trigger] score.requires((row, counts)),
            forall|row: usize, counts: Vec<usize>, out: Vec<Score>| #[trigger]
                score.ensures((row, counts), out) ==> out@.len() == self.catalog.tracks@.len(),
        ensures
            walk.0@[0] == start,
            are_rows(self.catalog, walk.0@),
            walk.0@.no_duplicates(),
            radio_walked(self.catalog, *c, steps as int, score, walk.0@, walk.1@),
    {
        let mut chosen: Vec<usize> = Vec::new();
        let mut similarity: Vec<Option<Score>> = Vec::new();
        chosen.push(start);
        similarity.push(None);
        let mut going: bool = true;
        while going && chosen.len() < steps
            invariant
                start < self.catalog.tracks@.len(),
                forall|row: usize, counts: Vec<usize>|
                    row < self.catalog.tracks@.len() && counts@.len() == self.catalog.tracks@.len()
                        ==> #[trigger] score.requires((row, counts)),
                forall|row: usize, counts: Vec<usize>, out: Vec<Score>| #[trigger]
                    score.ensures((row, counts), out) ==> out@.len() == self.catalog.tracks@.len(),
                chosen@.len() >= 1,
                chosen@[0] == start,
                chosen@.len() == 1 || chosen@.len() <= steps,
                are_rows(self.catalog, chosen@),
                chosen@.no_duplicates(),
                radio_chain(self.catalog, *c, score, chosen@, similarity@),
                !going ==> radio_stuck(self.catalog, *c, score, chosen@),
            decreases
                    (if going {
                        steps - chosen@.len() + 1
                    } else {
                        0
                    }),
        {
            let current: usize = chosen[chosen.len() - 1];
            assert(chosen@[chosen@.len() - 1] < self.catalog.tracks@.len());
            let counts = self.count_repeats(&chosen);
            let ghost asked = counts;
            let raw: Vec<Score> = score(current, counts);
            assert(score.ensures((chosen@.last(), asked), raw));
            assert(scored(self.catalog, score, chosen@, raw));
            match self.radio_next(&chosen, &raw, c) {
                None => {
                    going = false;
                },
                Some(pick) => {
                    let ghost sooner = chosen@;
                    proof {
                        let all = radio_scores(self.catalog, sooner, raw@);
                        let fit = |j: int| all[j] is At && allows(self.catalog, *c, j, sooner);
                        assert(fit(pick as int));
                        assert(!sooner.contains(pick as int as usize));
                        assert(all[pick as int] == raw@[pick as int]);
                        assert(radio_step(
                            self.catalog,
                            *c,
                            score,
                            sooner,
                            pick,
                            Some(raw@[pick as int]),
                        ));
                        lemma_chain_grows(
                            self.catalog,
                            *c,
                            score,
                            sooner,
                            similarity@,
                            pick,
                            Some(raw@[pick as int]),
                        );
                    }
                    similarity.push(Some(raw[pick]));
                    chosen.push(pick);
                },
            }
        }
        (chosen, similarity)
    }

    /// Radio: a greedy walk that jumps to the most similar track not yet
    /// played. Deterministic: the same scores give the same walk.
    ///
    /// `score` is asked for every row's score after the last row chosen, and
    /// told how often each row's artist has already been chosen, so that it can
    /// make a discography less and less attractive.
    pub fn radio_nearest<F: Fn(usize, Vec<usize>) -> Vec<Score>>(
        &self,
        from_id: i64,
        steps: usize,
        c: &Constraints,
        score: F,
    ) -> (walk: Vec<Step>)
        requires
            self.wf(),
            forall|row: usize, counts: Vec<usize>|
                row < self.catalog.tracks@.len() && counts@.len() == self.catalog.tracks@.len()
                    ==> #[trigger] score.requires((row, counts)),
            forall|row: usize, counts: Vec<usize>, out: Vec<Score>| #[trigger]
                score.ensures((row, counts), out) ==> out@.len() == self.catalog.tracks@.len(),
        ensures
            self.shows_radio(from_id, steps, *c, score, walk@),
    {
        let start: usize = match self.find_row(from_id) {
            None => return Vec::new(),
            Some(start) => start,
        };
        let (rows, similarity) = self.radio_rows(start, steps, c, score);
        let mut walk: Vec<Step> = Vec::new();
        let mut i: usize = 0;
        while i < rows.len()
            invariant
                are_rows(self.catalog, rows@),
                rows@.len() == similarity@.len(),
                i <= rows@.len(),
                walk@.len() == i,
                forall|h: int|
                    0 <= h < i ==> shows(
                        self.catalog,
                        #[trigger] walk@[h],
                        rows@[h],
                        similarity@[h],
                    ),
            decreases rows@.len() - i,
        {
            assert(rows@[i as int] < self.catalog.tracks@.len());
            walk.push(self.step(rows[i], similarity[i]));
            i = i + 1;
        }
        assert(radio_walked(self.catalog, *c, steps as int, score, rows@, similarity@));
        walk
    }
}

impl Navigator {
    /// The acceptable row closest to a waypoint, given every row's similarity
    /// to it.
    pub fn snap(
        &self,
        similarities: &[Score],
        chosen: &[usize],
        also: Option<usize>,
        c: &Constraints,
    ) -> (pick: Option<usize>)
        requires
            are_rows(self.catalog, chosen@),
            similarities@.len() == self.catalog.tracks@.len(),
        ensures
            first_fit(similarities@, snap_fit(self.catalog, *c, chosen@, also), pick),
    {
        let n: usize = similarities.len();
        let mut used: Vec<bool> = Vec::new();
        while used.len() < n
            invariant
                used@.len() <= n,
                forall|j: int| 0 <= j < used@.len() ==> !#[trigger] used@[j],
            decreases n - used@.len(),
        {
            used.push(false);
        }
        let mut i: usize = 0;
        while i < chosen.len()
            invariant
                i <= chosen@.len(),
                n == self.catalog.tracks@.len(),
                are_rows(self.catalog, chosen@),
                used@.len() == n,
                forall|j: int|
                    0 <= j < n ==> (#[trigger] used@[j] <==> exists|h: int|
                        0 <= h < i && #[trigger] chosen@[h] == j),
            decreases chosen@.len() - i,
        {
            assert(chosen@[i as int] < self.catalog.tracks@.len());
            let ghost earlier = used@;
            used.set(chosen[i], true);
            assert forall|j: int| 0 <= j < n implies (#[trigger] used@[j] <==> exists|h: int|
                0 <= h < i + 1 && #[trigger] chosen@[h] == j) by {
                if earlier[j] {
                    let h = choose|h: int| 0 <= h < i && #[trigger] chosen@[h] == j;
                    assert(chosen@[h] == j);
                }
                if j == chosen@[i as int] {
                    assert(chosen@[i as int] == j);
                }
            }
            i = i + 1;
        }
        let mut fits: Vec<bool> = Vec::new();
        let mut j: usize = 0;
        while j < n
            invariant
                n == self.catalog.tracks@.len(),
                j <= n,
                are_rows(self.catalog, chosen@),
                used@.len() == n,
                forall|j: int|
                    0 <= j < n ==> (#[trigger] used@[j] <==> exists|h: int|
                        0 <= h < chosen@.len() && #[trigger] chosen@[h] == j),
                fits@.len() == j,
                forall|h: int|
                    0 <= h < j ==> #[trigger] fits@[h] == snap_fit(
                        self.catalog,
                        *c,
                        chosen@,
                        also,
                    )(h),
            decreases n - j,
        {
            let held: bool = match also {
                Some(row) => row == j,
                None => false,
            };
            proof {
                if chosen@.contains(j) {
                    let h = choose|h: int| 0 <= h < chosen@.len() && chosen@[h] == j;
                    assert(chosen@[h] == j as int);
                }
                if used@[j as int] {
                    let h = choose|h: int| 0 <= h < chosen@.len() && #[trigger] chosen@[h] == j as int;
                    assert(chosen@[h] == j);
                }
                assert(used@[j as int] == chosen@.contains(j as int as usize));
            }
            fits.push(!used[j] && !held && self.allowed(j, chosen, c));
            j = j + 1;
        }
        let pick = pick_first(similarities, &fits);
        proof {
            lemma_same_fit(
                similarities@,
                |j: int| fits@[j],
                snap_fit(self.catalog, *c, chosen@, also),
                pick,
            );
        }
        pick
    }

    /// The rows of a stepwise walk from `start` towards the middle of
    /// `targets`.
    fn snap_rows<F: Fn(usize, Vec<usize>, usize) -> Vec<Score>>(
        &self,
        start: usize,
        targets: &Vec<usize>,
        also: Option<usize>,
        end: usize,
        c: &Constraints,
        at: F,
    ) -> (rows: Vec<usize>)
        requires
            start < self.catalog.tracks@.len(),
            are_rows(self.catalog, targets@),
            forall|from: usize, to: Vec<usize>, step: usize|
                from < self.catalog.tracks@.len() && are_rows(self.catalog, to@) && to@.len() > 0
                    && 1 <= step < end ==> #[trigger] at.requires((from, to, step)),
            targets@.len() > 0,
            forall|from: usize, to: Vec<usize>, step: usize, out: Vec<Score>| #[trigger]
                at.ensures((from, to, step), out) ==> out@.len() == self.catalog.tracks@.len(),
        ensures
            rows@[0] == start,
            are_rows(self.catalog, rows@),
            rows@.no_duplicates(),
            snap_walked(self.catalog, *c, also, end as int, at, targets@, rows@),
    {
        let mut rows: Vec<usize> = Vec::new();
        rows.push(start);
        let mut going: bool = true;
        while going && rows.len() < end
            invariant
                start < self.catalog.tracks@.len(),
                are_rows(self.catalog, targets@),
                forall|from: usize, to: Vec<usize>, step: usize|
                    from < self.catalog.tracks@.len() && are_rows(self.catalog, to@) && to@.len()
                        > 0 && 1 <= step < end ==> #[trigger] at.requires((from, to, step)),
                targets@.len() > 0,
                forall|from: usize, to: Vec<usize>, step: usize, out: Vec<Score>| #[trigger]
                    at.ensures((from, to, step), out) ==> out@.len() == self.catalog.tracks@.len(),
                rows@.len() >= 1,
                rows@[0] == start,
                rows@.len() == 1 || rows@.len() <= end,
                are_rows(self.catalog, rows@),
                rows@.no_duplicates(),
                snap_chain(self.catalog, *c, also, at, targets@, rows@),
                !going ==> snap_step(self.catalog, *c, also, at, targets@, rows@, None),
            decreases
                    (if going {
                        end - rows@.len() + 1
                    } else {
                        0
                    }),
        {
            let asked: Vec<usize> = targets.clone();
            assert(asked@ =~= targets@);
            let ghost put = asked;
            let step: usize = rows.len();
            let raw: Vec<Score> = at(start, asked, step);
            proof {
                assert(at.ensures((start, put, step), raw));
                assert(rows@.len() as int as usize == step);
                assert(aimed(at, rows@[0], targets@, rows@.len() as int, raw));
            }
            match self.snap(&raw, &rows, also, c) {
                None => {
                    assert(snap_step(self.catalog, *c, also, at, targets@, rows@, None));
                    going = false;
                },
                Some(pick) => {
                    proof {
                        let fit = snap_fit(self.catalog, *c, rows@, also);
                        assert(fit(pick as int));
                        assert(!rows@.contains(pick as int as usize));
                        assert(snap_step(self.catalog, *c, also, at, targets@, rows@, Some(pick)));
                        lemma_snap_grows(self.catalog, *c, also, at, targets@, rows@, pick);
                    }
                    rows.push(pick);
                },
            }
        }
        rows
    }

    // ----------------------------------------------------------------- modes

    /// A walk along the straight line between two tracks.
    ///
    /// `at` is asked for every row's similarity to a waypoint: so many steps
    /// from one row towards the middle of others.
    pub fn interpolate<F: Fn(usize, Vec<usize>, usize) -> Vec<Score>>(
        &self,
        from_id: i64,
        to_id: i64,
        steps: usize,
        c: &Constraints,
        at: F,
    ) -> (walk: Vec<Step>)
        requires
            self.wf(),
            forall|from: usize, to: Vec<usize>, step: usize|
                from < self.catalog.tracks@.len() && are_rows(self.catalog, to@) && to@.len() > 0
                    && 1 <= step < steps - 1 ==> #[trigger] at.requires((from, to, step)),
            forall|from: usize, to: Vec<usize>, step: usize, out: Vec<Score>| #[trigger]
                at.ensures((from, to, step), out) ==> out@.len() == self.catalog.tracks@.len(),
        ensures
            self.shows_even_path(from_id, to_id, steps, *c, at, walk@),
    {
        let a: usize = match self.find_row(from_id) {
            None => return Vec::new(),
            Some(row) => row,
        };
        let b: usize = match self.find_row(to_id) {
            None => return Vec::new(),
            Some(row) => row,
        };
        let end: usize = if steps > 0 {
            steps - 1
        } else {
            0
        };
        let mut targets: Vec<usize> = Vec::new();
        targets.push(b);
        assert(targets@ =~= seq![b]);
        let mut rows = self.snap_rows(a, &targets, Some(b), end, c, at);
        let ghost walked = rows@;
        proof {
            assert(snap_walked(self.catalog, *c, Some(b), steps - 1, at, seq![b], walked));
        }
        rows.push(b);
        self.steps(&rows)
    }

    /// The rows whose audio best matches a text embedding, the best first.
    ///
    /// `score` is asked how well each row matches. Nothing matches where the
    /// catalog holds no embeddings of that length.
    pub fn text_anchors<G: Fn(usize) -> Score>(&self, clap: &[u32], k: usize, score: G) -> (anchors:
        Vec<usize>)
        requires
            forall|row: usize| row < self.catalog.tracks@.len() ==> #[trigger] score.requires((row,)),
        ensures
            anchored(self.catalog, clap@, k as int, score, anchors@),
            are_rows(self.catalog, anchors@),
            forall|i: int|
                0 <= i < anchors@.len() ==> !self.catalog.blocks(#[trigger] anchors@[i] as int),
            anchors@.len() > 0 <==> hears(self.catalog, clap@) && k > 0 && shows_some(self.catalog),
    {
        let usable: bool = match self.catalog.clap {
            Some(_) => self.catalog.clap_dims != 0 && clap.len() == self.catalog.clap_dims,
            None => false,
        };
        if !usable {
            return Vec::new();
        }
        let n: usize = self.catalog.len();
        let mut scores: Vec<Score> = Vec::new();
        while scores.len() < n
            invariant
                n == self.catalog.tracks@.len(),
                forall|row: usize|
                    row < self.catalog.tracks@.len() ==> #[trigger] score.requires((row,)),
                scores@.len() <= n,
                forall|i: int|
                    0 <= i < scores@.len() ==> score.ensures((i as usize,), #[trigger] scores@[i]),
            decreases n - scores@.len(),
        {
            let row: usize = scores.len();
            let one: Score = score(row);
            scores.push(one);
        }
        let ghost raw = scores@;
        self.mask_blocked(&mut scores);
        let open = |row: usize| -> (yes: bool)
            ensures
                yes == !self.catalog.blocks(row as int),
        {
            !self.catalog.is_blocked(row)
        };
        let anchors = pick_foremost(scores.as_slice(), k, open, Ghost(in_sight(self.catalog)));
        proof {
            assert(matched(self.catalog, score, raw));
            let all = fitting(scores@.len(), in_sight(self.catalog));
            if shows_some(self.catalog) {
                let row = choose|row: int|
                    0 <= row < self.catalog.tracks@.len() && !self.catalog.blocks(row);
                if anchors@.len() == 0 && k > 0 {
                    all.lemma_len0_is_empty();
                    assert(all.contains(row as usize));
                }
            } else if anchors@.len() > 0 {
                assert(!self.catalog.blocks(anchors@[0] as int));
            }
        }
        anchors
    }

    /// A destination in the space for a described sound: the rows to take the
    /// middle of, where there are any.
    ///
    /// Not the text embedding itself: text and audio sit apart, so those
    /// coordinates encode the gap rather than the content and a walk never
    /// arrives. Averaging the best-matching tracks stays inside the audio
    /// distribution.
    pub fn text_target<G: Fn(usize) -> Score>(&self, clap: &[u32], k: usize, score: G) -> (target:
        Option<Vec<usize>>)
        requires
            forall|row: usize| row < self.catalog.tracks@.len() ==> #[trigger] score.requires((row,)),
        ensures
            match target {
                Some(anchors) => anchors@.len() > 0 && are_rows(self.catalog, anchors@) && anchored(
                    self.catalog,
                    clap@,
                    k as int,
                    score,
                    anchors@,
                ),
                None => anchored(self.catalog, clap@, k as int, score, Seq::empty()),
            },
            target is Some <==> hears(self.catalog, clap@) && k > 0 && shows_some(self.catalog),
    {
        let anchors = self.text_anchors(clap, k, score);
        if anchors.len() == 0 {
            assert(anchors@ =~= Seq::empty());
            None
        } else {
            Some(anchors)
        }
    }

    /// Walk from a track towards a described sound.
    pub fn drift_to_text<
        G: Fn(usize) -> Score,
        F: Fn(usize, Vec<usize>, usize) -> Vec<Score>,
    >(
        &self,
        from_id: i64,
        clap: &[u32],
        steps: usize,
        k: usize,
        c: &Constraints,
        score: G,
        at: F,
    ) -> (walk: Vec<Step>)
        requires
            self.wf(),
            forall|row: usize| row < self.catalog.tracks@.len() ==> #[trigger] score.requires((row,)),
            forall|from: usize, to: Vec<usize>, step: usize|
                from < self.catalog.tracks@.len() && are_rows(self.catalog, to@) && to@.len() > 0
                    && 1 <= step < steps ==> #[trigger] at.requires((from, to, step)),
            forall|from: usize, to: Vec<usize>, step: usize, out: Vec<Score>| #[trigger]
                at.ensures((from, to, step), out) ==> out@.len() == self.catalog.tracks@.len(),
        ensures
            self.shows_drift(from_id, clap@, steps, k, *c, score, at, walk@),
    {
        let start: usize = match self.find_row(from_id) {
            None => return Vec::new(),
            Some(row) => row,
        };
        let anchors: Vec<usize> = match self.text_target(clap, k, score) {
            None => return Vec::new(),
            Some(anchors) => anchors,
        };
        let rows = self.snap_rows(start, &anchors, None, steps, c, at);
        assert(anchored(self.catalog, clap@, k as int, score, anchors@));
        assert(snap_walked(self.catalog, *c, None, steps as int, at, anchors@, rows@));
        self.steps(&rows)
    }
}

/// The catalog holds embeddings to hold a text embedding against.
pub open spec fn hears(catalog: Catalog, clap: Seq<u32>) -> bool {
    catalog.clap is Some && catalog.clap_dims != 0 && clap.len() == catalog.clap_dims
}

/// `raw` is what `score` gave for each row.
pub open spec fn matched<G: Fn(usize) -> Score>(catalog: Catalog, score: G, raw: Seq<Score>) -> bool {
    &&& raw.len() == catalog.tracks@.len()
    &&& forall|i: int| 0 <= i < raw.len() ==> score.ensures((i as usize,), #[trigger] raw[i])
}

/// The rows that are not blocked.
pub open spec fn in_sight(catalog: Catalog) -> spec_fn(int) -> bool {
    |j: int| !catalog.blocks(j)
}

/// Not everything is blocked.
pub open spec fn shows_some(catalog: Catalog) -> bool {
    exists|row: int| 0 <= row < catalog.tracks@.len() && !catalog.blocks(row)
}

/// `anchors` are the `k` rows in sight that match best, the best first; all of
/// them, where there are fewer.
pub open spec fn anchored<G: Fn(usize) -> Score>(
    catalog: Catalog,
    clap: Seq<u32>,
    k: int,
    score: G,
    anchors: Seq<usize>,
) -> bool {
    if !hears(catalog, clap) {
        anchors.len() == 0
    } else {
        exists|raw: Seq<Score>| #[trigger]
            matched(catalog, score, raw) && {
                let scores = masked(raw, |j: int| catalog.blocks(j));
                &&& anchors == foremost_fit(scores, in_sight(catalog), k as nat)
                &&& leads_the_fit(scores, in_sight(catalog), k as nat, anchors)
            }
    }
}

// -------------------------------------------------------------------- graph

/// The rows of `rows` that are in reach, each with its distance.
pub open spec fn edges_among(scores: Seq<Score>, distances: Seq<i32>, rows: Seq<usize>) -> Seq<
    (usize, i32),
>
    decreases rows.len(),
{
    if rows.len() == 0 {
        Seq::empty()
    } else {
        let sooner = edges_among(scores, distances, rows.drop_last());
        let j = rows.last();
        if scores[j as int] is At {
            sooner.push((j, distances[j as int]))
        } else {
            sooner
        }
    }
}

/// What the graph holds for row `i`: its `k` closest rows, leaving out itself
/// and anything blocked, the closest first.
pub open spec fn edges_of(
    catalog: Catalog,
    i: int,
    k: int,
    similarities: Seq<Score>,
    distances: Seq<i32>,
) -> Seq<(usize, i32)> {
    let scores = masked(similarities, |j: int| no_neighbour(catalog, i, false, j));
    edges_among(
        scores,
        distances,
        ranking(scores).take(
            if k <= scores.len() {
                k
            } else {
                scores.len() as int
            },
        ),
    )
}

proof fn lemma_edges_in_reach(scores: Seq<Score>, distances: Seq<i32>, rows: Seq<usize>)
    requires
        forall|i: int| 0 <= i < rows.len() ==> #[trigger] rows[i] < scores.len(),
    ensures
        forall|e: int|
            0 <= e < edges_among(scores, distances, rows).len() ==> {
                let j = (#[trigger] edges_among(scores, distances, rows)[e]).0;
                j < scores.len() && scores[j as int] is At
            },
    decreases rows.len(),
{
    if rows.len() > 0 {
        let sooner = rows.drop_last();
        lemma_edges_in_reach(scores, distances, sooner);
        let all = edges_among(scores, distances, rows);
        let fewer = edges_among(scores, distances, sooner);
        assert forall|e: int| 0 <= e < all.len() implies ({
            let j = (#[trigger] all[e]).0;
            j < scores.len() && scores[j as int] is At
        }) by {
            if e < fewer.len() {
                assert(all[e] == fewer[e]);
            } else {
                assert(rows[rows.len() - 1] < scores.len());
            }
        }
    }
}

/// Asked about row `i`, `near` gave what the graph holds for it.
pub open spec fn edges_asked<F: Fn(usize) -> (Vec<Score>, Vec<i32>)>(
    catalog: Catalog,
    k: int,
    near: F,
    i: int,
    edges: Seq<(usize, i32)>,
) -> bool {
    exists|out: (Vec<Score>, Vec<i32>)| #[trigger]
        near.ensures((i as usize,), out) && edges == edges_of(catalog, i, k, out.0@, out.1@)
}

/// Every row's artist, in row order.
pub open spec fn artists_of(catalog: Catalog) -> Seq<i64> {
    catalog.tracks@.map_values(|t: TrackMeta| t.artist_id)
}

proof fn lemma_walk_stays_open(
    nav: Navigator,
    graph: Seq<Vec<(usize, i32)>>,
    artists: Seq<i64>,
    nodes: Seq<usize>,
    cost: int,
)
    requires
        nav.graph_fits(graph),
        crate::route::walks(graph, artists, nodes, cost),
        nodes[0] < graph.len(),
        !nav.catalog.blocks(nodes[0] as int),
    ensures
        forall|p: int|
            0 <= p < nodes.len() ==> #[trigger] nodes[p] < graph.len() && !nav.catalog.blocks(
                nodes[p] as int,
            ),
    decreases nodes.len(),
{
    if nodes.len() >= 2 {
        let u = nodes[nodes.len() - 2] as int;
        let e = choose|e: int| #[trigger]
            crate::route::leads(graph, u, e, nodes.last()) && crate::route::walks(
                graph,
                artists,
                nodes.drop_last(),
                cost - crate::route::hop(graph, artists, u, e),
            );
        let sooner = nodes.drop_last();
        lemma_walk_stays_open(
            nav,
            graph,
            artists,
            sooner,
            cost - crate::route::hop(graph, artists, u, e),
        );
        assert(graph[u]@[e].0 == nodes.last());
        assert forall|p: int| 0 <= p < nodes.len() implies #[trigger] nodes[p] < graph.len()
            && !nav.catalog.blocks(nodes[p] as int) by {
            if p < sooner.len() {
                assert(sooner[p] == nodes[p]);
            }
        }
    }
}

impl Navigator {
    /// The edges the graph holds for row `i`, given every row's similarity and
    /// distance to it.
    pub fn knn_edges(
        &self,
        i: usize,
        k: usize,
        similarities: &[Score],
        distances: &[i32],
    ) -> (edges: Vec<(usize, i32)>)
        requires
            i < self.catalog.tracks@.len(),
            similarities@.len() == self.catalog.tracks@.len(),
            distances@.len() == self.catalog.tracks@.len(),
        ensures
            edges@ == edges_of(self.catalog, i as int, k as int, similarities@, distances@),
            forall|e: int|
                0 <= e < edges@.len() ==> (#[trigger] edges@[e]).0 < self.catalog.tracks@.len()
                    && !self.catalog.blocks(edges@[e].0 as int) && edges@[e].0 != i,
    {
        let n: usize = similarities.len();
        let mut scores: Vec<Score> = Vec::new();
        while scores.len() < n
            invariant
                n == similarities@.len(),
                scores@.len() <= n,
                forall|h: int|
                    0 <= h < scores@.len() ==> #[trigger] scores@[h] == (if no_neighbour(
                        self.catalog,
                        i as int,
                        false,
                        h,
                    ) {
                        Score::Masked
                    } else {
                        similarities@[h]
                    }),
            decreases n - scores@.len(),
        {
            let j: usize = scores.len();
            if j == i || self.catalog.is_blocked(j) {
                scores.push(Score::Masked);
            } else {
                scores.push(similarities[j]);
            }
        }
        assert(scores@ =~= masked(
            similarities@,
            |j: int| no_neighbour(self.catalog, i as int, false, j),
        ));
        let top = top_k(&scores, k);
        let mut edges: Vec<(usize, i32)> = Vec::new();
        let mut r: usize = 0;
        assert(top@.take(0) =~= Seq::empty());
        while r < top.len()
            invariant
                r <= top@.len(),
                is_top(scores@, k as nat, top@),
                scores@.len() == distances@.len(),
                edges@ == edges_among(scores@, distances@, top@.take(r as int)),
            decreases top@.len() - r,
        {
            assert(top@.take(r + 1).drop_last() =~= top@.take(r as int));
            let j: usize = top[r];
            assert(top@[r as int] < scores@.len());
            match scores[j] {
                Score::At(_) => edges.push((j, distances[j])),
                Score::Masked => {},
            }
            r = r + 1;
        }
        proof {
            assert(top@.take(top@.len() as int) =~= top@);
            lemma_edges_in_reach(scores@, distances@, top@);
        }
        edges
    }

    /// The graph over the whole space, built once and cached.
    ///
    /// Every row against every row, so it dominates the first path after a
    /// load, weight change or block.
    pub fn knn_graph<F: Fn(usize) -> (Vec<Score>, Vec<i32>)>(&mut self, k: usize, near: F)
        requires
            old(self).wf(),
            forall|row: usize|
                row < old(self).catalog.tracks@.len() ==> #[trigger] near.requires((row,)),
            forall|row: usize, out: (Vec<Score>, Vec<i32>)| #[trigger]
                near.ensures((row,), out) ==> out.0@.len() == old(self).catalog.tracks@.len()
                    && out.1@.len() == old(self).catalog.tracks@.len(),
        ensures
            final(self).wf(),
            final(self).catalog == old(self).catalog,
            final(self).index_of == old(self).index_of,
            final(self).knn matches Some((cached, graph)) && cached == k,
            old(self).knn matches Some((cached, _)) && cached == k ==> final(self).knn
                == old(self).knn,
            !(old(self).knn matches Some((cached, _)) && cached == k) ==> (final(self).knn matches Some(
                (_, graph),
            ) && forall|i: int|
                0 <= i < graph@.len() ==> edges_asked(
                    final(self).catalog,
                    k as int,
                    near,
                    i,
                    (#[trigger] graph@[i])@,
                )),
    {
        let have: bool = match &self.knn {
            Some((cached, _)) => *cached == k,
            None => false,
        };
        if have {
            return;
        }
        let n: usize = self.catalog.len();
        let mut graph: Graph = Vec::new();
        while graph.len() < n
            invariant
                *self == *old(self),
                n == self.catalog.tracks@.len(),
                forall|row: usize|
                    row < self.catalog.tracks@.len() ==> #[trigger] near.requires((row,)),
                forall|row: usize, out: (Vec<Score>, Vec<i32>)| #[trigger]
                    near.ensures((row,), out) ==> out.0@.len() == self.catalog.tracks@.len()
                        && out.1@.len() == self.catalog.tracks@.len(),
                graph@.len() <= n,
                forall|i: int|
                    0 <= i < graph@.len() ==> edges_asked(
                        self.catalog,
                        k as int,
                        near,
                        i,
                        (#[trigger] graph@[i])@,
                    ),
                forall|u: int, e: int|
                    #![trigger graph@[u]@[e]]
                    0 <= u < graph@.len() && 0 <= e < graph@[u]@.len() ==> graph@[u]@[e].0 < n
                        && !self.catalog.blocks(graph@[u]@[e].0 as int),
            decreases n - graph@.len(),
        {
            let i: usize = graph.len();
            let out: (Vec<Score>, Vec<i32>) = near(i);
            let edges = self.knn_edges(i, k, &out.0, &out.1);
            proof {
                assert(near.ensures((i as int as usize,), out));
                assert(edges_asked(self.catalog, k as int, near, i as int, edges@));
            }
            graph.push(edges);
        }
        self.knn = Some((k, graph));
    }

    /// The cheapest way through the graph from one track to another. Usually
    /// better than `interpolate`: a straight line through a high-dimensional
    /// space crosses empty regions, whereas this stays among the tracks.
    pub fn graph_path<F: Fn(usize) -> (Vec<Score>, Vec<i32>)>(
        &mut self,
        from_id: i64,
        to_id: i64,
        k: usize,
        near: F,
    ) -> (path: Vec<Step>)
        requires
            old(self).wf(),
            forall|row: usize|
                row < old(self).catalog.tracks@.len() ==> #[trigger] near.requires((row,)),
            forall|row: usize, out: (Vec<Score>, Vec<i32>)| #[trigger]
                near.ensures((row,), out) ==> out.0@.len() == old(self).catalog.tracks@.len()
                    && out.1@.len() == old(self).catalog.tracks@.len(),
        ensures
            old(self).shows_route(*final(self), from_id, to_id, k, near, path@),
    {
        let start: usize = match self.find_row(from_id) {
            None => return Vec::new(),
            Some(row) => row,
        };
        let goal: usize = match self.find_row(to_id) {
            None => return Vec::new(),
            Some(row) => row,
        };
        let mut artists: Vec<i64> = Vec::new();
        let n: usize = self.catalog.len();
        while artists.len() < n
            invariant
                *self == *old(self),
                n == self.catalog.tracks@.len(),
                artists@.len() <= n,
                artists@ == artists_of(self.catalog).take(artists@.len() as int),
            decreases n - artists@.len(),
        {
            artists.push(self.catalog.get(artists.len()).artist_id);
        }
        assert(artists@ =~= artists_of(self.catalog));
        self.knn_graph(k, near);
        let graph: &Graph = match &self.knn {
            Some((_, graph)) => graph,
            None => return Vec::new(),
        };
        assert(self.graph_fits(graph@));
        match cheapest_route(graph, &artists, start, goal) {
            None => Vec::new(),
            Some(rows) => {
                proof {
                    let cost = choose|cost: int| #[trigger]
                        connects(graph@, artists@, rows@, start, goal, cost);
                    lemma_walk_stays_open(*self, graph@, artists@, rows@, cost);
                }
                let path = self.steps(&rows);
                assert(is_route(graph@, artists@, rows@, start, goal));
                path
            },
        }
    }
}

// ------------------------------------------------------------------ ordering

/// The positions of `ids` whose track the space holds, each with its row.
pub open spec fn placeable(index_of: Map<i64, usize>, ids: Seq<i64>) -> Seq<(usize, usize)>
    decreases ids.len(),
{
    if ids.len() == 0 {
        Seq::empty()
    } else {
        let sooner = placeable(index_of, ids.drop_last());
        if index_of.contains_key(ids.last()) {
            sooner.push(((ids.len() - 1) as usize, index_of[ids.last()]))
        } else {
            sooner
        }
    }
}

/// The ids standing at the given places.
pub open spec fn ids_at(ids: Seq<i64>, places: Seq<(usize, usize)>) -> Seq<i64> {
    Seq::new(places.len(), |i: int| ids[places[i].0 as int])
}

/// The ids the space holds, in the order they came.
pub open spec fn placeable_ids(index_of: Map<i64, usize>, ids: Seq<i64>) -> Seq<i64> {
    ids.filter(|id: i64| index_of.contains_key(id))
}

/// The rows to measure between: the anchor's first, where there is one.
pub open spec fn measured_rows(anchor: Option<usize>, places: Seq<(usize, usize)>) -> Seq<usize> {
    (match anchor {
        Some(row) => seq![row],
        None => Seq::empty(),
    }) + Seq::new(places.len(), |i: int| places[i].1)
}

/// `m` holds what `distance` gave between the rows, the same both ways.
pub open spec fn measured<F: Fn(usize, usize) -> i32>(
    rows: Seq<usize>,
    distance: F,
    m: Seq<Vec<i32>>,
) -> bool {
    &&& m.len() == rows.len()
    &&& square(m)
    &&& symmetric(m)
    &&& forall|a: int| 0 <= a < m.len() ==> (#[trigger] m[a])@[a] == 0
    &&& forall|a: int, b: int|
        #![trigger m[a]@[b]]
        0 <= a < b < m.len() ==> distance.ensures((rows[a], rows[b]), m[a]@[b])
}

/// The ids in the order of a tour over the measured rows, without the anchor.
pub open spec fn in_tour_order(
    ids: Seq<i64>,
    places: Seq<(usize, usize)>,
    anchored: bool,
    t: Seq<usize>,
) -> Seq<i64> {
    if anchored {
        Seq::new((t.len() - 1) as nat, |i: int| ids[places[t[i + 1] - 1].0 as int])
    } else {
        Seq::new(t.len(), |i: int| ids[places[t[i] as int].0 as int])
    }
}

/// The row the walk is measured from, where the space holds one.
pub open spec fn anchor_row(index_of: Map<i64, usize>, from: Option<i64>) -> Option<usize> {
    match from {
        Some(id) => if index_of.contains_key(id) {
            Some(index_of[id])
        } else {
            None
        },
        None => None,
    }
}

/// `ordered` is the ids in the order of the tour over what `distance` gave
/// between their rows: the greedy walk, refined.
pub open spec fn tour_ordered<F: Fn(usize, usize) -> i32>(
    ids: Seq<i64>,
    places: Seq<(usize, usize)>,
    anchor: Option<usize>,
    distance: F,
    ordered: Seq<i64>,
) -> bool {
    exists|m: Seq<Vec<i32>>| #[trigger]
        measured(measured_rows(anchor, places), distance, m) && ordered == in_tour_order(
            ids,
            places,
            anchor is Some,
            refined(m, greedy(m), ROUNDS as nat),
        )
}

pub(crate) proof fn lemma_places(index_of: Map<i64, usize>, ids: Seq<i64>)
    requires
        ids.len() <= usize::MAX,
    ensures
        placeable(index_of, ids).len() <= ids.len(),
        forall|i: int|
            0 <= i < placeable(index_of, ids).len() ==> {
                let (at, row) = #[trigger] placeable(index_of, ids)[i];
                at < ids.len() && index_of.contains_key(ids[at as int]) && row
                    == index_of[ids[at as int]]
            },
        ids_at(ids, placeable(index_of, ids)) == placeable_ids(index_of, ids),
    decreases ids.len(),
{
    reveal(Seq::filter);
    let places = placeable(index_of, ids);
    if ids.len() == 0 {
        assert(ids_at(ids, places) =~= placeable_ids(index_of, ids));
    } else {
        let fewer = ids.drop_last();
        lemma_places(index_of, fewer);
        let sooner = placeable(index_of, fewer);
        assert forall|i: int| 0 <= i < places.len() implies ({
            let (at, row) = #[trigger] places[i];
            at < ids.len() && index_of.contains_key(ids[at as int]) && row == index_of[ids[at as int]]
        }) by {
            if i < sooner.len() {
                assert(places[i] == sooner[i]);
                assert(fewer[sooner[i].0 as int] == ids[sooner[i].0 as int]);
            }
        }
        assert forall|i: int| 0 <= i < sooner.len() implies ids[sooner[i].0 as int]
            == fewer[(#[trigger] sooner[i]).0 as int] by {}
        if index_of.contains_key(ids.last()) {
            assert(ids_at(ids, places) =~= ids_at(fewer, sooner).push(ids.last()));
        } else {
            assert(ids_at(ids, places) =~= ids_at(fewer, sooner));
        }
    }
}

/// Reading `base` in the order of a rearrangement of its positions rearranges
/// it.
proof fn lemma_rearranged(base: Seq<i64>, t: Seq<int>)
    requires
        t.len() == base.len(),
        t.no_duplicates(),
        forall|i: int| 0 <= i < t.len() ==> 0 <= #[trigger] t[i] < base.len(),
    ensures
        Seq::new(t.len(), |i: int| base[t[i]]).to_multiset() == base.to_multiset(),
    decreases base.len(),
{
    let read = Seq::new(t.len(), |i: int| base[t[i]]);
    if base.len() == 0 {
        assert(read =~= base);
    } else {
        let last = base.len() - 1;
        // Distinct positions, as many as there are: the last is among them.
        if !t.contains(last) {
            let found = t.to_set();
            let all = vstd::set_lib::set_int_range(0, last);
            vstd::set_lib::lemma_int_range(0, last);
            t.unique_seq_to_set();
            assert forall|x: int| found.contains(x) implies all.contains(x) by {
                let i = choose|i: int| 0 <= i < t.len() && t[i] == x;
                assert(t[i] != last);
            }
            vstd::set_lib::lemma_len_subset(found, all);
            assert(false);
        }
        let p = choose|p: int| 0 <= p < t.len() && t[p] == last;
        let fewer = t.remove(p);
        assert forall|i: int| 0 <= i < fewer.len() implies 0 <= #[trigger] fewer[i] < last by {
            let q = if i < p {
                i
            } else {
                i + 1
            };
            assert(fewer[i] == t[q]);
            assert(t[q] != t[p]);
        }
        assert(fewer.no_duplicates()) by {
            assert forall|i: int, j: int|
                0 <= i < fewer.len() && 0 <= j < fewer.len() && i != j implies fewer[i]
                != fewer[j] by {
                let qi = if i < p {
                    i
                } else {
                    i + 1
                };
                let qj = if j < p {
                    j
                } else {
                    j + 1
                };
                assert(fewer[i] == t[qi] && fewer[j] == t[qj]);
            }
        }
        let shorter = base.drop_last();
        lemma_rearranged(shorter, fewer);
        let less = Seq::new(fewer.len(), |i: int| shorter[fewer[i]]);
        assert(read.remove(p) =~= less);
        vstd::seq_lib::to_multiset_remove(read, p);
        vstd::seq_lib::to_multiset_contains(read, read[p]);
        assert(read.contains(read[p]));
        assert(base =~= shorter.push(base.last()));
        vstd::seq_lib::to_multiset_build(shorter, base.last());
        assert(read[p] == base.last());
        assert(read.to_multiset() =~= less.to_multiset().insert(read[p]));
    }
}

/// Reading the ids in tour order loses none of them and repeats none.
pub(crate) proof fn lemma_tour_order_rearranges(
    ids: Seq<i64>,
    places: Seq<(usize, usize)>,
    anchored: bool,
    t: Seq<usize>,
)
    requires
        is_tour(
            t,
            if anchored {
                places.len() + 1
            } else {
                places.len()
            },
        ),
        t.len() > 0,
    ensures
        in_tour_order(ids, places, anchored, t).to_multiset() == ids_at(ids, places).to_multiset(),
{
    let base = ids_at(ids, places);
    let out = in_tour_order(ids, places, anchored, t);
    let steps = if anchored {
        Seq::new((t.len() - 1) as nat, |i: int| t[i + 1] - 1)
    } else {
        Seq::new(t.len(), |i: int| t[i] as int)
    };
    assert forall|i: int| 0 <= i < steps.len() implies 0 <= #[trigger] steps[i] < base.len() by {
        if anchored {
            assert(t[i + 1] != t[0]);
            assert(t[i + 1] < places.len() + 1);
        } else {
            assert(t[i] < places.len());
        }
    }
    assert forall|i: int, j: int| 0 <= i < steps.len() && 0 <= j < steps.len() && i
        != j implies steps[i] != steps[j] by {
        if anchored {
            assert(t[i + 1] != t[j + 1]);
        } else {
            assert(t[i] != t[j]);
        }
    }
    lemma_rearranged(base, steps);
    assert(out =~= Seq::new(steps.len(), |i: int| base[steps[i]]));
}

fn measure<F: Fn(usize, usize) -> i32>(rows: &Vec<usize>, limit: usize, distance: F) -> (m: Distances)
    requires
        forall|a: usize, b: usize| a < limit && b < limit ==> #[trigger] distance.requires((a, b)),
        forall|i: int| 0 <= i < rows@.len() ==> #[trigger] rows@[i] < limit,
    ensures
        measured(rows@, distance, m@),
{
    let n: usize = rows.len();
    let mut m: Distances = Vec::new();
    let mut a: usize = 0;
    while a < n
        invariant
            n == rows@.len(),
            a <= n,
            forall|a: usize, b: usize|
                a < limit && b < limit ==> #[trigger] distance.requires((a, b)),
            forall|i: int| 0 <= i < rows@.len() ==> #[trigger] rows@[i] < limit,
            m@.len() == a,
            forall|x: int| 0 <= x < a ==> (#[trigger] m@[x])@.len() == n,
            forall|x: int| 0 <= x < a ==> (#[trigger] m@[x])@[x] == 0,
            forall|x: int, y: int|
                #![trigger m@[x]@[y]]
                0 <= x < a && x < y < n ==> distance.ensures((rows@[x], rows@[y]), m@[x]@[y]),
            forall|x: int, y: int|
                #![trigger m@[x]@[y]]
                0 <= y < x < a ==> m@[x]@[y] == m@[y]@[x],
        decreases n - a,
    {
        let mut row: Vec<i32> = Vec::new();
        let mut b: usize = 0;
        while b < n
            invariant
                n == rows@.len(),
                a < n,
                b <= n,
                forall|a: usize, b: usize|
                    a < limit && b < limit ==> #[trigger] distance.requires((a, b)),
                forall|i: int| 0 <= i < rows@.len() ==> #[trigger] rows@[i] < limit,
                m@.len() == a,
                forall|x: int| 0 <= x < a ==> (#[trigger] m@[x])@.len() == n,
                row@.len() == b,
                a < b ==> row@[a as int] == 0,
                forall|y: int| 0 <= y < b && y < a ==> #[trigger] row@[y] == m@[y]@[a as int],
                forall|y: int|
                    a < y < b ==> distance.ensures((rows@[a as int], rows@[y]), #[trigger] row@[y]),
            decreases n - b,
        {
            assert(rows@[a as int] < limit && rows@[b as int] < limit);
            let d: i32 = if b < a {
                assert(m@[b as int]@.len() == n);
                m[b][a]
            } else if b == a {
                0
            } else {
                distance(rows[a], rows[b])
            };
            row.push(d);
            b = b + 1;
        }
        m.push(row);
        a = a + 1;
    }
    proof {
        assert forall|a: usize, b: usize| a < m@.len() && b < m@.len() implies #[trigger] dist(
            m@,
            a,
            b,
        ) == dist(m@, b, a) by {
            if b < a {
                assert(m@[a as int]@[b as int] == m@[b as int]@[a as int]);
            } else if a < b {
                assert(m@[b as int]@[a as int] == m@[a as int]@[b as int]);
            }
        }
    }
    m
}

impl Navigator {
    /// Order tracks so that consecutive ones sit close together in the space.
    ///
    /// `from` anchors the walk to a track already playing: it is measured from
    /// but never returned. Ids the space does not hold are dropped, since
    /// there is no distance to place them by; the caller decides where those
    /// end up. A list of fewer than three is left as it is, and so is one too
    /// long to be worth the effort.
    ///
    /// `distance` is asked how far apart two rows are, in the units of `UNIT`.
    pub fn shortest_path_order<F: Fn(usize, usize) -> i32>(
        &self,
        track_ids: &[i64],
        from: Option<i64>,
        distance: F,
    ) -> (ordered: Vec<i64>)
        requires
            self.wf(),
            forall|a: usize, b: usize|
                a < self.catalog.tracks@.len() && b < self.catalog.tracks@.len()
                    ==> #[trigger] distance.requires((a, b)),
        ensures
            ordered@.to_multiset() == placeable_ids(self.index_of@, track_ids@).to_multiset(),
            ({
                let places = placeable(self.index_of@, track_ids@);
                if places.len() < 3 || places.len() > SORT_CAP {
                    ordered@ == placeable_ids(self.index_of@, track_ids@)
                } else {
                    tour_ordered(
                        track_ids@,
                        places,
                        anchor_row(self.index_of@, from),
                        distance,
                        ordered@,
                    )
                }
            }),
            placeable_ids(self.index_of@, track_ids@).len() > 0 && anchor_row(
                self.index_of@,
                from,
            ) is None ==> ordered@[0] == placeable_ids(self.index_of@, track_ids@)[0],
    {
        // Positions, not rows: a queue may hold the same track twice, and both
        // copies have to come out the other side.
        let mut places: Vec<(usize, usize)> = Vec::new();
        let mut i: usize = 0;
        assert(track_ids@.take(0) =~= Seq::empty());
        while i < track_ids.len()
            invariant
                i <= track_ids@.len(),
                places@ == placeable(self.index_of@, track_ids@.take(i as int)),
            decreases track_ids@.len() - i,
        {
            assert(track_ids@.take(i + 1).drop_last() =~= track_ids@.take(i as int));
            match self.index_of.get(&track_ids[i]) {
                Some(row) => places.push((i, *row)),
                None => {},
            }
            i = i + 1;
        }
        proof {
            assert(track_ids@.take(track_ids@.len() as int) =~= track_ids@);
            lemma_places(self.index_of@, track_ids@);
        }
        if places.len() < 3 || places.len() > SORT_CAP {
            let mut kept: Vec<i64> = Vec::new();
            while kept.len() < places.len()
                invariant
                    kept@.len() <= places@.len(),
                    kept@ == ids_at(track_ids@, places@).take(kept@.len() as int),
                    forall|i: int|
                        0 <= i < places@.len() ==> (#[trigger] places@[i]).0 < track_ids@.len(),
                decreases places@.len() - kept@.len(),
            {
                let at: usize = kept.len();
                assert(places@[at as int].0 < track_ids@.len());
                kept.push(track_ids[places[at].0]);
            }
            assert(kept@ =~= ids_at(track_ids@, places@));
            return kept;
        }
        let anchor: Option<usize> = match from {
            Some(id) => match self.index_of.get(&id) {
                Some(row) => Some(*row),
                None => None,
            },
            None => None,
        };
        // Node 0 is the anchor when there is one, so it can be pinned at the
        // front and stripped at the end without a second bookkeeping pass.
        let mut rows: Vec<usize> = Vec::new();
        match anchor {
            Some(row) => rows.push(row),
            None => {},
        }
        let offset: usize = rows.len();
        let mut p: usize = 0;
        while p < places.len()
            invariant
                p <= places@.len(),
                offset == (if anchor is Some {
                    1int
                } else {
                    0
                }),
                rows@ == measured_rows(anchor, places@).take(offset + p),
            decreases places@.len() - p,
        {
            rows.push(places[p].1);
            assert(rows@ =~= measured_rows(anchor, places@).take(offset + p + 1));
            p = p + 1;
        }
        assert(rows@ =~= measured_rows(anchor, places@));
        let limit: usize = self.catalog.len();
        assert forall|i: int| 0 <= i < rows@.len() implies #[trigger] rows@[i] < limit by {
            if i >= offset {
                let place = places@[i - offset];
                assert(rows@[i] == place.1);
                assert(self.index_of@.contains_key(track_ids@[place.0 as int]));
            }
        }
        let m = measure(&rows, limit, distance);
        let t = tour(&m);
        proof {
            refining_keeps_every_point(m@, ROUNDS as nat);
            lemma_tour_order_rearranges(track_ids@, places@, anchor is Some, t@);
        }
        let mut ordered: Vec<i64> = Vec::new();
        let mut s: usize = offset;
        while s < t.len()
            invariant
                offset <= s <= t@.len(),
                offset == (if anchor is Some {
                    1int
                } else {
                    0
                }),
                is_tour(t@, (places@.len() + offset) as nat),
                t@.len() > 0,
                ordered@ == in_tour_order(track_ids@, places@, anchor is Some, t@).take(s - offset),
                forall|i: int|
                    0 <= i < places@.len() ==> (#[trigger] places@[i]).0 < track_ids@.len(),
            decreases t@.len() - s,
        {
            let node: usize = t[s];
            assert(t@[s as int] < places@.len() + offset);
            if offset == 1 {
                assert(t@[s as int] != t@[0]);
            }
            assert(places@[node - offset].0 < track_ids@.len());
            ordered.push(track_ids[places[node - offset].0]);
            assert(ordered@ =~= in_tour_order(track_ids@, places@, anchor is Some, t@).take(
                s + 1 - offset,
            ));
            s = s + 1;
        }
        proof {
            assert(ordered@ =~= in_tour_order(track_ids@, places@, anchor is Some, t@));
            assert(measured(measured_rows(anchor, places@), distance, m@));
            assert(tour_ordered(track_ids@, places@, anchor, distance, ordered@));
            if anchor is None {
                assert(t@[0] == 0);
                assert(ordered@[0] == ids_at(track_ids@, places@)[0]);
            }
        }
        ordered
    }
}

// ------------------------------------------------------------ what walks show

impl Navigator {
    /// The steps show the neighbours of a track; none where the space does not
    /// hold it.
    pub open spec fn shows_near<N: Fn(usize) -> Vec<Score>>(
        self,
        track_id: i64,
        k: usize,
        exclude_same_artist: bool,
        similarities: N,
        steps: Seq<Step>,
    ) -> bool {
        if self.index_of@.contains_key(track_id) {
            exists|raw: Vec<Score>| #[trigger]
                similarities.ensures((self.index_of@[track_id],), raw) && shows_neighbours(
                    self.catalog,
                    self.index_of@[track_id] as int,
                    k as nat,
                    exclude_same_artist,
                    raw@,
                    steps,
                )
        } else {
            steps.len() == 0
        }
    }

    /// The walk is radio from a track; nothing where the track is hidden or not
    /// in the space.
    pub open spec fn shows_radio<F: Fn(usize, Vec<usize>) -> Vec<Score>>(
        self,
        from_id: i64,
        steps: usize,
        c: Constraints,
        score: F,
        walk: Seq<Step>,
    ) -> bool {
        match self.open_row(from_id) {
            None => walk.len() == 0,
            Some(start) => exists|rows: Seq<usize>, similarity: Seq<Option<Score>>|
                {
                    &&& #[trigger] radio_walked(
                        self.catalog,
                        c,
                        steps as int,
                        score,
                        rows,
                        similarity,
                    )
                    &&& rows[0] == start
                    &&& rows.no_duplicates()
                    &&& walk.len() == rows.len()
                    &&& forall|i: int|
                        0 <= i < rows.len() ==> shows(
                            self.catalog,
                            #[trigger] walk[i],
                            rows[i],
                            similarity[i],
                        )
                },
        }
    }

    /// The walk goes evenly from one track to another; nothing where one of
    /// them is hidden or not in the space.
    pub open spec fn shows_even_path<F: Fn(usize, Vec<usize>, usize) -> Vec<Score>>(
        self,
        from_id: i64,
        to_id: i64,
        steps: usize,
        c: Constraints,
        at: F,
        walk: Seq<Step>,
    ) -> bool {
        match (self.open_row(from_id), self.open_row(to_id)) {
            (Some(a), Some(b)) => exists|rows: Seq<usize>|
                {
                    &&& #[trigger] snap_walked(
                        self.catalog,
                        c,
                        Some(b),
                        steps - 1,
                        at,
                        seq![b],
                        rows,
                    )
                    &&& rows[0] == a
                    &&& rows.no_duplicates()
                    &&& show_rows(self.catalog, walk, rows.push(b))
                },
            _ => walk.len() == 0,
        }
    }

    /// The walk goes from a track towards a described sound; nothing where the
    /// track is hidden or not in the space, or where nothing can be heard.
    pub open spec fn shows_drift<
        G: Fn(usize) -> Score,
        F: Fn(usize, Vec<usize>, usize) -> Vec<Score>,
    >(
        self,
        from_id: i64,
        clap: Seq<u32>,
        steps: usize,
        k: usize,
        c: Constraints,
        score: G,
        at: F,
        walk: Seq<Step>,
    ) -> bool {
        match self.open_row(from_id) {
            Some(start) => if hears(self.catalog, clap) && k > 0 {
                exists|anchors: Seq<usize>, rows: Seq<usize>|
                    {
                        &&& #[trigger] anchored(self.catalog, clap, k as int, score, anchors)
                        &&& #[trigger] snap_walked(
                            self.catalog,
                            c,
                            None,
                            steps as int,
                            at,
                            anchors,
                            rows,
                        )
                        &&& rows[0] == start
                        &&& rows.no_duplicates()
                        &&& show_rows(self.catalog, walk, rows)
                    }
            } else {
                walk.len() == 0
            },
            None => walk.len() == 0,
        }
    }

    /// The path is the cheapest route between two tracks over the neighbour
    /// graph, which `after` keeps. A graph that was there for this many
    /// neighbours is the one that is used.
    pub open spec fn shows_route<F: Fn(usize) -> (Vec<Score>, Vec<i32>)>(
        self,
        after: Navigator,
        from_id: i64,
        to_id: i64,
        k: usize,
        near: F,
        path: Seq<Step>,
    ) -> bool {
        &&& after.wf()
        &&& after.catalog == self.catalog
        &&& after.index_of == self.index_of
        &&& (self.knn matches Some((cached, _)) && cached == k) ==> after.knn == self.knn
        &&& match (self.open_row(from_id), self.open_row(to_id)) {
            (Some(start), Some(goal)) => {
                &&& after.knn matches Some((cached, graph))
                &&& cached == k
                &&& !(self.knn matches Some((was, _)) && was == k) ==> forall|i: int|
                    0 <= i < graph@.len() ==> edges_asked(
                        self.catalog,
                        k as int,
                        near,
                        i,
                        (#[trigger] graph@[i])@,
                    )
                &&& path.len() > 0 <==> exists|nodes: Seq<usize>, cost: int| #[trigger]
                    connects(graph@, artists_of(self.catalog), nodes, start, goal, cost)
                &&& path.len() > 0 ==> exists|rows: Seq<usize>|
                    {
                        &&& #[trigger] is_route(
                            graph@,
                            artists_of(self.catalog),
                            rows,
                            start,
                            goal,
                        )
                        &&& rows.no_duplicates()
                        &&& show_rows(self.catalog, path, rows)
                        &&& forall|p: int|
                            0 <= p < rows.len() ==> !self.catalog.blocks(#[trigger] rows[p] as int)
                    }
            },
            _ => path.len() == 0 && after.knn == self.knn,
        }
    }
}

} // verus!
