//! What the walks answer when they are asked: of each operation, what whatever
//! it gives back has to be.

use crate::paths::{Constraints, Navigator, Step};
use crate::promises::navigation::{
    a_description_stands_for_its_best_matches, a_drift_goes_towards_the_description,
    a_queue_is_put_in_order, a_route_comes_to_the_least, a_row_is_joined_to_its_nearest,
    an_even_path_goes_from_one_to_the_other, any_row, are_best, can_be_played, comes_to, goes_on,
    heard, is_best, is_cheapest, is_measured, is_measured_by, is_reachable, joins_the_nearest,
    known, lemma_first_is_best, lemma_times_are_heard,
    may_be_near, may_come_next, may_follow, may_play_next,
    neighbours_are_the_best_matches, points_before, radio_always_plays_the_best_match, stand_for,
    steers_all_the_way, the_highest_scores_come_first, whatever_may_follow_is_let_through,
};
use crate::route::{cheapest_route, Graph};
use crate::space::{argsort_desc, top_k, Score};
use crate::tour::{a_tour_is_worked_over, comes_in_rounds, tour, worked_over, Distances};
use vstd::prelude::*;

verus! {

/// `Navigator::allowed` says yes to whatever may follow, and to nothing else.
pub proof fn allowed_answers_whether_it_may_follow(
    nav: &Navigator,
    candidate: usize,
    chosen: &[usize],
    c: &Constraints,
    yes: bool,
)
    requires
        candidate < nav.catalog.tracks@.len(),
        call_ensures(Navigator::allowed, (nav, candidate, chosen, c), yes),
    ensures
        yes <==> may_follow(nav.catalog, *c, candidate as int, chosen@),
{
    whatever_may_follow_is_let_through(nav.catalog, *c, candidate as int, chosen@);
}

/// `Navigator::neighbours_of` answers with the best matches: every row but the
/// one asked about, of an artist who is not hidden, and not of its own artist
/// where others only are asked for.
pub proof fn neighbours_of_answers_with_the_best(
    nav: &Navigator,
    i: usize,
    k: usize,
    others_only: bool,
    similarities: Vec<Score>,
    steps: Vec<Step>,
) -> (rows: Seq<usize>)
    requires
        i < nav.catalog.tracks@.len() <= usize::MAX,
        similarities@.len() == nav.catalog.tracks@.len(),
        call_ensures(Navigator::neighbours_of, (nav, i, k, others_only, similarities), steps),
    ensures
        are_best(similarities@, may_be_near(nav.catalog, i as int, others_only), k as int, rows),
        steps@.len() == rows.len(),
        forall|r: int|
            0 <= r < steps@.len() ==> (#[trigger] steps@[r]).track
                == nav.catalog.tracks@[rows[r] as int] && steps@[r].similarity == Some(
                similarities@[rows[r] as int],
            ),
{
    neighbours_are_the_best_matches(
        nav.catalog,
        i as int,
        k as nat,
        others_only,
        similarities@,
        steps@,
    )
}

/// `Navigator::knn_edges` joins a row to its best matches, each once and at the
/// distance that was given for it.
pub proof fn knn_edges_answers_with_the_nearest(
    nav: &Navigator,
    i: usize,
    k: usize,
    similarities: &[Score],
    distances: &[i32],
    edges: Vec<(usize, i32)>,
)
    requires
        i < nav.catalog.tracks@.len() <= usize::MAX,
        similarities@.len() == nav.catalog.tracks@.len(),
        distances@.len() == nav.catalog.tracks@.len(),
        call_ensures(Navigator::knn_edges, (nav, i, k, similarities, distances), edges),
    ensures
        joins_the_nearest(nav.catalog, i as int, k as int, similarities@, distances@, edges@),
{
    a_row_is_joined_to_its_nearest(
        nav.catalog,
        i as int,
        k as int,
        similarities@,
        distances@,
        edges@,
    );
}

/// `tour` answers with the nearest-first walk worked over.
pub proof fn tour_answers_with_an_order_worked_over(m: &Distances, t: Vec<usize>) -> (g: Seq<usize>)
    requires
        0 < m@.len() <= usize::MAX,
        forall|a: int, b: int|
            0 <= a < m@.len() && 0 <= b < m@.len() ==> #[trigger] m@[a]@[b] == m@[b]@[a],
        call_ensures(tour, (m,), t),
    ensures
        worked_over(m@, g, t@),
        comes_in_rounds(m@, g, t@),
{
    a_tour_is_worked_over(m@, t@)
}

/// `cheapest_route` answers with a way through the graph that comes to the
/// least.
pub proof fn cheapest_route_answers_with_the_least(
    graph: &Graph,
    artists: &[i64],
    start: usize,
    goal: usize,
    route: Option<Vec<usize>>,
) -> (found: (Seq<int>, Seq<int>))
    requires
        call_ensures(cheapest_route, (graph, artists, start, goal), route),
    ensures
        route is Some ==> is_reachable(graph@, artists@, start, goal),
        route matches Some(nodes) ==> {
            &&& comes_to(graph@, artists@, nodes@, found.0, found.1)
            &&& nodes@[0] == start
            &&& nodes@.last() == goal
            &&& is_measured(graph@) ==> is_cheapest(graph@, artists@, start, goal, found.1.last())
        },
{
    match route {
        Some(nodes) => {
            let (taken, paid) = a_route_comes_to_the_least(
                graph@,
                artists@,
                nodes@,
                start,
                goal,
            );
            assert(comes_to(graph@, artists@, nodes@, taken, paid));
            assert(is_reachable(graph@, artists@, start, goal));
            (taken, paid)
        },
        None => (Seq::empty(), Seq::empty()),
    }
}

/// `Navigator::radio_next` answers with the best match of all that may be
/// played next.
pub proof fn radio_next_answers_with_the_best(
    nav: &Navigator,
    chosen: &[usize],
    raw: &[Score],
    c: &Constraints,
    pick: Option<usize>,
)
    requires
        raw@.len() == nav.catalog.tracks@.len() <= usize::MAX,
        call_ensures(Navigator::radio_next, (nav, chosen, raw, c), pick),
    ensures
        is_best(raw@, may_play_next(nav.catalog, *c, chosen@, raw@), pick),
{
    let scores = crate::paths::radio_scores(nav.catalog, chosen@, raw@);
    let fit = |j: int| scores[j] is At && crate::paths::allows(nav.catalog, *c, j, chosen@);
    let open = may_play_next(nav.catalog, *c, chosen@, raw@);
    assert forall|j: int| 0 <= j < scores.len() implies #[trigger] open(j) == fit(j) by {
        whatever_may_follow_is_let_through(nav.catalog, *c, j, chosen@);
    }
    lemma_first_is_best(scores, raw@, fit, open, pick);
}

/// `Navigator::snap` answers with the best match of all that may come next and
/// are not kept for the end.
pub proof fn snap_answers_with_the_best(
    nav: &Navigator,
    similarities: &[Score],
    chosen: &[usize],
    kept: Option<usize>,
    c: &Constraints,
    pick: Option<usize>,
)
    requires
        similarities@.len() == nav.catalog.tracks@.len(),
        call_ensures(Navigator::snap, (nav, similarities, chosen, kept, c), pick),
    ensures
        is_best(similarities@, may_come_next(nav.catalog, *c, chosen@, kept), pick),
{
    let fit = crate::paths::snap_fit(nav.catalog, *c, chosen@, kept);
    let open = may_come_next(nav.catalog, *c, chosen@, kept);
    assert forall|j: int| 0 <= j < similarities@.len() implies #[trigger] open(j) == fit(j) by {
        whatever_may_follow_is_let_through(nav.catalog, *c, j, chosen@);
    }
    lemma_first_is_best(similarities@, similarities@, fit, open, pick);
}

/// `Navigator::count_repeats` answers how often each row's artist was heard,
/// and nought where it has none.
pub proof fn count_repeats_answers_how_often(
    nav: &Navigator,
    chosen: &[usize],
    counts: Vec<usize>,
)
    requires
        chosen@.len() <= usize::MAX,
        call_ensures(Navigator::count_repeats, (nav, chosen), counts),
    ensures
        counts@.len() == nav.catalog.tracks@.len(),
        forall|j: int|
            0 <= j < counts@.len() ==> #[trigger] counts@[j] == (
            if nav.catalog.tracks@[j].artist_id == -1 {
                0
            } else {
                heard(nav.catalog, chosen@, nav.catalog.tracks@[j].artist_id)
            }),
{
    assert forall|j: int| 0 <= j < counts@.len() implies #[trigger] counts@[j] == (
    if nav.catalog.tracks@[j].artist_id == -1 {
        0
    } else {
        heard(nav.catalog, chosen@, nav.catalog.tracks@[j].artist_id)
    }) by {
        lemma_times_are_heard(nav.catalog, chosen@, nav.catalog.tracks@[j].artist_id);
    }
}

/// `Navigator::radio_nearest` answers with a walk that always goes on to the
/// best match.
pub proof fn radio_nearest_answers_with_the_best<F: Fn(usize, Vec<usize>) -> Vec<Score>>(
    nav: &Navigator,
    from: i64,
    steps: usize,
    c: &Constraints,
    score: F,
    walk: Vec<Step>,
) -> (rows: Seq<usize>)
    requires
        nav.wf(),
        nav.catalog.tracks@.len() <= usize::MAX,
        walk@.len() <= usize::MAX,
        forall|row: usize, counts: Vec<usize>, out: Vec<Score>| #[trigger]
            score.ensures((row, counts), out) ==> out@.len() == nav.catalog.tracks@.len(),
        call_ensures(Navigator::radio_nearest::<F>, (nav, from, steps, c, score), walk),
    ensures
        walk@.len() == 0 <==> !can_be_played(*nav, from),
        walk@.len() > 0 ==> {
            &&& rows.len() == walk@.len()
            &&& rows[0] == nav.index_of@[from]
            &&& forall|p: int|
                0 <= p < rows.len() ==> (#[trigger] walk@[p]).track
                    == nav.catalog.tracks@[rows[p] as int]
            &&& forall|p: int|
                1 <= p < rows.len() ==> goes_on(
                    nav.catalog,
                    *c,
                    score,
                    rows.take(p),
                    Some(#[trigger] rows[p]),
                    walk@[p].similarity,
                )
            &&& walk@.len() == 1 || walk@.len() <= steps
            &&& walk@.len() < steps ==> goes_on(nav.catalog, *c, score, rows, None, None)
        },
{
    radio_always_plays_the_best_match(*nav, from, steps, *c, score, walk@)
}

/// `Navigator::interpolate` answers with an even path from the one track to the
/// other.
pub proof fn interpolate_answers_with_an_even_path<
    F: Fn(usize, Vec<usize>, usize) -> Vec<Score>,
>(
    nav: &Navigator,
    from: i64,
    to: i64,
    steps: usize,
    c: &Constraints,
    at: F,
    walk: Vec<Step>,
) -> (rows: Seq<usize>)
    requires
        nav.wf(),
        forall|from: usize, to: Vec<usize>, step: usize, out: Vec<Score>| #[trigger]
            at.ensures((from, to, step), out) ==> out@.len() == nav.catalog.tracks@.len(),
        call_ensures(Navigator::interpolate::<F>, (nav, from, to, steps, c, at), walk),
    ensures
        walk@.len() == 0 <==> !can_be_played(*nav, from) || !can_be_played(*nav, to),
        walk@.len() > 0 ==> {
            &&& rows.len() + 1 == walk@.len()
            &&& rows[0] == nav.index_of@[from]
            &&& steers_all_the_way(
                nav.catalog,
                *c,
                Some(nav.index_of@[to]),
                steps - 1,
                at,
                seq![nav.index_of@[to]],
                rows,
            )
            &&& forall|p: int|
                0 <= p < rows.len() ==> (#[trigger] walk@[p]).track
                    == nav.catalog.tracks@[rows[p] as int]
            &&& walk@.last().track == nav.catalog.tracks@[nav.index_of@[to] as int]
        },
{
    an_even_path_goes_from_one_to_the_other(*nav, from, to, steps, *c, at, walk@)
}

/// `Navigator::drift_to_text` answers with a walk towards the best matches of a
/// description.
pub proof fn drift_to_text_answers_with_a_drift<
    G: Fn(usize) -> Score,
    F: Fn(usize, Vec<usize>, usize) -> Vec<Score>,
>(
    nav: &Navigator,
    from: i64,
    clap: &[u32],
    steps: usize,
    k: usize,
    c: &Constraints,
    score: G,
    at: F,
    walk: Vec<Step>,
) -> (found: (Seq<usize>, Seq<usize>))
    requires
        nav.wf(),
        nav.catalog.tracks@.len() <= usize::MAX,
        forall|from: usize, to: Vec<usize>, step: usize, out: Vec<Score>| #[trigger]
            at.ensures((from, to, step), out) ==> out@.len() == nav.catalog.tracks@.len(),
        call_ensures(
            Navigator::drift_to_text::<G, F>,
            (nav, from, clap, steps, k, c, score, at),
            walk,
        ),
    ensures
        walk@.len() == 0 <==> !can_be_played(*nav, from) || k == 0 || nav.catalog.clap is None
            || nav.catalog.clap_dims == 0 || clap@.len() != nav.catalog.clap_dims,
        walk@.len() > 0 ==> {
            &&& stand_for(nav.catalog, k as int, score, found.0)
            &&& found.1.len() == walk@.len()
            &&& found.1[0] == nav.index_of@[from]
            &&& steers_all_the_way(nav.catalog, *c, None, steps as int, at, found.0, found.1)
            &&& forall|p: int|
                0 <= p < walk@.len() ==> (#[trigger] walk@[p]).track
                    == nav.catalog.tracks@[found.1[p] as int]
        },
{
    a_drift_goes_towards_the_description(*nav, from, clap@, steps, k, *c, score, at, walk@)
}

/// `Navigator::text_anchors` answers with the best matches of a description.
pub proof fn text_anchors_answers_with_the_best<G: Fn(usize) -> Score>(
    nav: &Navigator,
    clap: &[u32],
    k: usize,
    score: G,
    anchors: Vec<usize>,
)
    requires
        nav.catalog.tracks@.len() <= usize::MAX,
        call_ensures(Navigator::text_anchors::<G>, (nav, clap, k, score), anchors),
    ensures
        nav.catalog.clap is None || nav.catalog.clap_dims == 0 || clap@.len()
            != nav.catalog.clap_dims ==> anchors@.len() == 0,
        nav.catalog.clap is Some && nav.catalog.clap_dims != 0 && clap@.len()
            == nav.catalog.clap_dims ==> stand_for(nav.catalog, k as int, score, anchors@),
{
    a_description_stands_for_its_best_matches(nav.catalog, clap@, k as int, score, anchors@);
}

/// `Navigator::shortest_path_order` answers with the tracks of the queue that
/// the space holds, in an order worked over.
pub proof fn shortest_path_order_answers_with_an_order<F: Fn(usize, usize) -> i32>(
    nav: &Navigator,
    ids: &[i64],
    from: Option<i64>,
    distance: F,
    ordered: Vec<i64>,
) -> (found: (Seq<Vec<i32>>, Seq<usize>, Seq<usize>))
    requires
        ids@.len() <= usize::MAX,
        call_ensures(Navigator::shortest_path_order::<F>, (nav, ids, from, distance), ordered),
    ensures
        ({
            let held = known(nav.index_of@, ids@);
            let before_it = points_before(nav.index_of@, from);
            let (m, g, t) = found;
            &&& ordered@.len() == held.len()
            &&& ordered@.to_multiset() == held.to_multiset()
            &&& held.len() < 3 || held.len() > 1024 ==> ordered@ == held
            &&& 3 <= held.len() <= 1024 ==> {
                &&& is_measured_by(nav.index_of@, from, held, distance, m)
                &&& worked_over(m, g, t)
                &&& comes_in_rounds(m, g, t)
                &&& forall|i: int|
                    0 <= i < ordered@.len() ==> #[trigger] ordered@[i] == held[t[i + before_it]
                        - before_it]
            }
        }),
{
    a_queue_is_put_in_order(*nav, ids@, from, distance, ordered@)
}

/// `top_k` answers with the highest scores and `argsort_desc` with all of them,
/// the highest first, and of two as high the one that comes first.
pub proof fn top_k_answers_with_the_highest(
    scores: &[Score],
    k: usize,
    top: Vec<usize>,
    order: Vec<usize>,
)
    requires
        scores@.len() <= usize::MAX,
        call_ensures(top_k, (scores, k), top),
        call_ensures(argsort_desc, (scores,), order),
    ensures
        are_best(scores@, any_row(), k as int, top@),
        are_best(scores@, any_row(), scores@.len() as int, order@),
        order@.len() == scores@.len(),
{
    the_highest_scores_come_first(scores@, k as nat, top@, order@);
}

} // verus!
