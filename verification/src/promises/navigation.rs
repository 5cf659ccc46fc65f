//! What the walks through the space have to live up to.
//!
//! Each promise is said of what goes in and what comes out: of tracks, scores and
//! distances, in words that the walks themselves do not use.

use crate::db::Catalog;
use crate::ordering::{
    before, fitting, foremost_fit, is_top, leads_the_fit, lemma_an_order_exists,
    lemma_left_out_means_full, orders_all, ranking,
};
use crate::paths::{
    aimed, allows, anchor_row, anchored, artists_of, edges_among, edges_asked, edges_of, first_fit,
    ids_at, in_sight, in_tour_order, lemma_places, lemma_tour_order_rearranges, masked, matched,
    may_neighbour, measured, measured_rows, no_neighbour, placeable, placeable_ids, radio_pick,
    radio_scores, radio_step, radio_stuck, radio_walked, repeats, scored, show_rows, shows,
    shows_neighbours, snap_fit, snap_step, snap_walked, times, tour_ordered, Constraints, Navigator,
    Step, SORT_CAP,
};
use crate::route::{
    connects, hop, is_route, is_way, leads, lemma_nothing_is_paid, no_hop_pays, walks, walks_unpaid,
};
use crate::space::Score;
use crate::tour::{
    a_tour_is_worked_over, comes_in_rounds, dist, greedy, refined, refining_keeps_every_point, worked_over, ROUNDS,
};
use vstd::prelude::*;

verus! {

// ------------------------------------------------------------------ the best

/// Of two rows, `a` is the better match: it scores higher, or as high and comes
/// first. Whatever has a score is better than what has none.
pub open spec fn nearer(scores: Seq<Score>, a: int, b: int) -> bool {
    match (scores[a], scores[b]) {
        (Score::At(x), Score::At(y)) => x > y || (x == y && a < b),
        (Score::At(_), Score::Masked) => true,
        (Score::Masked, Score::At(_)) => false,
        (Score::Masked, Score::Masked) => a < b,
    }
}

proof fn lemma_before_is_nearer(scores: Seq<Score>, a: int, b: int)
    requires
        a != b,
    ensures
        before(scores, a, b) == nearer(scores, a, b),
{
}

/// `rows` are the `k` best of the rows that are `open`, the best first: fewer
/// only where there are no more.
pub open spec fn are_best(scores: Seq<Score>, open: spec_fn(int) -> bool, k: int, rows: Seq<usize>) -> bool {
    &&& rows.len() <= k
    &&& forall|r: int|
        0 <= r < rows.len() ==> (#[trigger] rows[r]) < scores.len() && open(rows[r] as int)
    &&& forall|r: int, q: int|
        0 <= r < q < rows.len() ==> rows[r] != rows[q] && nearer(
            scores,
            #[trigger] rows[r] as int,
            #[trigger] rows[q] as int,
        )
    &&& forall|j: int|
        0 <= j < scores.len() && #[trigger] open(j) && !rows.contains(j as usize) ==> {
            &&& rows.len() == k
            &&& forall|r: int| 0 <= r < rows.len() ==> nearer(scores, #[trigger] rows[r] as int, j)
        }
}

/// Every row there is.
pub open spec fn any_row() -> spec_fn(int) -> bool {
    |j: int| true
}

/// The top of the scores are the best matches there are, and the whole order is
/// all of them.
pub proof fn the_highest_scores_come_first(
    scores: Seq<Score>,
    k: nat,
    top: Seq<usize>,
    order: Seq<usize>,
)
    requires
        scores.len() <= usize::MAX,
        is_top(scores, k, top),
        orders_all(scores, order),
    ensures
        are_best(scores, any_row(), k as int, top),
        are_best(scores, any_row(), scores.len() as int, order),
        order.len() == scores.len(),
{
    assert forall|r: int, q: int| 0 <= r < q < top.len() implies top[r] != top[q] && nearer(
        scores,
        #[trigger] top[r] as int,
        #[trigger] top[q] as int,
    ) by {
        assert(before(scores, top[r] as int, top[q] as int));
        lemma_before_is_nearer(scores, top[r] as int, top[q] as int);
    }
    assert forall|j: int|
        0 <= j < scores.len() && #[trigger] any_row()(j) && !top.contains(j as usize) implies top.len()
        == k && forall|r: int|
        0 <= r < top.len() ==> nearer(scores, #[trigger] top[r] as int, j) by {
        assert forall|r: int| 0 <= r < top.len() implies nearer(scores, #[trigger] top[r] as int, j) by {
            assert(top.contains(top[r]));
            assert(before(scores, top[r] as int, j));
            lemma_before_is_nearer(scores, top[r] as int, j);
        }
        if top.len() < k {
            lemma_all_are_listed(top, scores.len() as int, j);
        }
    }
    assert forall|r: int, q: int| 0 <= r < q < order.len() implies order[r] != order[q] && nearer(
        scores,
        #[trigger] order[r] as int,
        #[trigger] order[q] as int,
    ) by {
        assert(before(scores, order[r] as int, order[q] as int));
        lemma_before_is_nearer(scores, order[r] as int, order[q] as int);
    }
}

proof fn lemma_all_are_listed(rows: Seq<usize>, n: int, j: int)
    requires
        0 <= j < n <= usize::MAX,
        rows.len() == n,
        forall|r: int| 0 <= r < rows.len() ==> #[trigger] rows[r] < n,
        forall|r: int, q: int| 0 <= r < q < rows.len() ==> #[trigger] rows[r] != #[trigger] rows[q],
    ensures
        rows.contains(j as usize),
{
    let listed = rows.map_values(|row: usize| row as int);
    assert(listed.no_duplicates());
    listed.unique_seq_to_set();
    let all = vstd::set_lib::set_int_range(0, n);
    vstd::set_lib::lemma_int_range(0, n);
    assert(listed.to_set().subset_of(all)) by {
        assert forall|x: int| listed.to_set().contains(x) implies all.contains(x) by {
            let r = choose|r: int| 0 <= r < listed.len() && listed[r] == x;
            assert(rows[r] < n);
        }
    }
    vstd::set_lib::lemma_subset_equality(listed.to_set(), all);
    assert(listed.to_set().contains(j));
    let r = choose|r: int| 0 <= r < listed.len() && listed[r] == j;
    assert(rows[r] == j as usize);
}

/// `pick` is the best of the rows that are `open`; nothing where none is.
pub open spec fn is_best(scores: Seq<Score>, open: spec_fn(int) -> bool, pick: Option<usize>) -> bool {
    match pick {
        Some(j) => {
            &&& j < scores.len()
            &&& open(j as int)
            &&& forall|h: int|
                0 <= h < scores.len() && h != j && #[trigger] open(h) ==> nearer(scores, j as int, h)
        },
        None => forall|h: int| 0 <= h < scores.len() ==> !#[trigger] open(h),
    }
}

proof fn lemma_leading_are_best(
    scores: Seq<Score>,
    fit: spec_fn(int) -> bool,
    open: spec_fn(int) -> bool,
    k: nat,
    rows: Seq<usize>,
)
    requires
        scores.len() <= usize::MAX,
        leads_the_fit(scores, fit, k, rows),
        forall|j: int| 0 <= j < scores.len() ==> #[trigger] open(j) == fit(j),
    ensures
        are_best(scores, open, k as int, rows),
{
    assert forall|r: int, q: int| 0 <= r < q < rows.len() implies rows[r] != rows[q] && nearer(
        scores,
        #[trigger] rows[r] as int,
        #[trigger] rows[q] as int,
    ) by {
        assert(before(scores, rows[r] as int, rows[q] as int));
        lemma_before_is_nearer(scores, rows[r] as int, rows[q] as int);
    }
    assert forall|j: int|
        0 <= j < scores.len() && #[trigger] open(j) && !rows.contains(j as usize) implies rows.len()
        == k && forall|r: int|
        0 <= r < rows.len() ==> nearer(scores, #[trigger] rows[r] as int, j) by {
        let all = fitting(scores.len(), fit);
        assert(all.contains(j as usize));
        let found = rows.to_set();
        rows.unique_seq_to_set();
        assert(found.subset_of(all.remove(j as usize)));
        vstd::set_lib::lemma_len_subset(found, all.remove(j as usize));
        assert forall|r: int| 0 <= r < rows.len() implies nearer(
            scores,
            #[trigger] rows[r] as int,
            j,
        ) by {
            assert(before(scores, rows[r] as int, j));
            assert(rows[r] as int != j) by {
                if rows[r] as int == j {
                    assert(rows.contains(rows[r]));
                }
            }
            lemma_before_is_nearer(scores, rows[r] as int, j);
        }
    }
}

pub(crate) proof fn lemma_first_is_best(
    scores: Seq<Score>,
    raw: Seq<Score>,
    fit: spec_fn(int) -> bool,
    open: spec_fn(int) -> bool,
    pick: Option<usize>,
)
    requires
        first_fit(scores, fit, pick),
        scores.len() == raw.len(),
        forall|j: int| 0 <= j < scores.len() ==> #[trigger] open(j) == fit(j),
        forall|j: int| 0 <= j < scores.len() && #[trigger] fit(j) ==> scores[j] == raw[j],
    ensures
        is_best(raw, open, pick),
{
    match pick {
        Some(j) => {
            assert(fit(j as int));
            assert(open(j as int));
            assert forall|h: int| 0 <= h < raw.len() && h != j && #[trigger] open(h) implies nearer(
                raw,
                j as int,
                h,
            ) by {
                assert(fit(h));
                assert(before(scores, j as int, h));
                lemma_before_is_nearer(scores, j as int, h);
            }
        },
        None => {
            assert forall|h: int| 0 <= h < raw.len() implies !#[trigger] open(h) by {
                assert(!fit(h));
            }
        },
    }
}

// ---------------------------------------------------------------- neighbours

/// What may be near row `i`: another track, by an artist who is not hidden and,
/// where `others_only` is asked for, not by the same one.
pub open spec fn may_be_near(catalog: Catalog, i: int, others_only: bool) -> spec_fn(int) -> bool {
    |j: int|
        {
            &&& j != i
            &&& !catalog.blocked_artists@.contains(catalog.tracks@[j].artist_id)
            &&& others_only && catalog.tracks@[i].artist_id != -1 ==> catalog.tracks@[j].artist_id
                != catalog.tracks@[i].artist_id
        }
}

/// The neighbours of a row are the best matches among the other tracks that
/// show, each once, the best first, and each with its own score. A track is left
/// out only for being hidden, for being by the same artist where that was asked,
/// or because `k` others match better.
pub proof fn neighbours_are_the_best_matches(
    catalog: Catalog,
    i: int,
    k: nat,
    others_only: bool,
    raw: Seq<Score>,
    steps: Seq<Step>,
) -> (rows: Seq<usize>)
    requires
        raw.len() == catalog.tracks@.len() <= usize::MAX,
        0 <= i < raw.len(),
        shows_neighbours(catalog, i, k, others_only, raw, steps),
    ensures
        are_best(raw, may_be_near(catalog, i, others_only), k as int, rows),
        steps.len() == rows.len(),
        forall|r: int|
            0 <= r < steps.len() ==> (#[trigger] steps[r]).track == catalog.tracks@[rows[r] as int]
                && steps[r].similarity == Some(raw[rows[r] as int]),
{
    let fit = may_neighbour(catalog, i, others_only);
    let rows = foremost_fit(raw, fit, k);
    lemma_leading_are_best(raw, fit, may_be_near(catalog, i, others_only), k, rows);
    assert forall|r: int| 0 <= r < steps.len() implies (#[trigger] steps[r]).track
        == catalog.tracks@[rows[r] as int] && steps[r].similarity == Some(raw[rows[r] as int]) by {
        assert(shows(catalog, steps[r], rows[r], Some(raw[rows[r] as int])));
    }
    rows
}

/// Asked for the neighbours of a track, the space answers with the best matches
/// by the scores it was given for that track's row, and with nothing where it
/// does not hold the track.
pub proof fn a_track_is_answered_with_its_best_matches<N: Fn(usize) -> Vec<Score>>(
    nav: Navigator,
    track: i64,
    k: usize,
    others_only: bool,
    similarities: N,
    steps: Seq<Step>,
)
    requires
        nav.wf(),
        nav.catalog.tracks@.len() <= usize::MAX,
        forall|row: usize, out: Vec<Score>| #[trigger]
            similarities.ensures((row,), out) ==> out@.len() == nav.catalog.tracks@.len(),
        nav.shows_near(track, k, others_only, similarities, steps),
    ensures
        !nav.index_of@.contains_key(track) ==> steps.len() == 0,
        nav.index_of@.contains_key(track) ==> exists|raw: Vec<Score>, rows: Seq<usize>|
            {
                &&& #[trigger] similarities.ensures((nav.index_of@[track],), raw)
                &&& #[trigger] are_best(
                    raw@,
                    may_be_near(nav.catalog, nav.index_of@[track] as int, others_only),
                    k as int,
                    rows,
                )
                &&& steps.len() == rows.len()
                &&& forall|r: int|
                    0 <= r < steps.len() ==> (#[trigger] steps[r]).track
                        == nav.catalog.tracks@[rows[r] as int] && steps[r].similarity == Some(
                        raw@[rows[r] as int],
                    )
            },
{
    if nav.index_of@.contains_key(track) {
        let i = nav.index_of@[track];
        let raw = choose|raw: Vec<Score>| #[trigger]
            similarities.ensures((i,), raw) && shows_neighbours(
                nav.catalog,
                i as int,
                k as nat,
                others_only,
                raw@,
                steps,
            );
        let rows = neighbours_are_the_best_matches(
            nav.catalog,
            i as int,
            k as nat,
            others_only,
            raw@,
            steps,
        );
        assert(similarities.ensures((i,), raw));
        assert(are_best(raw@, may_be_near(nav.catalog, i as int, others_only), k as int, rows));
    }
}

// --------------------------------------------------------------------- rules

/// `j` may come after the tracks chosen so far: it shows, it is not one of those
/// to leave out, its artist, where it has one, was not heard in the last so many
/// steps, and it shares no album with the track before it and is not too far from
/// it in tempo, where that matters.
pub open spec fn may_follow(catalog: Catalog, c: Constraints, j: int, chosen: Seq<usize>) -> bool {
    let track = catalog.tracks@[j];
    &&& !catalog.blocked_artists@.contains(track.artist_id)
    &&& !c.exclude@.contains(track.track_id)
    &&& track.artist_id != -1 ==> forall|p: int|
        0 <= p < chosen.len() && chosen.len() - p <= c.artist_cooldown ==> track.artist_id
            != catalog.tracks@[#[trigger] chosen[p] as int].artist_id
    &&& chosen.len() > 0 ==> {
        let last = catalog.tracks@[chosen[chosen.len() - 1] as int];
        &&& !c.allow_same_album_consecutive && track.album_id@.len() > 0 ==> track.album_id@
            != last.album_id@
        &&& (c.max_bpm_delta matches Some(most) && track.bpm matches Some(a)
            && last.bpm matches Some(b)) ==> -c.max_bpm_delta->0 <= track.bpm->0 - last.bpm->0
            <= c.max_bpm_delta->0
    }
}

/// What may come next is let through, and nothing else is: an artist returns as
/// soon as the cooldown is over, whatever was chosen before.
pub proof fn whatever_may_follow_is_let_through(
    catalog: Catalog,
    c: Constraints,
    j: int,
    chosen: Seq<usize>,
)
    requires
        0 <= j < catalog.tracks@.len(),
    ensures
        allows(catalog, c, j, chosen) <==> may_follow(catalog, c, j, chosen),
{
    if chosen.len() > 0 {
        assert(chosen.last() == chosen[chosen.len() - 1]);
    }
    let window = chosen.len() - c.artist_cooldown;
    if allows(catalog, c, j, chosen) {
        assert forall|p: int|
            0 <= p < chosen.len() && chosen.len() - p <= c.artist_cooldown
                && catalog.tracks@[j].artist_id != -1 implies catalog.tracks@[j].artist_id
            != catalog.tracks@[#[trigger] chosen[p] as int].artist_id by {
            assert(window <= p);
        }
    }
}

/// Only the last steps count: what was chosen before the cooldown began changes
/// nothing.
pub proof fn what_is_long_past_is_forgotten(
    catalog: Catalog,
    c: Constraints,
    j: int,
    long_past: Seq<usize>,
    chosen: Seq<usize>,
)
    requires
        0 <= j < catalog.tracks@.len(),
        chosen.len() > 0,
        chosen.len() >= c.artist_cooldown,
    ensures
        allows(catalog, c, j, long_past + chosen) == allows(catalog, c, j, chosen),
{
    let all = long_past + chosen;
    let n = long_past.len() as int;
    whatever_may_follow_is_let_through(catalog, c, j, all);
    whatever_may_follow_is_let_through(catalog, c, j, chosen);
    assert(all[all.len() - 1] == chosen[chosen.len() - 1]);
    if may_follow(catalog, c, j, chosen) {
        assert forall|p: int|
            0 <= p < all.len() && all.len() - p <= c.artist_cooldown && catalog.tracks@[j].artist_id
                != -1 implies catalog.tracks@[j].artist_id
            != catalog.tracks@[#[trigger] all[p] as int].artist_id by {
            assert(all[p] == chosen[p - n]);
        }
    }
    if may_follow(catalog, c, j, all) {
        assert forall|p: int|
            0 <= p < chosen.len() && chosen.len() - p <= c.artist_cooldown
                && catalog.tracks@[j].artist_id != -1 implies catalog.tracks@[j].artist_id
            != catalog.tracks@[#[trigger] chosen[p] as int].artist_id by {
            assert(all[p + n] == chosen[p]);
        }
    }
}

// --------------------------------------------------------------------- radio

/// Radio may go on to `j`: it has not been there, `j` has a score, and it may
/// follow.
pub open spec fn may_play_next(
    catalog: Catalog,
    c: Constraints,
    chosen: Seq<usize>,
    raw: Seq<Score>,
) -> spec_fn(int) -> bool {
    |j: int|
        {
            &&& !chosen.contains(j as usize)
            &&& raw[j] is At
            &&& may_follow(catalog, c, j, chosen)
        }
}

/// How many of the chosen tracks are by this artist.
pub open spec fn heard(catalog: Catalog, chosen: Seq<usize>, artist: i64) -> nat {
    chosen.filter(|row: usize| catalog.tracks@[row as int].artist_id == artist).len()
}

/// These were the scores given after the chosen tracks, when asked about the last
/// of them and told of every row how often its artist was heard, where it has one.
pub open spec fn scores_after<F: Fn(usize, Vec<usize>) -> Vec<Score>>(
    catalog: Catalog,
    score: F,
    chosen: Seq<usize>,
    raw: Vec<Score>,
) -> bool {
    exists|counts: Vec<usize>|
        {
            &&& #[trigger] score.ensures((chosen[chosen.len() - 1], counts), raw)
            &&& counts@.len() == catalog.tracks@.len()
            &&& forall|j: int|
                0 <= j < counts@.len() ==> #[trigger] counts@[j] == (if catalog.tracks@[j].artist_id
                    == -1 {
                    0
                } else {
                    heard(catalog, chosen, catalog.tracks@[j].artist_id)
                })
        }
}

/// Radio went on from the chosen tracks to the best match it may play next, or
/// stopped for want of one.
pub open spec fn goes_on<F: Fn(usize, Vec<usize>) -> Vec<Score>>(
    catalog: Catalog,
    c: Constraints,
    score: F,
    chosen: Seq<usize>,
    next: Option<usize>,
    at: Option<Score>,
) -> bool {
    exists|raw: Vec<Score>|
        {
            &&& #[trigger] scores_after(catalog, score, chosen, raw)
            &&& is_best(raw@, may_play_next(catalog, c, chosen, raw@), next)
            &&& next matches Some(j) ==> at == Some(raw@[j as int])
        }
}

pub(crate) proof fn lemma_times_are_heard(catalog: Catalog, chosen: Seq<usize>, artist: i64)
    ensures
        times(catalog, chosen, artist) == heard(catalog, chosen, artist),
        heard(catalog, chosen, artist) <= chosen.len(),
    decreases chosen.len(),
{
    reveal(Seq::filter);
    if chosen.len() > 0 {
        lemma_times_are_heard(catalog, chosen.drop_last(), artist);
    }
}

proof fn lemma_scored_after<F: Fn(usize, Vec<usize>) -> Vec<Score>>(
    catalog: Catalog,
    score: F,
    chosen: Seq<usize>,
    raw: Vec<Score>,
)
    requires
        0 < chosen.len() <= usize::MAX,
        scored(catalog, score, chosen, raw),
    ensures
        scores_after(catalog, score, chosen, raw),
{
    let counts = choose|counts: Vec<usize>| #[trigger]
        score.ensures((chosen.last(), counts), raw) && counts@ == repeats(catalog, chosen);
    assert(chosen.last() == chosen[chosen.len() - 1]);
    assert forall|j: int| 0 <= j < counts@.len() implies #[trigger] counts@[j] == (
    if catalog.tracks@[j].artist_id == -1 {
        0
    } else {
        heard(catalog, chosen, catalog.tracks@[j].artist_id)
    }) by {
        assert(counts@[j] == repeats(catalog, chosen)[j]);
        lemma_times_are_heard(catalog, chosen, catalog.tracks@[j].artist_id);
    }
}

proof fn lemma_radio_goes_on<F: Fn(usize, Vec<usize>) -> Vec<Score>>(
    catalog: Catalog,
    c: Constraints,
    score: F,
    chosen: Seq<usize>,
    raw: Vec<Score>,
    next: Option<usize>,
)
    requires
        0 < chosen.len() <= usize::MAX,
        raw@.len() == catalog.tracks@.len() <= usize::MAX,
        scored(catalog, score, chosen, raw),
        radio_pick(catalog, c, chosen, raw@, next),
    ensures
        scores_after(catalog, score, chosen, raw),
        is_best(raw@, may_play_next(catalog, c, chosen, raw@), next),
{
    lemma_scored_after(catalog, score, chosen, raw);
    let scores = radio_scores(catalog, chosen, raw@);
    let fit = |j: int| scores[j] is At && allows(catalog, c, j, chosen);
    let open = may_play_next(catalog, c, chosen, raw@);
    assert forall|j: int| 0 <= j < scores.len() implies #[trigger] open(j) == fit(j) by {
        whatever_may_follow_is_let_through(catalog, c, j, chosen);
    }
    lemma_first_is_best(scores, raw@, fit, open, next);
}

/// Radio from a track: nothing where the track is hidden or unknown; otherwise
/// the track itself, and from each track on the best match of all those that may
/// be played next, none of them twice, each with the score it was picked for. It
/// plays as many as were asked for and stops sooner only where no track at all may
/// be played next.
pub proof fn radio_always_plays_the_best_match<F: Fn(usize, Vec<usize>) -> Vec<Score>>(
    nav: Navigator,
    from: i64,
    steps: usize,
    c: Constraints,
    score: F,
    walk: Seq<Step>,
) -> (rows: Seq<usize>)
    requires
        nav.wf(),
        nav.catalog.tracks@.len() <= usize::MAX,
        walk.len() <= usize::MAX,
        forall|row: usize, counts: Vec<usize>, out: Vec<Score>| #[trigger]
            score.ensures((row, counts), out) ==> out@.len() == nav.catalog.tracks@.len(),
        nav.shows_radio(from, steps, c, score, walk),
    ensures
        walk.len() == 0 <==> !nav.index_of@.contains_key(from)
            || nav.catalog.blocked_artists@.contains(
            nav.catalog.tracks@[nav.index_of@[from] as int].artist_id,
        ),
        walk.len() > 0 ==> {
            &&& rows.len() == walk.len()
            &&& rows[0] == nav.index_of@[from]
            &&& walk[0].similarity is None
            &&& forall|p: int|
                0 <= p < rows.len() ==> (#[trigger] walk[p]).track
                    == nav.catalog.tracks@[rows[p] as int]
            &&& forall|p: int|
                1 <= p < rows.len() ==> goes_on(
                    nav.catalog,
                    c,
                    score,
                    rows.take(p),
                    Some(#[trigger] rows[p]),
                    walk[p].similarity,
                )
            &&& walk.len() == 1 || walk.len() <= steps
            &&& walk.len() < steps ==> goes_on(nav.catalog, c, score, rows, None, None)
        },
{
    if walk.len() == 0 {
        if nav.open_row(from) is Some {
            let (rows, similarity) = choose|rows: Seq<usize>, similarity: Seq<Option<Score>>|
                {
                    &&& #[trigger] radio_walked(
                        nav.catalog,
                        c,
                        steps as int,
                        score,
                        rows,
                        similarity,
                    )
                    &&& walk.len() == rows.len()
                };
            assert(rows.len() > 0);
        }
        Seq::empty()
    } else {
        let start = nav.open_row(from)->0;
        let (rows, similarity) = choose|rows: Seq<usize>, similarity: Seq<Option<Score>>|
            {
                &&& #[trigger] radio_walked(nav.catalog, c, steps as int, score, rows, similarity)
                &&& rows[0] == start
                &&& rows.no_duplicates()
                &&& walk.len() == rows.len()
                &&& forall|i: int|
                    0 <= i < rows.len() ==> shows(
                        nav.catalog,
                        #[trigger] walk[i],
                        rows[i],
                        similarity[i],
                    )
            };
        assert forall|p: int| 1 <= p < rows.len() implies goes_on(
            nav.catalog,
            c,
            score,
            rows.take(p),
            Some(#[trigger] rows[p]),
            walk[p].similarity,
        ) by {
            let chosen = rows.take(p);
            assert(radio_step(nav.catalog, c, score, chosen, rows[p], similarity[p]));
            let raw = choose|raw: Vec<Score>| #[trigger]
                scored(nav.catalog, score, chosen, raw) && radio_pick(
                    nav.catalog,
                    c,
                    chosen,
                    raw@,
                    Some(rows[p]),
                ) && similarity[p] == Some(raw@[rows[p] as int]);
            lemma_scored_after(nav.catalog, score, chosen, raw);
            lemma_radio_goes_on(nav.catalog, c, score, chosen, raw, Some(rows[p]));
            assert(shows(nav.catalog, walk[p], rows[p], similarity[p]));
        }
        if walk.len() < steps {
            assert(radio_stuck(nav.catalog, c, score, rows));
            let raw = choose|raw: Vec<Score>| #[trigger]
                scored(nav.catalog, score, rows, raw) && radio_pick(nav.catalog, c, rows, raw@, None);
            lemma_scored_after(nav.catalog, score, rows, raw);
            lemma_radio_goes_on(nav.catalog, c, score, rows, raw, None);
        }
        assert(shows(nav.catalog, walk[0], rows[0], similarity[0]));
        rows
    }
}

// ------------------------------------------------------------ stepwise walks

/// A walk from waypoint to waypoint may go on to `j`: it has not been there, it
/// is not to be `kept` for the end, and it may follow.
pub open spec fn may_come_next(
    catalog: Catalog,
    c: Constraints,
    chosen: Seq<usize>,
    kept: Option<usize>,
) -> spec_fn(int) -> bool {
    |j: int|
        {
            &&& !chosen.contains(j as usize)
            &&& kept != Some(j as usize)
            &&& may_follow(catalog, c, j, chosen)
        }
}

/// The walk went on from the chosen tracks to the best match for the next
/// waypoint on the way from the first of them to the middle of `targets`, or
/// stopped for want of one. So many tracks chosen, so many steps along.
pub open spec fn steers<F: Fn(usize, Vec<usize>, usize) -> Vec<Score>>(
    catalog: Catalog,
    c: Constraints,
    kept: Option<usize>,
    at: F,
    targets: Seq<usize>,
    chosen: Seq<usize>,
    next: Option<usize>,
) -> bool {
    exists|asked: Vec<usize>, raw: Vec<Score>|
        {
            &&& #[trigger] at.ensures((chosen[0], asked, chosen.len() as usize), raw)
            &&& asked@ == targets
            &&& is_best(raw@, may_come_next(catalog, c, chosen, kept), next)
        }
}

proof fn lemma_snap_steers<F: Fn(usize, Vec<usize>, usize) -> Vec<Score>>(
    catalog: Catalog,
    c: Constraints,
    kept: Option<usize>,
    at: F,
    targets: Seq<usize>,
    chosen: Seq<usize>,
    next: Option<usize>,
)
    requires
        forall|from: usize, to: Vec<usize>, step: usize, out: Vec<Score>| #[trigger]
            at.ensures((from, to, step), out) ==> out@.len() == catalog.tracks@.len(),
        snap_step(catalog, c, kept, at, targets, chosen, next),
    ensures
        steers(catalog, c, kept, at, targets, chosen, next),
{
    let fit = snap_fit(catalog, c, chosen, kept);
    let open = may_come_next(catalog, c, chosen, kept);
    let raw = choose|raw: Vec<Score>| #[trigger]
        aimed(at, chosen[0], targets, chosen.len() as int, raw) && first_fit(raw@, fit, next);
    let asked = choose|asked: Vec<usize>| #[trigger]
        at.ensures((chosen[0], asked, chosen.len() as int as usize), raw) && asked@ == targets;
    assert(at.ensures((chosen[0], asked, chosen.len() as usize), raw));
    assert forall|j: int| 0 <= j < raw@.len() implies #[trigger] open(j) == fit(j) by {
        whatever_may_follow_is_let_through(catalog, c, j, chosen);
    }
    lemma_first_is_best(raw@, raw@, fit, open, next);
}

/// `rows` is a walk from waypoint to waypoint: at each the best match of all that
/// may come next, up to `end` of them, and fewer only where nothing at all may
/// come next.
pub open spec fn steers_all_the_way<F: Fn(usize, Vec<usize>, usize) -> Vec<Score>>(
    catalog: Catalog,
    c: Constraints,
    kept: Option<usize>,
    end: int,
    at: F,
    targets: Seq<usize>,
    rows: Seq<usize>,
) -> bool {
    &&& rows.len() > 0
    &&& rows.len() == 1 || rows.len() <= end
    &&& forall|p: int|
        1 <= p < rows.len() ==> steers(
            catalog,
            c,
            kept,
            at,
            targets,
            rows.take(p),
            Some(#[trigger] rows[p]),
        )
    &&& rows.len() < end ==> steers(catalog, c, kept, at, targets, rows, None)
}

proof fn lemma_walk_steers<F: Fn(usize, Vec<usize>, usize) -> Vec<Score>>(
    catalog: Catalog,
    c: Constraints,
    kept: Option<usize>,
    end: int,
    at: F,
    targets: Seq<usize>,
    rows: Seq<usize>,
)
    requires
        forall|from: usize, to: Vec<usize>, step: usize, out: Vec<Score>| #[trigger]
            at.ensures((from, to, step), out) ==> out@.len() == catalog.tracks@.len(),
        snap_walked(catalog, c, kept, end, at, targets, rows),
    ensures
        steers_all_the_way(catalog, c, kept, end, at, targets, rows),
{
    assert forall|p: int| 1 <= p < rows.len() implies steers(
        catalog,
        c,
        kept,
        at,
        targets,
        rows.take(p),
        Some(#[trigger] rows[p]),
    ) by {
        assert(snap_step(catalog, c, kept, at, targets, rows.take(p), Some(rows[p])));
        lemma_snap_steers(catalog, c, kept, at, targets, rows.take(p), Some(rows[p]));
    }
    if rows.len() < end {
        lemma_snap_steers(catalog, c, kept, at, targets, rows, None);
    }
}

/// The track of a known id shows.
pub open spec fn can_be_played(nav: Navigator, id: i64) -> bool {
    nav.index_of@.contains_key(id) && !nav.catalog.blocked_artists@.contains(
        nav.catalog.tracks@[nav.index_of@[id] as int].artist_id,
    )
}

/// An even path goes from one track to the other: the one first, the other last,
/// in between at each step the best match for that step's waypoint, and never the
/// goal before the end. Nothing where either is hidden or unknown.
pub proof fn an_even_path_goes_from_one_to_the_other<F: Fn(usize, Vec<usize>, usize) -> Vec<Score>>(
    nav: Navigator,
    from: i64,
    to: i64,
    steps: usize,
    c: Constraints,
    at: F,
    walk: Seq<Step>,
) -> (rows: Seq<usize>)
    requires
        nav.wf(),
        forall|from: usize, to: Vec<usize>, step: usize, out: Vec<Score>| #[trigger]
            at.ensures((from, to, step), out) ==> out@.len() == nav.catalog.tracks@.len(),
        nav.shows_even_path(from, to, steps, c, at, walk),
    ensures
        walk.len() == 0 <==> !can_be_played(nav, from) || !can_be_played(nav, to),
        walk.len() > 0 ==> {
            &&& rows.len() + 1 == walk.len()
            &&& rows[0] == nav.index_of@[from]
            &&& steers_all_the_way(
                nav.catalog,
                c,
                Some(nav.index_of@[to]),
                steps - 1,
                at,
                seq![nav.index_of@[to]],
                rows,
            )
            &&& forall|p: int|
                0 <= p < rows.len() ==> (#[trigger] walk[p]).track
                    == nav.catalog.tracks@[rows[p] as int]
            &&& walk.last().track == nav.catalog.tracks@[nav.index_of@[to] as int]
            &&& forall|p: int| 0 <= p < walk.len() ==> (#[trigger] walk[p]).similarity is None
        },
{
    if can_be_played(nav, from) && can_be_played(nav, to) {
        let a = nav.index_of@[from];
        let b = nav.index_of@[to];
        assert(nav.open_row(from) == Some(a) && nav.open_row(to) == Some(b));
        let rows = choose|rows: Seq<usize>|
            {
                &&& #[trigger] snap_walked(nav.catalog, c, Some(b), steps - 1, at, seq![b], rows)
                &&& rows[0] == a
                &&& rows.no_duplicates()
                &&& show_rows(nav.catalog, walk, rows.push(b))
            };
        lemma_walk_steers(nav.catalog, c, Some(b), steps - 1, at, seq![b], rows);
        let all = rows.push(b);
        assert forall|p: int| 0 <= p < walk.len() implies (#[trigger] walk[p]).track
            == nav.catalog.tracks@[all[p] as int] && walk[p].similarity is None by {
            assert(shows(nav.catalog, walk[p], all[p], None));
        }
        assert(walk.last() == walk[rows.len() as int]);
        rows
    } else {
        assert(nav.open_row(from) is None || nav.open_row(to) is None);
        Seq::empty()
    }
}

// ---------------------------------------------------------------------- text

/// The tracks by artists who are not hidden.
pub open spec fn is_in_view(catalog: Catalog) -> spec_fn(int) -> bool {
    |j: int| !catalog.blocked_artists@.contains(catalog.tracks@[j].artist_id)
}

/// `anchors` are the `k` best matches in view, by the score given for each row.
pub open spec fn stand_for<G: Fn(usize) -> Score>(
    catalog: Catalog,
    k: int,
    score: G,
    anchors: Seq<usize>,
) -> bool {
    exists|raw: Seq<Score>|
        {
            &&& raw.len() == catalog.tracks@.len()
            &&& forall|j: int|
                0 <= j < raw.len() ==> score.ensures((j as usize,), #[trigger] raw[j])
            &&& #[trigger] are_best(raw, is_in_view(catalog), k, anchors)
        }
}

/// The rows a described sound stands for are the best matches among all the
/// tracks that show, by the scores given for each; none where there is nothing to
/// hold the description against.
pub proof fn a_description_stands_for_its_best_matches<G: Fn(usize) -> Score>(
    catalog: Catalog,
    clap: Seq<u32>,
    k: int,
    score: G,
    anchors: Seq<usize>,
)
    requires
        k >= 0,
        catalog.tracks@.len() <= usize::MAX,
        anchored(catalog, clap, k, score, anchors),
    ensures
        catalog.clap is None || catalog.clap_dims == 0 || clap.len() != catalog.clap_dims
            ==> anchors.len() == 0,
        catalog.clap is Some && catalog.clap_dims != 0 && clap.len() == catalog.clap_dims
            ==> stand_for(catalog, k, score, anchors),
{
    if catalog.clap is Some && catalog.clap_dims != 0 && clap.len() == catalog.clap_dims {
        let raw = choose|raw: Seq<Score>| #[trigger]
            matched(catalog, score, raw) && {
                let scores = masked(raw, |j: int| catalog.blocks(j));
                leads_the_fit(scores, in_sight(catalog), k as nat, anchors)
            };
        let scores = masked(raw, |j: int| catalog.blocks(j));
        let open = is_in_view(catalog);
        lemma_leading_are_best(scores, in_sight(catalog), open, k as nat, anchors);
        assert forall|r: int, q: int| 0 <= r < q < anchors.len() implies anchors[r] != anchors[q]
            && nearer(raw, #[trigger] anchors[r] as int, #[trigger] anchors[q] as int) by {
            assert(open(anchors[r] as int) && open(anchors[q] as int));
            assert(nearer(scores, anchors[r] as int, anchors[q] as int));
        }
        assert forall|j: int|
            0 <= j < raw.len() && #[trigger] open(j) && !anchors.contains(
                j as usize,
            ) implies anchors.len() == k && forall|r: int|
            0 <= r < anchors.len() ==> nearer(raw, #[trigger] anchors[r] as int, j) by {
            assert forall|r: int| 0 <= r < anchors.len() implies nearer(
                raw,
                #[trigger] anchors[r] as int,
                j,
            ) by {
                assert(open(anchors[r] as int));
                assert(nearer(scores, anchors[r] as int, j));
            }
        }
        assert(are_best(raw, open, k, anchors));
    }
}

/// A drift goes from a track towards the tracks a description stands for: the
/// track first, then at each step the best match for that step's waypoint.
/// Nothing where the track is hidden or unknown, or nothing can be described.
pub proof fn a_drift_goes_towards_the_description<
    G: Fn(usize) -> Score,
    F: Fn(usize, Vec<usize>, usize) -> Vec<Score>,
>(
    nav: Navigator,
    from: i64,
    clap: Seq<u32>,
    steps: usize,
    k: usize,
    c: Constraints,
    score: G,
    at: F,
    walk: Seq<Step>,
) -> (found: (Seq<usize>, Seq<usize>))
    requires
        nav.wf(),
        nav.catalog.tracks@.len() <= usize::MAX,
        forall|from: usize, to: Vec<usize>, step: usize, out: Vec<Score>| #[trigger]
            at.ensures((from, to, step), out) ==> out@.len() == nav.catalog.tracks@.len(),
        nav.shows_drift(from, clap, steps, k, c, score, at, walk),
    ensures
        walk.len() == 0 <==> !can_be_played(nav, from) || k == 0 || nav.catalog.clap is None
            || nav.catalog.clap_dims == 0 || clap.len() != nav.catalog.clap_dims,
        walk.len() > 0 ==> {
            &&& stand_for(nav.catalog, k as int, score, found.0)
            &&& found.1.len() == walk.len()
            &&& found.1[0] == nav.index_of@[from]
            &&& steers_all_the_way(nav.catalog, c, None, steps as int, at, found.0, found.1)
            &&& forall|p: int|
                0 <= p < walk.len() ==> (#[trigger] walk[p]).track
                    == nav.catalog.tracks@[found.1[p] as int] && walk[p].similarity is None
        },
{
    if can_be_played(nav, from) && k > 0 && crate::paths::hears(nav.catalog, clap) {
        let start = nav.index_of@[from];
        assert(nav.open_row(from) == Some(start));
        let (anchors, rows) = choose|anchors: Seq<usize>, rows: Seq<usize>|
            {
                &&& #[trigger] anchored(nav.catalog, clap, k as int, score, anchors)
                &&& #[trigger] snap_walked(
                    nav.catalog,
                    c,
                    None,
                    steps as int,
                    at,
                    anchors,
                    rows,
                )
                &&& rows[0] == start
                &&& rows.no_duplicates()
                &&& show_rows(nav.catalog, walk, rows)
            };
        lemma_walk_steers(nav.catalog, c, None, steps as int, at, anchors, rows);
        a_description_stands_for_its_best_matches(nav.catalog, clap, k as int, score, anchors);
        assert forall|p: int| 0 <= p < walk.len() implies (#[trigger] walk[p]).track
            == nav.catalog.tracks@[rows[p] as int] && walk[p].similarity is None by {
            assert(shows(nav.catalog, walk[p], rows[p], None));
        }
        (anchors, rows)
    } else {
        (Seq::empty(), Seq::empty())
    }
}

// --------------------------------------------------------------------- paths

/// What row `i` may be joined to: another track in view that has a score.
pub open spec fn may_be_joined(catalog: Catalog, i: int, raw: Seq<Score>) -> spec_fn(int) -> bool {
    |j: int|
        {
            &&& j != i
            &&& !catalog.blocked_artists@.contains(catalog.tracks@[j].artist_id)
            &&& raw[j] is At
        }
}

/// Row `i` is joined to its `k` best matches, the best first, each at the
/// distance it was said to be.
pub open spec fn joins_the_nearest(
    catalog: Catalog,
    i: int,
    k: int,
    raw: Seq<Score>,
    distances: Seq<i32>,
    edges: Seq<(usize, i32)>,
) -> bool {
    &&& are_best(
        raw,
        may_be_joined(catalog, i, raw),
        k,
        edges.map_values(|edge: (usize, i32)| edge.0),
    )
    &&& forall|e: int|
        0 <= e < edges.len() ==> (#[trigger] edges[e]).1 == distances[edges[e].0 as int]
}

/// Where what has a score comes first, the edges are of that part, in order.
proof fn lemma_edges_lead(scores: Seq<Score>, distances: Seq<i32>, rows: Seq<usize>)
    requires
        forall|a: int, b: int|
            0 <= a < b < rows.len() && scores[#[trigger] rows[b] as int] is At
                ==> scores[#[trigger] rows[a] as int] is At,
    ensures
        ({
            let edges = edges_among(scores, distances, rows);
            &&& edges.len() <= rows.len()
            &&& forall|e: int|
                0 <= e < edges.len() ==> #[trigger] edges[e] == (rows[e], distances[rows[e] as int])
                    && scores[rows[e] as int] is At
            &&& forall|e: int|
                edges.len() <= e < rows.len() ==> scores[#[trigger] rows[e] as int] is Masked
        }),
    decreases rows.len(),
{
    if rows.len() > 0 {
        let fewer = rows.drop_last();
        lemma_edges_lead(scores, distances, fewer);
        let sooner = edges_among(scores, distances, fewer);
        let last = rows.len() - 1;
        if scores[rows[last] as int] is At {
            assert(sooner.len() == fewer.len()) by {
                if sooner.len() < fewer.len() {
                    let e = sooner.len() as int;
                    assert(scores[fewer[e] as int] is Masked);
                    assert(rows[e] == fewer[e]);
                    assert(scores[rows[e] as int] is At);
                }
            }
        }
        let edges = edges_among(scores, distances, rows);
        assert forall|e: int| edges.len() <= e < rows.len() implies scores[#[trigger] rows[e] as int] is Masked by {
            if e < last {
                assert(rows[e] == fewer[e]);
            }
        }
        assert forall|e: int| 0 <= e < edges.len() implies #[trigger] edges[e] == (
            rows[e],
            distances[rows[e] as int],
        ) && scores[rows[e] as int] is At by {
            if e < sooner.len() {
                assert(edges[e] == sooner[e]);
                assert(rows[e] == fewer[e]);
            }
        }
    }
}

/// A row is joined to exactly its best matches, each once and each at the
/// distance that was given for it. One that could be joined to is left out only
/// because `k` others match better.
pub proof fn a_row_is_joined_to_its_nearest(
    catalog: Catalog,
    i: int,
    k: int,
    raw: Seq<Score>,
    distances: Seq<i32>,
    edges: Seq<(usize, i32)>,
)
    requires
        k >= 0,
        raw.len() == catalog.tracks@.len() <= usize::MAX,
        distances.len() == raw.len(),
        edges == edges_of(catalog, i, k, raw, distances),
    ensures
        joins_the_nearest(catalog, i, k, raw, distances, edges),
{
    let scores = masked(raw, |j: int| no_neighbour(catalog, i, false, j));
    let open = may_be_joined(catalog, i, raw);
    let order = ranking(scores);
    let rows = edges.map_values(|edge: (usize, i32)| edge.0);
    lemma_an_order_exists(scores);
    let cut = if k <= scores.len() {
        k
    } else {
        scores.len() as int
    };
    let top = order.take(cut);
    assert forall|a: int, x: int|
        0 <= a < top.len() && 0 <= x < scores.len() && !top.contains(x as usize) implies #[trigger] before(
        scores,
        top[a] as int,
        x,
    ) by {
        assert(order.contains(x as usize));
        let q = choose|q: int| 0 <= q < order.len() && order[q] == x as usize;
        if q < top.len() {
            assert(top[q] == x as usize);
        }
        assert(before(scores, order[a] as int, order[q] as int));
    }
    assert(is_top(scores, k as nat, top));
    assert forall|a: int, b: int|
        0 <= a < b < top.len() && scores[#[trigger] top[b] as int] is At implies scores[#[trigger] top[a] as int] is At by {
        assert(before(scores, top[a] as int, top[b] as int));
    }
    lemma_edges_lead(scores, distances, top);
    assert forall|r: int| 0 <= r < rows.len() implies (#[trigger] rows[r]) < raw.len() && open(
        rows[r] as int,
    ) && rows[r] == top[r] by {
        assert(edges[r] == (top[r], distances[top[r] as int]));
        assert(top[r] < scores.len());
    }
    assert forall|r: int, q: int| 0 <= r < q < rows.len() implies rows[r] != rows[q] && nearer(
        raw,
        #[trigger] rows[r] as int,
        #[trigger] rows[q] as int,
    ) by {
        assert(rows[r] == top[r] && rows[q] == top[q]);
        assert(before(scores, top[r] as int, top[q] as int));
        lemma_before_is_nearer(scores, rows[r] as int, rows[q] as int);
    }
    assert forall|j: int|
        0 <= j < raw.len() && #[trigger] open(j) && !rows.contains(j as usize) implies rows.len()
        == k && forall|r: int|
        0 <= r < rows.len() ==> nearer(raw, #[trigger] rows[r] as int, j) by {
        assert(scores[j] == raw[j]);
        assert(!top.contains(j as usize)) by {
            if top.contains(j as usize) {
                let e = choose|e: int| 0 <= e < top.len() && top[e] == j as usize;
                assert(scores[top[e] as int] is At);
                assert(rows[e] == j as usize);
            }
        }
        lemma_left_out_means_full(scores, k as nat, top, j);
        assert(rows.len() == top.len()) by {
            if rows.len() < top.len() {
                let e = rows.len() as int;
                assert(scores[top[e] as int] is Masked);
                assert(before(scores, top[e] as int, j));
            }
        }
        assert forall|r: int| 0 <= r < rows.len() implies nearer(
            raw,
            #[trigger] rows[r] as int,
            j,
        ) by {
            assert(rows[r] == top[r]);
            assert(before(scores, top[r] as int, j));
            assert(rows[r] as int != j) by {
                assert(rows.contains(rows[r]));
            }
            lemma_before_is_nearer(scores, rows[r] as int, j);
        }
    }
    assert forall|e: int| 0 <= e < edges.len() implies (#[trigger] edges[e]).1
        == distances[edges[e].0 as int] by {
        assert(edges[e] == (top[e], distances[top[e] as int]));
    }
}

/// From the `p`th node one of its edges leads to the next, and getting there
/// comes to the distance more, and a twentieth on top of that where it stays with
/// the same artist.
pub open spec fn hops(
    graph: Seq<Vec<(usize, i32)>>,
    artists: Seq<i64>,
    nodes: Seq<usize>,
    taken: Seq<int>,
    paid: Seq<int>,
    p: int,
) -> bool {
    &&& nodes[p] < graph.len()
    &&& 0 <= taken[p] < graph[nodes[p] as int]@.len()
    &&& graph[nodes[p] as int]@[taken[p]].0 == nodes[p + 1]
    &&& paid[p + 1] == paid[p] + graph[nodes[p] as int]@[taken[p]].1 + (if artists[nodes[p] as int]
        == artists[nodes[p + 1] as int] {
        (crate::paths::UNIT + 10) / 20
    } else {
        0
    })
}

/// `nodes` are joined one to the next, by the edges that `taken` picks out, and
/// `paid` is what getting to each of them comes to.
pub open spec fn comes_to(
    graph: Seq<Vec<(usize, i32)>>,
    artists: Seq<i64>,
    nodes: Seq<usize>,
    taken: Seq<int>,
    paid: Seq<int>,
) -> bool {
    &&& nodes.len() > 0
    &&& paid.len() == nodes.len()
    &&& taken.len() == nodes.len() - 1
    &&& paid[0] == 0
    &&& forall|p: int|
        0 <= p < taken.len() ==> #[trigger] hops(graph, artists, nodes, taken, paid, p)
}

/// The goal can be got to from the start.
pub open spec fn is_reachable(
    graph: Seq<Vec<(usize, i32)>>,
    artists: Seq<i64>,
    start: usize,
    goal: usize,
) -> bool {
    exists|nodes: Seq<usize>, taken: Seq<int>, paid: Seq<int>|
        {
            &&& #[trigger] comes_to(graph, artists, nodes, taken, paid)
            &&& nodes[0] == start
            &&& nodes.last() == goal
        }
}

/// Nothing that leads from the start to the goal comes to less.
pub open spec fn is_cheapest(
    graph: Seq<Vec<(usize, i32)>>,
    artists: Seq<i64>,
    start: usize,
    goal: usize,
    cost: int,
) -> bool {
    forall|nodes: Seq<usize>, taken: Seq<int>, paid: Seq<int>| #[trigger]
        comes_to(graph, artists, nodes, taken, paid) && nodes[0] == start && nodes.last() == goal
            ==> cost <= paid.last()
}

/// No distance is below nothing.
pub open spec fn is_measured(graph: Seq<Vec<(usize, i32)>>) -> bool {
    forall|u: int, e: int|
        #![trigger graph[u]@[e]]
        0 <= u < graph.len() && 0 <= e < graph[u]@.len() ==> graph[u]@[e].1 >= 0
}

proof fn lemma_walk_comes_to(
    graph: Seq<Vec<(usize, i32)>>,
    artists: Seq<i64>,
    nodes: Seq<usize>,
    cost: int,
) -> (found: (Seq<int>, Seq<int>))
    requires
        walks(graph, artists, nodes, cost),
    ensures
        comes_to(graph, artists, nodes, found.0, found.1),
        found.1.last() == cost,
    decreases nodes.len(),
{
    if nodes.len() <= 1 {
        (Seq::empty(), seq![0int])
    } else {
        let u = nodes[nodes.len() - 2] as int;
        let e = choose|e: int| #[trigger]
            leads(graph, u, e, nodes.last()) && walks(
                graph,
                artists,
                nodes.drop_last(),
                cost - hop(graph, artists, u, e),
            );
        let less = nodes.drop_last();
        let (taken, paid) = lemma_walk_comes_to(
            graph,
            artists,
            less,
            cost - hop(graph, artists, u, e),
        );
        let more_taken = taken.push(e);
        let more_paid = paid.push(cost);
        assert forall|p: int| 0 <= p < more_taken.len() implies #[trigger] hops(
            graph,
            artists,
            nodes,
            more_taken,
            more_paid,
            p,
        ) by {
            if p < taken.len() {
                assert(hops(graph, artists, less, taken, paid, p));
            }
            if p < taken.len() {
                assert(more_taken[p] == taken[p]);
                assert(less[p] == nodes[p] && less[p + 1] == nodes[p + 1]);
            }
        }
        (more_taken, more_paid)
    }
}

pub(crate) proof fn lemma_what_comes_to_walks(
    graph: Seq<Vec<(usize, i32)>>,
    artists: Seq<i64>,
    nodes: Seq<usize>,
    taken: Seq<int>,
    paid: Seq<int>,
)
    requires
        comes_to(graph, artists, nodes, taken, paid),
    ensures
        walks(graph, artists, nodes, paid.last()),
    decreases nodes.len(),
{
    if nodes.len() > 1 {
        let n = nodes.len() - 1;
        let less = nodes.drop_last();
        let less_taken = taken.drop_last();
        let less_paid = paid.drop_last();
        assert forall|p: int| 0 <= p < less_taken.len() implies #[trigger] hops(
            graph,
            artists,
            less,
            less_taken,
            less_paid,
            p,
        ) by {
            assert(hops(graph, artists, nodes, taken, paid, p));
            assert(less_taken[p] == taken[p]);
        }
        lemma_what_comes_to_walks(graph, artists, less, less_taken, less_paid);
        let e = taken[n - 1];
        let u = nodes[n - 1] as int;
        assert(hops(graph, artists, nodes, taken, paid, n - 1));
        assert(leads(graph, u, e, nodes.last()));
        assert(paid[n] == paid[n - 1] + hop(graph, artists, u, e));
        assert(less_paid.last() == paid.last() - hop(graph, artists, u, e));
        assert(u == nodes[nodes.len() - 2] as int);
        assert(walks(graph, artists, nodes.drop_last(), paid.last() - hop(graph, artists, u, e)));
    }
}

/// A route goes from the start to the goal along edges of the graph and, where no
/// distance is below nothing, nothing that does so comes to less.
pub proof fn a_route_comes_to_the_least(
    graph: Seq<Vec<(usize, i32)>>,
    artists: Seq<i64>,
    nodes: Seq<usize>,
    start: usize,
    goal: usize,
) -> (found: (Seq<int>, Seq<int>))
    requires
        is_route(graph, artists, nodes, start, goal),
    ensures
        comes_to(graph, artists, nodes, found.0, found.1),
        nodes[0] == start,
        nodes.last() == goal,
        is_measured(graph) ==> is_cheapest(graph, artists, start, goal, found.1.last()),
{
    let (settled, costs) = choose|settled: Seq<usize>, costs: Seq<int>| #[trigger]
        is_way(graph, artists, nodes, start, goal, settled, costs);
    let cost = costs.last();
    let (taken, paid) = lemma_walk_comes_to(graph, artists, nodes, cost);
    if is_measured(graph) {
        assert(no_hop_pays(graph, artists)) by {
            assert forall|u: int, e: int|
                0 <= u < graph.len() && 0 <= e < graph[u]@.len() implies #[trigger] hop(
                graph,
                artists,
                u,
                e,
            ) >= 0 by {
                assert(graph[u]@[e].1 >= 0);
            }
        }
        assert forall|others: Seq<usize>, t: Seq<int>, p: Seq<int>| #[trigger]
            comes_to(graph, artists, others, t, p) && others[0] == start && others.last()
                == goal implies cost <= p.last() by {
            lemma_what_comes_to_walks(graph, artists, others, t, p);
            lemma_nothing_is_paid(graph, artists, others, p.last());
            assert(walks_unpaid(graph, artists, others, p.last()));
        }
    }
    (taken, paid)
}

/// The shortest path between two tracks goes along the neighbour graph from the
/// one to the other and comes to the least of all that do; there is none only
/// where the graph does not lead there. Nothing where either is hidden or unknown.
/// In a graph that was not there before, every row is joined to its best matches
/// at the distances given for it; one that was there for as many neighbours is
/// used as it is.
pub proof fn a_shortest_path_comes_to_the_least<F: Fn(usize) -> (Vec<Score>, Vec<i32>)>(
    nav: Navigator,
    after: Navigator,
    from: i64,
    to: i64,
    k: usize,
    near: F,
    path: Seq<Step>,
    artists: Seq<i64>,
) -> (found: (Seq<usize>, Seq<int>, Seq<int>))
    requires
        nav.wf(),
        artists.len() == nav.catalog.tracks@.len(),
        forall|j: int|
            0 <= j < artists.len() ==> #[trigger] artists[j] == nav.catalog.tracks@[j].artist_id,
        nav.catalog.tracks@.len() <= usize::MAX,
        forall|row: usize, out: (Vec<Score>, Vec<i32>)| #[trigger]
            near.ensures((row,), out) ==> out.0@.len() == nav.catalog.tracks@.len()
                && out.1@.len() == nav.catalog.tracks@.len(),
        nav.shows_route(after, from, to, k, near, path),
    ensures
        !can_be_played(nav, from) || !can_be_played(nav, to) ==> path.len() == 0,
        can_be_played(nav, from) && can_be_played(nav, to) ==> after.knn is Some && {
            let graph = (after.knn->0).1@;
            let start = nav.index_of@[from];
            let goal = nav.index_of@[to];
            &&& graph.len() == nav.catalog.tracks@.len()
            &&& if nav.knn is Some && (nav.knn->0).0 == k {
                graph == (nav.knn->0).1@
            } else {
                forall|i: int|
                    0 <= i < graph.len() ==> is_joined_by(
                        nav.catalog,
                        k as int,
                        near,
                        i,
                        (#[trigger] graph[i])@,
                    )
            }
            &&& path.len() > 0 <==> is_reachable(graph, artists, start, goal)
            &&& path.len() > 0 ==> {
                &&& comes_to(graph, artists, found.0, found.1, found.2)
                &&& found.0[0] == start
                &&& found.0.last() == goal
                &&& is_measured(graph) ==> is_cheapest(
                    graph,
                    artists,
                    start,
                    goal,
                    found.2.last(),
                )
                &&& path.len() == found.0.len()
                &&& forall|p: int|
                    0 <= p < path.len() ==> (#[trigger] path[p]).track
                        == nav.catalog.tracks@[found.0[p] as int] && path[p].similarity is None
            }
        },
{
    if can_be_played(nav, from) && can_be_played(nav, to) {
        let start = nav.index_of@[from];
        let goal = nav.index_of@[to];
        assert(nav.open_row(from) == Some(start) && nav.open_row(to) == Some(goal));
        let graph = (after.knn->0).1@;
        assert(artists =~= artists_of(nav.catalog));
        if !(nav.knn is Some && (nav.knn->0).0 == k) {
            assert forall|i: int| 0 <= i < graph.len() implies is_joined_by(
                nav.catalog,
                k as int,
                near,
                i,
                (#[trigger] graph[i])@,
            ) by {
                assert(edges_asked(nav.catalog, k as int, near, i, graph[i]@));
                let out = choose|out: (Vec<Score>, Vec<i32>)| #[trigger]
                    near.ensures((i as usize,), out) && graph[i]@ == edges_of(
                        nav.catalog,
                        i,
                        k as int,
                        out.0@,
                        out.1@,
                    );
                a_row_is_joined_to_its_nearest(
                    nav.catalog,
                    i,
                    k as int,
                    out.0@,
                    out.1@,
                    graph[i]@,
                );
            }
        }
        if path.len() > 0 {
            let rows = choose|rows: Seq<usize>|
                {
                    &&& #[trigger] is_route(graph, artists, rows, start, goal)
                    &&& show_rows(nav.catalog, path, rows)
                };
            let (t, p) = a_route_comes_to_the_least(graph, artists, rows, start, goal);
            assert(comes_to(graph, artists, rows, t, p));
            assert(is_reachable(graph, artists, start, goal));
            assert forall|q: int| 0 <= q < path.len() implies (#[trigger] path[q]).track
                == nav.catalog.tracks@[rows[q] as int] && path[q].similarity is None by {
                assert(shows(nav.catalog, path[q], rows[q], None));
            }
            (rows, t, p)
        } else {
            if is_reachable(graph, artists, start, goal) {
                let (nodes, taken, paid) = choose|nodes: Seq<usize>, taken: Seq<int>, paid: Seq<int>|
                    {
                        &&& #[trigger] comes_to(graph, artists, nodes, taken, paid)
                        &&& nodes[0] == start
                        &&& nodes.last() == goal
                    };
                lemma_what_comes_to_walks(graph, artists, nodes, taken, paid);
                assert(connects(graph, artists, nodes, start, goal, paid.last()));
                assert(after.knn matches Some((_, g)) && g@ == graph);
                assert(match (nav.open_row(from), nav.open_row(to)) {
                    (Some(s), Some(g)) => s == start && g == goal,
                    _ => false,
                });
                assert(exists|nodes: Seq<usize>, cost: int| #[trigger]
                    connects(graph, artists_of(nav.catalog), nodes, start, goal, cost));
            }
            (Seq::empty(), Seq::empty(), Seq::empty())
        }
    } else {
        assert(nav.open_row(from) is None || nav.open_row(to) is None);
        (Seq::empty(), Seq::empty(), Seq::empty())
    }
}

/// Asked about row `i`, `near` gave the scores and distances that it is joined to
/// its best matches by.
pub open spec fn is_joined_by<F: Fn(usize) -> (Vec<Score>, Vec<i32>)>(
    catalog: Catalog,
    k: int,
    near: F,
    i: int,
    edges: Seq<(usize, i32)>,
) -> bool {
    exists|out: (Vec<Score>, Vec<i32>)| #[trigger]
        near.ensures((i as usize,), out) && joins_the_nearest(catalog, i, k, out.0@, out.1@, edges)
}

// --------------------------------------------------------------------- order

/// The ids whose tracks the space holds, in the order they came.
pub open spec fn known(index_of: Map<i64, usize>, ids: Seq<i64>) -> Seq<i64>
    decreases ids.len(),
{
    if ids.len() == 0 {
        Seq::empty()
    } else if index_of.contains_key(ids[0]) {
        seq![ids[0]] + known(index_of, ids.skip(1))
    } else {
        known(index_of, ids.skip(1))
    }
}

/// Whether there is a track to measure from, as a number of points.
pub open spec fn points_before(index_of: Map<i64, usize>, from: Option<i64>) -> int {
    if from is Some && index_of.contains_key(from->0) {
        1
    } else {
        0
    }
}

/// The row of the `a`th point: the track to measure from comes first, where there
/// is one, and after it the tracks to order.
pub open spec fn row_of_point(
    index_of: Map<i64, usize>,
    from: Option<i64>,
    held: Seq<i64>,
    a: int,
) -> usize {
    if a < points_before(index_of, from) {
        index_of[from->0]
    } else {
        index_of[held[a - points_before(index_of, from)]]
    }
}

/// `m` holds the distances given between the rows of the points.
pub open spec fn is_measured_by<F: Fn(usize, usize) -> i32>(
    index_of: Map<i64, usize>,
    from: Option<i64>,
    held: Seq<i64>,
    distance: F,
    m: Seq<Vec<i32>>,
) -> bool {
    &&& m.len() == held.len() + points_before(index_of, from)
    &&& forall|a: int, b: int|
        #![trigger m[a]@[b]]
        0 <= a < b < m.len() ==> {
            &&& distance.ensures(
                (
                    row_of_point(index_of, from, held, a),
                    row_of_point(index_of, from, held, b),
                ),
                m[a]@[b],
            )
            &&& m[b]@[a] == m[a]@[b]
        }
}

proof fn lemma_filter_splits(index_of: Map<i64, usize>, a: Seq<i64>, b: Seq<i64>)
    ensures
        placeable_ids(index_of, a + b) == placeable_ids(index_of, a) + placeable_ids(index_of, b),
    decreases b.len(),
{
    reveal(Seq::filter);
    let all = a + b;
    if b.len() == 0 {
        assert(all =~= a);
        assert(placeable_ids(index_of, a) + placeable_ids(index_of, b) =~= placeable_ids(index_of, a));
    } else {
        assert(all.drop_last() =~= a + b.drop_last());
        assert(all.last() == b.last());
        lemma_filter_splits(index_of, a, b.drop_last());
        assert(placeable_ids(index_of, all) =~= placeable_ids(index_of, a) + placeable_ids(
            index_of,
            b,
        ));
    }
}

proof fn lemma_known_are_placeable(index_of: Map<i64, usize>, ids: Seq<i64>)
    ensures
        known(index_of, ids) == placeable_ids(index_of, ids),
    decreases ids.len(),
{
    reveal(Seq::filter);
    if ids.len() > 0 {
        let rest = ids.skip(1);
        let first = seq![ids[0]];
        lemma_known_are_placeable(index_of, rest);
        assert(first + rest =~= ids);
        lemma_filter_splits(index_of, first, rest);
        assert(first.drop_last() =~= Seq::<i64>::empty());
        assert(placeable_ids(index_of, first.drop_last()) =~= Seq::<i64>::empty());
        if index_of.contains_key(ids[0]) {
            assert(placeable_ids(index_of, first) =~= first);
        } else {
            assert(placeable_ids(index_of, first) =~= Seq::<i64>::empty());
            assert(Seq::<i64>::empty() + known(index_of, rest) =~= known(index_of, rest));
        }
    }
}

/// An ordered queue holds the tracks of it that the space does, each as often as
/// before. Fewer than three of them, or more than are worth the effort, stay as
/// they are. Otherwise they come in the order of a walk that starts from the track
/// to measure from, where the space holds it, and else from the first of them: the
/// walk that always goes to the nearest, worked over until turning a stretch of it
/// around makes it no shorter or the rounds are up.
pub proof fn a_queue_is_put_in_order<F: Fn(usize, usize) -> i32>(
    nav: Navigator,
    ids: Seq<i64>,
    from: Option<i64>,
    distance: F,
    ordered: Seq<i64>,
) -> (found: (Seq<Vec<i32>>, Seq<usize>, Seq<usize>))
    requires
        ids.len() <= usize::MAX,
        ({
            let places = placeable(nav.index_of@, ids);
            if places.len() < 3 || places.len() > SORT_CAP {
                ordered == placeable_ids(nav.index_of@, ids)
            } else {
                tour_ordered(ids, places, anchor_row(nav.index_of@, from), distance, ordered)
            }
        }),
    ensures
        ({
            let held = known(nav.index_of@, ids);
            let before_it = points_before(nav.index_of@, from);
            let (m, g, t) = found;
            &&& ordered.len() == held.len()
            &&& ordered.to_multiset() == held.to_multiset()
            &&& held.len() < 3 || held.len() > 1024 ==> ordered == held
            &&& 3 <= held.len() <= 1024 ==> {
                &&& is_measured_by(nav.index_of@, from, held, distance, m)
                &&& worked_over(m, g, t)
                &&& comes_in_rounds(m, g, t)
                &&& forall|i: int|
                    0 <= i < ordered.len() ==> #[trigger] ordered[i] == held[t[i + before_it]
                        - before_it]
            }
        }),
{
    let index_of = nav.index_of@;
    let held = known(index_of, ids);
    let places = placeable(index_of, ids);
    let base = ids_at(ids, places);
    lemma_known_are_placeable(index_of, ids);
    lemma_places(index_of, ids);
    assert(base == held);
    if 3 <= held.len() <= 1024 {
        let anchor = anchor_row(index_of, from);
        let m = choose|m: Seq<Vec<i32>>| #[trigger]
            measured(measured_rows(anchor, places), distance, m) && ordered == in_tour_order(
                ids,
                places,
                anchor is Some,
                refined(m, greedy(m), ROUNDS as nat),
            );
        let rows = measured_rows(anchor, places);
        let t = refined(m, greedy(m), ROUNDS as nat);
        let off = points_before(index_of, from);
        assert forall|a: int| 0 <= a < rows.len() implies #[trigger] rows[a] == row_of_point(
            index_of,
            from,
            held,
            a,
        ) by {
            if a >= off {
                assert(rows[a] == places[a - off].1);
                assert(base[a - off] == ids[places[a - off].0 as int]);
            }
        }
        assert forall|a: int, b: int| 0 <= a < m.len() && 0 <= b < m.len() implies #[trigger] m[a]@[b]
            == m[b]@[a] by {
            assert(dist(m, a as usize, b as usize) == dist(m, b as usize, a as usize));
        }
        let g = a_tour_is_worked_over(m, t);
        assert forall|a: int, b: int| #![trigger m[a]@[b]] 0 <= a < b < m.len() implies {
            &&& distance.ensures(
                (row_of_point(index_of, from, held, a), row_of_point(index_of, from, held, b)),
                m[a]@[b],
            )
            &&& m[b]@[a] == m[a]@[b]
        } by {
            assert(rows[a] == row_of_point(index_of, from, held, a));
            assert(rows[b] == row_of_point(index_of, from, held, b));
            assert(distance.ensures((rows[a], rows[b]), m[a]@[b]));
        }
        assert forall|i: int| 0 <= i < ordered.len() implies #[trigger] ordered[i] == held[t[i + off]
            - off] by {
            let at = t[i + off] - off;
            assert(t[i + off] < m.len());
            if off == 1 {
                assert(t[0] != t[i + 1]);
            }
            assert(base[at] == ids[places[at].0 as int]);
        }
        refining_keeps_every_point(m, ROUNDS as nat);
        lemma_tour_order_rearranges(ids, places, anchor is Some, t);
        (m, g, t)
    } else {
        (Seq::empty(), Seq::empty(), Seq::empty())
    }
}

} // verus!
