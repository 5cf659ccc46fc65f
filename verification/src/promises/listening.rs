//! What the queue and the generated lists have to live up to.

use crate::db::TrackMeta;
use crate::json::seen;
use crate::paths::{Constraints, Step};
use crate::qobuz::{cover_of, identity_key, identity_of, RemoteTrack};
use crate::strings::{ascii_upper_of, trim_of};
use crate::ui::generate::{
    first_with_id, has_step, ids_of, presents, step_key, without_repeats, Generator, Mode, PathEnd,
    Recipe, Walk,
};
use crate::ui::player::{fresh, holds, moved, place_after_move, stepped, Action, Bar, Player};
use vstd::prelude::*;

verus! {

// -------------------------------------------------------------- the same music

/// The field names a recording: there is something in it besides spaces.
pub open spec fn is_tagged(isrc: Option<String>) -> bool {
    isrc is Some && trim_of(isrc->0@).len() > 0
}

/// Two entries are the same music: they name the same recording, whatever its
/// case, or neither names any and they are the same entry.
pub open spec fn are_one_music(a: i64, a_isrc: Option<String>, b: i64, b_isrc: Option<String>) -> bool {
    if is_tagged(a_isrc) && is_tagged(b_isrc) {
        ascii_upper_of(trim_of(a_isrc->0@)) == ascii_upper_of(trim_of(b_isrc->0@))
    } else {
        !is_tagged(a_isrc) && !is_tagged(b_isrc) && a == b
    }
}

/// Entries have the same identity exactly when they are the same music.
pub proof fn an_identity_is_one_music(a: i64, a_isrc: Option<String>, b: i64, b_isrc: Option<String>)
    ensures
        identity_of(a, seen(a_isrc)) == identity_of(b, seen(b_isrc)) <==> are_one_music(
            a,
            a_isrc,
            b,
            b_isrc,
        ),
{
}

/// Two steps of a walk are the same music.
pub open spec fn steps_are_one(a: Step, b: Step) -> bool {
    are_one_music(a.track.track_id, a.track.isrc, b.track.track_id, b.track.isrc)
}

/// Two tracks are the same music.
pub open spec fn tracks_are_one(a: RemoteTrack, b: RemoteTrack) -> bool {
    are_one_music(a.id, a.isrc, b.id, b.isrc)
}

/// No step before the `i`th is the same music.
pub open spec fn comes_first(steps: Seq<Step>, i: int) -> bool {
    forall|sooner: int| 0 <= sooner < i ==> !steps_are_one(#[trigger] steps[sooner], steps[i])
}

/// Neither what is held nor any track before the `i`th is the same music.
pub open spec fn is_new(tracks: Seq<RemoteTrack>, held: Seq<RemoteTrack>, i: int) -> bool {
    &&& forall|h: int| 0 <= h < held.len() ==> !tracks_are_one(#[trigger] held[h], tracks[i])
    &&& forall|sooner: int|
        0 <= sooner < i ==> !tracks_are_one(#[trigger] tracks[sooner], tracks[i])
}

/// Of every music in a walk the first step stays, in its order, and nothing else
/// does. `came` says where each of them stood.
pub proof fn of_every_music_the_first_step_stays(steps: Seq<Step>) -> (came: Seq<int>)
    ensures
        came.len() == without_repeats(steps).len(),
        forall|r: int|
            0 <= r < came.len() ==> 0 <= #[trigger] came[r] < steps.len()
                && without_repeats(steps)[r] == steps[came[r]],
        forall|r: int, q: int|
            0 <= r < q < came.len() ==> #[trigger] came[r] < #[trigger] came[q],
        forall|i: int|
            0 <= i < steps.len() ==> (#[trigger] came.contains(i) <==> comes_first(steps, i)),
    decreases steps.len(),
{
    if steps.len() == 0 {
        Seq::empty()
    } else {
        let fewer = steps.drop_last();
        let last = steps.len() - 1;
        let sooner = of_every_music_the_first_step_stays(fewer);
        let kept = without_repeats(fewer);
        let there = has_step(kept, step_key(steps.last()));
        let came = if there {
            sooner
        } else {
            sooner.push(last)
        };
        crate::ui::generate::each_recording_is_kept_once(fewer);
        assert forall|r: int| 0 <= r < came.len() implies 0 <= #[trigger] came[r] < steps.len()
            && without_repeats(steps)[r] == steps[came[r]] by {
            if r < sooner.len() {
                assert(came[r] == sooner[r]);
                assert(fewer[sooner[r]] == steps[sooner[r]]);
            }
        }
        assert forall|i: int| 0 <= i < steps.len() implies (#[trigger] came.contains(i)
            <==> comes_first(steps, i)) by {
            if i < last {
                assert(fewer[i] == steps[i]);
                assert(came.contains(i) <==> sooner.contains(i)) by {
                    if sooner.contains(i) {
                        let k = choose|k: int| 0 <= k < sooner.len() && sooner[k] == i;
                        assert(came[k] == i);
                    }
                    if came.contains(i) {
                        let k = choose|k: int| 0 <= k < came.len() && came[k] == i;
                        assert(k < sooner.len());
                        assert(sooner[k] == i);
                    }
                }
                assert forall|s: int| 0 <= s < i implies #[trigger] steps[s] == fewer[s] by {}
                if comes_first(fewer, i) {
                    assert forall|s: int| 0 <= s < i implies !steps_are_one(
                        #[trigger] steps[s],
                        steps[i],
                    ) by {
                        assert(!steps_are_one(fewer[s], fewer[i]));
                    }
                }
                if comes_first(steps, i) {
                    assert forall|s: int| 0 <= s < i implies !steps_are_one(
                        #[trigger] fewer[s],
                        fewer[i],
                    ) by {
                        assert(steps[s] == fewer[s]);
                    }
                }
            } else {
                if there {
                    let k = choose|k: int|
                        0 <= k < kept.len() && step_key(#[trigger] kept[k]) == step_key(steps.last());
                    let s = sooner[k];
                    assert(kept[k] == fewer[s]);
                    assert(fewer[s] == steps[s]);
                    an_identity_is_one_music(
                        steps[s].track.track_id,
                        steps[s].track.isrc,
                        steps[last].track.track_id,
                        steps[last].track.isrc,
                    );
                    assert(steps_are_one(steps[s], steps[i]));
                    assert(!came.contains(i)) by {
                        if came.contains(i) {
                            let q = choose|q: int| 0 <= q < came.len() && came[q] == i;
                            assert(sooner[q] < fewer.len());
                        }
                    }
                } else {
                    assert(came[sooner.len() as int] == i);
                    assert forall|s: int| 0 <= s < i implies !steps_are_one(
                        #[trigger] steps[s],
                        steps[i],
                    ) by {
                        assert(fewer[s] == steps[s]);
                        assert(has_step(kept, step_key(fewer[s])));
                        an_identity_is_one_music(
                            steps[s].track.track_id,
                            steps[s].track.isrc,
                            steps[last].track.track_id,
                            steps[last].track.isrc,
                        );
                    }
                }
            }
        }
        came
    }
}

/// Of the tracks put to a queue those stay that it does not hold, the first of
/// each, in their order.
pub proof fn only_new_music_joins_a_queue(tracks: Seq<RemoteTrack>, held: Seq<RemoteTrack>) -> (came:
    Seq<int>)
    ensures
        came.len() == fresh(tracks, held).len(),
        forall|r: int|
            0 <= r < came.len() ==> 0 <= #[trigger] came[r] < tracks.len() && fresh(tracks, held)[r]
                == tracks[came[r]],
        forall|r: int, q: int|
            0 <= r < q < came.len() ==> #[trigger] came[r] < #[trigger] came[q],
        forall|i: int|
            0 <= i < tracks.len() ==> (#[trigger] came.contains(i) <==> is_new(tracks, held, i)),
    decreases tracks.len(),
{
    if tracks.len() == 0 {
        Seq::empty()
    } else {
        let fewer = tracks.drop_last();
        let last = tracks.len() - 1;
        let sooner = only_new_music_joins_a_queue(fewer, held);
        let kept = fresh(fewer, held);
        let key = identity_key(tracks.last());
        let there = holds(held, key) || holds(kept, key);
        let came = if there {
            sooner
        } else {
            sooner.push(last)
        };
        crate::ui::player::fresh_tracks_are_new(fewer, held);
        assert forall|r: int| 0 <= r < came.len() implies 0 <= #[trigger] came[r] < tracks.len()
            && fresh(tracks, held)[r] == tracks[came[r]] by {
            if r < sooner.len() {
                assert(came[r] == sooner[r]);
                assert(fewer[sooner[r]] == tracks[sooner[r]]);
            }
        }
        assert forall|i: int| 0 <= i < tracks.len() implies (#[trigger] came.contains(i) <==> is_new(
            tracks,
            held,
            i,
        )) by {
            if i < last {
                assert(fewer[i] == tracks[i]);
                assert(came.contains(i) <==> sooner.contains(i)) by {
                    if sooner.contains(i) {
                        let k = choose|k: int| 0 <= k < sooner.len() && sooner[k] == i;
                        assert(came[k] == i);
                    }
                    if came.contains(i) {
                        let k = choose|k: int| 0 <= k < came.len() && came[k] == i;
                        assert(k < sooner.len());
                        assert(sooner[k] == i);
                    }
                }
                assert forall|s: int| 0 <= s < i implies #[trigger] tracks[s] == fewer[s] by {}
                if is_new(fewer, held, i) {
                    assert forall|h: int| 0 <= h < held.len() implies !tracks_are_one(
                        #[trigger] held[h],
                        tracks[i],
                    ) by {
                        assert(!tracks_are_one(held[h], fewer[i]));
                    }
                    assert forall|s: int| 0 <= s < i implies !tracks_are_one(
                        #[trigger] tracks[s],
                        tracks[i],
                    ) by {
                        assert(!tracks_are_one(fewer[s], fewer[i]));
                    }
                }
                if is_new(tracks, held, i) {
                    assert forall|h: int| 0 <= h < held.len() implies !tracks_are_one(
                        #[trigger] held[h],
                        fewer[i],
                    ) by {
                        assert(!tracks_are_one(held[h], tracks[i]));
                    }
                    assert forall|s: int| 0 <= s < i implies !tracks_are_one(
                        #[trigger] fewer[s],
                        fewer[i],
                    ) by {
                        assert(tracks[s] == fewer[s]);
                    }
                }
            } else if holds(held, key) {
                let h = choose|h: int|
                    0 <= h < held.len() && identity_key(#[trigger] held[h]) == key;
                an_identity_is_one_music(
                    held[h].id,
                    held[h].isrc,
                    tracks[last].id,
                    tracks[last].isrc,
                );
                assert(tracks_are_one(held[h], tracks[i]));
                assert(!came.contains(i)) by {
                    if came.contains(i) {
                        let q = choose|q: int| 0 <= q < came.len() && came[q] == i;
                        assert(sooner[q] < fewer.len());
                    }
                }
            } else if holds(kept, key) {
                let k = choose|k: int| 0 <= k < kept.len() && identity_key(#[trigger] kept[k]) == key;
                let s = sooner[k];
                assert(kept[k] == fewer[s]);
                assert(fewer[s] == tracks[s]);
                an_identity_is_one_music(
                    tracks[s].id,
                    tracks[s].isrc,
                    tracks[last].id,
                    tracks[last].isrc,
                );
                assert(tracks_are_one(tracks[s], tracks[i]));
                assert(!came.contains(i)) by {
                    if came.contains(i) {
                        let q = choose|q: int| 0 <= q < came.len() && came[q] == i;
                        assert(sooner[q] < fewer.len());
                    }
                }
            } else {
                assert(came[sooner.len() as int] == i);
                assert forall|h: int| 0 <= h < held.len() implies !tracks_are_one(
                    #[trigger] held[h],
                    tracks[i],
                ) by {
                    assert(identity_key(held[h]) != key);
                    an_identity_is_one_music(
                        held[h].id,
                        held[h].isrc,
                        tracks[last].id,
                        tracks[last].isrc,
                    );
                }
                assert forall|s: int| 0 <= s < i implies !tracks_are_one(
                    #[trigger] tracks[s],
                    tracks[i],
                ) by {
                    assert(fewer[s] == tracks[s]);
                    assert(holds(held, identity_key(fewer[s])) || holds(
                        kept,
                        identity_key(fewer[s]),
                    ));
                    an_identity_is_one_music(
                        tracks[s].id,
                        tracks[s].isrc,
                        tracks[last].id,
                        tracks[last].isrc,
                    );
                }
            }
        }
        came
    }
}

// ------------------------------------------------------------------ the queue

/// A moved entry stands where it was put, the others keep their order around it,
/// and the place that is followed stays with its entry.
pub proof fn a_move_changes_one_place<A>(s: Seq<A>, from: int, to: int, index: int)
    requires
        0 <= from < s.len(),
        0 <= to < s.len(),
        0 <= index < s.len(),
    ensures
        moved(s, from, to).len() == s.len(),
        moved(s, from, to)[to] == s[from],
        forall|a: int|
            0 <= a < s.len() && a < from && a < to ==> #[trigger] moved(s, from, to)[a] == s[a],
        forall|a: int|
            0 <= a < s.len() && a > from && a > to ==> #[trigger] moved(s, from, to)[a] == s[a],
        forall|a: int| from <= a < to ==> #[trigger] moved(s, from, to)[a] == s[a + 1],
        forall|a: int| to < a <= from ==> #[trigger] moved(s, from, to)[a] == s[a - 1],
        moved(s, from, to)[place_after_move(index, from, to)] == s[index],
        index == from ==> place_after_move(index, from, to) == to,
{
}

/// A step goes to the entry that many places on, where there is one.
pub proof fn a_step_goes_to_an_entry(len: int, index: int, delta: int)
    requires
        0 <= index,
        len <= usize::MAX,
    ensures
        stepped(len, index, delta) matches Action::PlayAt(at) ==> at == index + delta && at < len,
        0 <= index + delta < len ==> stepped(len, index, delta) is PlayAt,
        !(0 <= index + delta < len) ==> stepped(len, index, delta) == Action::Nothing,
{
}

/// What stays as it was really does.
pub proof fn settings_are_kept(before: Player, after: Player)
    requires
        after.same_settings(before),
    ensures
        after.quality == before.quality,
        after.volume == before.volume,
        after.muted == before.muted,
        after.queue_open == before.queue_open,
        after.full_open == before.full_open,
        after.status == before.status,
{
}

/// The bar offers to go back, on or to seek only where there is somewhere to go.
pub proof fn a_bar_offers_what_can_be_done(bar: Bar, player: Player)
    requires
        bar.shows(player),
    ensures
        bar.has_current <==> player.index < player.queue@.len(),
        bar.can_go_on <==> player.index + 1 < player.queue@.len(),
        bar.can_go_back <==> player.index > 0 && player.queue@.len() > 0,
        bar.can_play <==> player.queue@.len() > 0,
        bar.can_open_queue <==> player.queue@.len() > 0,
        player.position.1 > 0 ==> bar.total == player.position.1,
        bar.can_seek <==> bar.total > 0,
{
}

// ---------------------------------------------------------- what is generated

/// The usual rules: an artist rests for three steps, an album does not follow
/// itself, and nothing else is held against a track.
pub proof fn the_usual_rules_are_few(c: Constraints)
    requires
        c.is_usual(),
    ensures
        c.artist_cooldown == 3,
        !c.allow_same_album_consecutive,
        c.max_bpm_delta is None,
        forall|id: i64| !#[trigger] c.exclude@.contains(id),
{
}

/// A run asks for what its mode is about, from what was selected or, for a path,
/// from its two ends, as many tracks as are wanted; and for nothing where one of
/// those is missing.
pub proof fn a_run_asks_for_what_is_set(generator: Generator, selected: Option<i64>)
    ensures
        generator.mode == Mode::Path ==> (generator.walk(selected) is Some <==> generator.from is Some
            && generator.to is Some),
        generator.mode != Mode::Path ==> (generator.walk(selected) is Some <==> selected is Some),
        generator.walk(selected) matches Some(walk) ==> {
            &&& walk.count == generator.count
            &&& walk.artist_penalty == generator.artist_penalty
            &&& match walk.recipe {
                Recipe::Neighbours { seed } => generator.mode == Mode::Neighbours && selected
                    == Some(seed),
                Recipe::Radio { seed } => generator.mode == Mode::Radio && selected == Some(seed),
                Recipe::Path { a, b, even } => generator.mode == Mode::Path && generator.from
                    == Some(a) && generator.to == Some(b) && even == generator.even,
                Recipe::Drift { seed, phrase } => generator.mode == Mode::Drift && selected == Some(
                    seed,
                ) && phrase == generator.phrase,
            }
        },
        generator.asked(selected).busy <==> generator.walk(selected) is Some,
        generator.asked(selected) == (Generator {
            status: None,
            busy: generator.asked(selected).busy,
            ..generator
        }),
{
}

/// Naming an end of a path sets that end and leaves the other.
pub proof fn an_end_is_set(generator: Generator, end: PathEnd, id: i64)
    ensures
        generator.with_end(end, id).mode == Mode::Path,
        end == PathEnd::A ==> generator.with_end(end, id).from == Some(id) && generator.with_end(
            end,
            id,
        ).to == generator.to,
        end == PathEnd::B ==> generator.with_end(end, id).to == Some(id) && generator.with_end(
            end,
            id,
        ).from == generator.from,
        generator.with_end(end, id) == (Generator {
            mode: Mode::Path,
            from: generator.with_end(end, id).from,
            to: generator.with_end(end, id).to,
            ..generator
        }),
{
}

/// A recipe that is put back would be made again: a run asks for it.
pub proof fn what_is_put_back_is_asked_for_again(generator: Generator, recipe: Recipe)
    ensures
        ({
            let selected = match recipe {
                Recipe::Neighbours { seed } => Some(seed),
                Recipe::Radio { seed } => Some(seed),
                Recipe::Drift { seed, .. } => Some(seed),
                Recipe::Path { .. } => None,
            };
            generator.restored(recipe).walk(selected) == Some(
                Walk { recipe, count: generator.count, artist_penalty: generator.artist_penalty },
            )
        }),
        generator.restored(recipe) == (Generator {
            mode: generator.restored(recipe).mode,
            from: generator.restored(recipe).from,
            to: generator.restored(recipe).to,
            even: generator.restored(recipe).even,
            phrase: generator.restored(recipe).phrase,
            ..generator
        }),
        !(recipe is Path) ==> generator.restored(recipe).from == generator.from
            && generator.restored(recipe).to == generator.to && generator.restored(recipe).even
            == generator.even,
        !(recipe is Drift) ==> generator.restored(recipe).phrase == generator.phrase,
{
}

/// A mode is ready when it has what it works from; a drift needs a phrase too.
pub proof fn a_mode_is_ready_with_what_it_needs(generator: Generator, selected: Option<i64>)
    ensures
        generator.is_ready(selected) ==> generator.walk(selected) is Some,
        generator.mode != Mode::Drift ==> (generator.is_ready(selected) <==> generator.walk(selected)
            is Some),
        generator.mode == Mode::Drift ==> (generator.is_ready(selected) <==> selected is Some
            && trim_of(generator.phrase@).len() > 0),
{
}

/// A track of the space is presented as itself, with what the space knows of it.
pub proof fn a_track_is_presented_as_itself(track: RemoteTrack, meta: TrackMeta)
    requires
        presents(track, meta),
    ensures
        track.id == meta.track_id,
        track.title == meta.title && track.artist == meta.artist && track.album == meta.album,
        track.isrc == meta.isrc,
        meta.artist_id >= 0 ==> track.artist_id == Some(meta.artist_id),
        meta.artist_id < 0 ==> track.artist_id is None,
        meta.album_id@.len() > 0 ==> track.album_id == Some(meta.album_id),
        meta.album_id@.len() == 0 ==> track.album_id is None,
        track.streamable && !track.hires,
        seen(track.image) == cover_of(meta.album_id@),
        track.duration is None && track.released is None && track.performers is None,
{
}

/// Looking a track up finds the first of that id.
pub proof fn the_first_track_of_an_id_is_found(tracks: Seq<TrackMeta>, id: i64)
    ensures
        first_with_id(tracks, id) is None <==> forall|i: int|
            0 <= i < tracks.len() ==> (#[trigger] tracks[i]).track_id != id,
        first_with_id(tracks, id) matches Some(found) ==> exists|i: int|
            {
                &&& 0 <= i < tracks.len()
                &&& #[trigger] tracks[i] == found
                &&& found.track_id == id
                &&& forall|sooner: int|
                    0 <= sooner < i ==> (#[trigger] tracks[sooner]).track_id != id
            },
    decreases tracks.len(),
{
    if tracks.len() > 0 && tracks[0].track_id != id {
        let rest = tracks.drop_first();
        the_first_track_of_an_id_is_found(rest, id);
        if first_with_id(rest, id) is None {
            assert forall|i: int| 0 <= i < tracks.len() implies (#[trigger] tracks[i]).track_id
                != id by {
                if i > 0 {
                    assert(rest[i - 1] == tracks[i]);
                }
            }
        } else {
            let found = first_with_id(rest, id)->0;
            let i = choose|i: int|
                {
                    &&& 0 <= i < rest.len()
                    &&& #[trigger] rest[i] == found
                    &&& found.track_id == id
                    &&& forall|sooner: int|
                        0 <= sooner < i ==> (#[trigger] rest[sooner]).track_id != id
                };
            assert(tracks[i + 1] == found);
            assert forall|sooner: int| 0 <= sooner < i + 1 implies (
            #[trigger] tracks[sooner]).track_id != id by {
                if sooner > 0 {
                    assert(rest[sooner - 1] == tracks[sooner]);
                }
            }
        }
    } else if tracks.len() > 0 {
        assert(tracks[0] == first_with_id(tracks, id)->0);
    }
}

/// The route on the map is the result's tracks, in order.
pub proof fn a_route_is_the_result(steps: Seq<Step>)
    ensures
        ids_of(steps).len() == steps.len(),
        forall|i: int| 0 <= i < steps.len() ==> ids_of(steps)[i] == (#[trigger] steps[i]).track.track_id,
{
}

} // verus!
