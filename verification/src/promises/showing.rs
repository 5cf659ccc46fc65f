//! What is shown of a track, an album or a choice, and what a press means.

use crate::db::Catalog;
use crate::json::{member, Json};
use crate::paths::UNIT;
use crate::promises::menus::are_for;
use crate::promises::wording::{amount, is_figure};
use crate::qobuz::{RemoteAlbum, RemoteTrack};
use crate::strings::{digits, signed_digits, trim_of, two_places, white};
use crate::ui::context::{shows_album, shows_artist};
use crate::ui::generate::{first_with_id, heading, track_label, Recipe};
use crate::ui::menu::{target_of, Choice};
use crate::ui::player::{clock_text, event_of, queue_place, PageEvent, Player, SECOND};
use crate::ui::queue::{shows_row, QueueRow};
use crate::ui::sheet::{
    album_badges_of, credits_of, left_alone, moved_off, nearest_whole, tempo_text, track_badges_of,
    verb_offers, weight_named,
};
use crate::ui::shell::{
    ask_on_enter, ask_on_tick, map_event_of, placed, press_of, submitted_after, Ask, MapEvent,
    Press,
};
use vstd::prelude::*;

verus! {

// ------------------------------------------------------------------- a sheet

/// A tempo is shown to the nearest beat: no whole number is nearer, and of two
/// as near it is the even one.
pub proof fn a_tempo_is_shown_to_the_nearest_beat(bpm: int) -> (beats: nat)
    ensures
        tempo_text(bpm) == (if bpm < 0 {
            seq!['-']
        } else {
            Seq::empty()
        }) + digits(beats) + " bpm"@,
        ({
            let size = if bpm < 0 {
                -bpm
            } else {
                bpm
            };
            &&& -UNIT <= 2 * (size - beats * UNIT) <= UNIT
            &&& 2 * (size - beats * UNIT) == UNIT || 2 * (size - beats * UNIT) == -UNIT ==> beats % 2
                == 0
        }),
{
    reveal_strlit("-");
    assert("-"@ =~= seq!['-']);
    let size = if bpm < 0 {
        (-bpm) as nat
    } else {
        bpm as nat
    };
    let beats = nearest_whole(size);
    let n = UNIT as nat;
    vstd::arithmetic::div_mod::lemma_fundamental_div_mod(size as int, n as int);
    let q = size / n;
    let unit = UNIT as int;
    assert((q + 1) * unit == q * unit + unit) by (nonlinear_arith);
    assert(n * q == q * unit) by (nonlinear_arith)
        requires
            n == unit,
    ;
    if bpm >= 0 {
        assert(tempo_text(bpm) =~= Seq::<char>::empty() + digits(beats) + " bpm"@);
    } else {
        assert(tempo_text(bpm) =~= seq!['-'] + digits(beats) + " bpm"@);
    }
    beats
}

/// A credit is one of the pieces without the white space around it; a piece of
/// nothing else is none.
pub proof fn a_piece_is_a_credit_unless_it_is_blank(parts: Seq<Seq<char>>, part: Seq<char>)
    ensures
        credits_of(Seq::empty()).len() == 0,
        (forall|i: int| 0 <= i < part.len() ==> white(#[trigger] part[i])) ==> credits_of(
            parts.push(part),
        ) == credits_of(parts),
        (exists|i: int| 0 <= i < part.len() && !white(#[trigger] part[i])) ==> credits_of(
            parts.push(part),
        ) == credits_of(parts).push(trim_of(part)),
{
    assert(parts.push(part).drop_last() =~= parts);
    let ends = crate::promises::wording::a_trimmed_text_is_what_lies_between(part);
    if exists|i: int| 0 <= i < part.len() && !white(#[trigger] part[i]) {
        let i = choose|i: int| 0 <= i < part.len() && !white(#[trigger] part[i]);
        assert(ends.0 <= i < ends.1);
    }
    if forall|i: int| 0 <= i < part.len() ==> white(#[trigger] part[i]) {
        if ends.0 < ends.1 {
            assert(white(part[ends.0]));
        }
    }
}

/// A track's badges say that it is in the space, its tempo, its date and that
/// it cannot be streamed, as far as each is so, in that order.
pub proof fn a_badge_says_what_is_so(track: RemoteTrack, in_space: bool, bpm: Option<i64>)
    ensures
        ({
            let first = if in_space {
                seq!["in your space"@]
            } else {
                Seq::empty()
            };
            let second = if bpm is Some {
                seq![tempo_text(bpm->0 as int)]
            } else {
                Seq::empty()
            };
            let third = if track.released is Some {
                seq![track.released->0@]
            } else {
                Seq::empty()
            };
            let fourth = if !track.streamable {
                seq!["not streamable here"@]
            } else {
                Seq::empty()
            };
            track_badges_of(track, in_space, bpm) == first + second + third + fourth
        }),
{
}

/// An album's badges say how many tracks it has, its kind and its label, as
/// far as each is known, in that order.
pub proof fn an_album_badge_says_what_is_known(album: RemoteAlbum)
    ensures
        ({
            let first = if album.tracks_count is Some {
                seq![signed_digits(album.tracks_count->0 as int) + " tracks"@]
            } else {
                Seq::empty()
            };
            let second = if album.genre is Some {
                seq![album.genre->0@]
            } else {
                Seq::empty()
            };
            let third = if album.label is Some {
                seq![album.label->0@]
            } else {
                Seq::empty()
            };
            album_badges_of(album) == first + second + third
        }),
{
}

/// A sheet offers every walk. An end of the path that is this track already is
/// not to be chosen, and one that makes the path whole says that it starts it.
pub proof fn a_sheet_offers_the_walks(from: Option<i64>, to: Option<i64>, id: i64)
    ensures
        are_for(verb_offers(from, to, id), crate::promises::menus::the_walks()),
        forall|k: int|
            0 <= k < verb_offers(from, to, id).len() ==> {
                let offer = #[trigger] verb_offers(from, to, id)[k];
                &&& !offer.danger && !offer.ruled
                &&& match offer.choice {
                    Choice::PathA => {
                        &&& offer.disabled <==> from == Some(id)
                        &&& from == Some(id) || to is None ==> offer.label == "Path A"@
                        &&& from != Some(id) && to is Some ==> offer.label == "Path A, go"@
                    },
                    Choice::PathB => {
                        &&& offer.disabled <==> to == Some(id)
                        &&& to == Some(id) || from is None ==> offer.label == "Path B"@
                        &&& to != Some(id) && from is Some ==> offer.label == "Path B, go"@
                    },
                    Choice::Neighbours => !offer.disabled && offer.label == "Find neighbours"@,
                    Choice::Radio => !offer.disabled && offer.label == "Start radio"@,
                    Choice::Drift => !offer.disabled && offer.label == "Drift from here"@,
                    _ => false,
                }
            },
{
}

/// The first weight filed under a name is the one it has.
pub proof fn the_first_weight_of_a_name_counts(weights: Seq<(String, u32)>, name: Seq<char>)
    ensures
        match weight_named(weights, name) {
            Some(bits) => exists|at: int| #[trigger] is_first_weight(weights, name, at) && weights[at].1
                == bits,
            None => forall|k: int| 0 <= k < weights.len() ==> (#[trigger] weights[k]).0@ != name,
        },
    decreases weights.len(),
{
    if weights.len() > 0 {
        let less = weights.drop_last();
        the_first_weight_of_a_name_counts(less, name);
        assert(forall|k: int| 0 <= k < less.len() ==> #[trigger] less[k] == weights[k]);
        match weight_named(less, name) {
            Some(bits) => {
                let at = choose|at: int| #[trigger] is_first_weight(less, name, at) && less[at].1
                    == bits;
                assert forall|k: int| 0 <= k < at implies (#[trigger] weights[k]).0@ != name by {
                    assert(less[k] == weights[k]);
                }
                assert(is_first_weight(weights, name, at));
            },
            None => {
                assert forall|k: int| 0 <= k < less.len() implies (#[trigger] weights[k]).0@
                    != name by {
                    assert(less[k] == weights[k]);
                }
                if weights.last().0@ == name {
                    assert(is_first_weight(weights, name, weights.len() - 1));
                }
            },
        }
    }
}

/// The weight at `at` is the first of that name.
pub open spec fn is_first_weight(weights: Seq<(String, u32)>, name: Seq<char>, at: int) -> bool {
    &&& 0 <= at < weights.len()
    &&& weights[at].0@ == name
    &&& forall|k: int| 0 <= k < at ==> (#[trigger] weights[k]).0@ != name
}

/// A weight has been moved where it is said to differ from the one the space
/// was built with, and one that is not there has not been.
pub proof fn a_weight_is_moved_where_it_differs<F: Fn(u32, u32) -> bool>(
    defaults: Seq<(String, u32)>,
    current: Seq<(String, u32)>,
    differs: F,
    i: int,
)
    ensures
        ({
            let now = weight_named(current, defaults[i].0@);
            &&& moved_off(defaults, current, differs, i) <==> now is Some && differs.ensures(
                (now->0, defaults[i].1),
                true,
            )
            &&& left_alone(defaults, current, differs, i) <==> (now is None || differs.ensures(
                (now->0, defaults[i].1),
                false,
            ))
        }),
{
}

// -------------------------------------------------------------- the headings

/// What is made is headed by how it was made and from what.
pub proof fn a_result_is_headed_by_how_it_was_made(catalog: Catalog, recipe: Recipe)
    ensures
        match recipe {
            Recipe::Neighbours { seed } => heading(catalog, recipe) == "Neighbours of "@
                + track_label(catalog, Some(seed)),
            Recipe::Radio { seed } => heading(catalog, recipe) == "Radio from "@ + track_label(
                catalog,
                Some(seed),
            ),
            Recipe::Path { a, b, even } => heading(catalog, recipe) == "Path "@ + track_label(
                catalog,
                Some(a),
            ) + " → "@ + track_label(catalog, Some(b)) + (if even {
                ", evenly paced"@
            } else {
                ""@
            }),
            Recipe::Drift { seed, phrase } => heading(catalog, recipe) == "Drift from "@
                + track_label(catalog, Some(seed)) + " towards “"@ + phrase@ + "”"@,
        },
{
    reveal_strlit("");
    assert(""@ =~= Seq::empty());
}

/// A track is called by its artist and title where it is known, and by its
/// number where it is not.
pub proof fn a_track_is_called_by_its_name(catalog: Catalog, id: i64)
    ensures
        track_label(catalog, None) == "-"@,
        match first_with_id(catalog.tracks@, id) {
            Some(track) => track_label(catalog, Some(id)) == track.artist@ + " - "@ + track.title@,
            None => track_label(catalog, Some(id)) == signed_digits(id as int),
        },
{
}

// --------------------------------------------------------------- the counting

/// Of these rows as many are on the map as have a place there.
pub proof fn what_has_a_place_is_counted(catalog: Catalog, rows: Seq<usize>)
    ensures
        placed(catalog, rows) == rows.filter(
            |row: usize| catalog.tracks@[row as int].x is Some,
        ).len(),
    decreases rows.len(),
{
    reveal(Seq::filter);
    if rows.len() > 0 {
        what_has_a_place_is_counted(catalog, rows.drop_last());
    }
}

/// An album or an artist is within reach where one of the tracks shows that is
/// on it, or by them.
pub proof fn what_shows_is_within_reach(catalog: Catalog, album: Seq<char>, artist: i64)
    ensures
        shows_album(catalog, catalog.tracks@.len() as int, album) <==> exists|i: int|
            0 <= i < catalog.tracks@.len() && (#[trigger] catalog.tracks@[i]).album_id@ == album
                && !catalog.blocked_artists@.contains(catalog.tracks@[i].artist_id),
        shows_artist(catalog, catalog.tracks@.len() as int, artist) <==> exists|i: int|
            0 <= i < catalog.tracks@.len() && (#[trigger] catalog.tracks@[i]).artist_id == artist
                && !catalog.blocked_artists@.contains(catalog.tracks@[i].artist_id),
{
    if shows_album(catalog, catalog.tracks@.len() as int, album) {
        let i = choose|i: int|
            0 <= i < catalog.tracks@.len() && !catalog.blocks(i) && (
            #[trigger] catalog.tracks@[i]).album_id@ == album;
        assert(catalog.tracks@[i].album_id@ == album);
    }
    if shows_artist(catalog, catalog.tracks@.len() as int, artist) {
        let i = choose|i: int|
            0 <= i < catalog.tracks@.len() && !catalog.blocks(i) && (
            #[trigger] catalog.tracks@[i]).artist_id == artist;
        assert(catalog.tracks@[i].artist_id == artist);
    }
}

/// An entry of the queue shows its track, whether that plays, and which ways
/// it can be moved.
pub proof fn an_entry_shows_its_track(player: Player, row: QueueRow, index: int)
    requires
        0 <= index < player.queue@.len(),
        shows_row(player, row, index),
    ensures
        row.track == player.queue@[index],
        row.playing <==> player.index == index,
        row.can_move_up <==> index != 0,
        row.can_move_down <==> index != player.queue@.len() - 1,
{
}

/// A time is shown as minutes and seconds, the seconds in two digits and below
/// sixty; what has not begun is at nought.
pub proof fn a_time_is_shown_in_minutes_and_seconds(time: int) -> (parts: (Seq<char>, Seq<char>))
    ensures
        time <= 0 ==> clock_text(time) == "0:00"@,
        time > 0 ==> {
            &&& clock_text(time) == parts.0 + ":"@ + parts.1
            &&& is_figure(parts.0)
            &&& is_figure(parts.1)
            &&& parts.1.len() == 2
            &&& amount(parts.1) < 60
            &&& (60 * amount(parts.0) + amount(parts.1)) * SECOND <= time
            &&& time < (60 * amount(parts.0) + amount(parts.1) + 1) * SECOND
        },
{
    if time > 0 {
        let seconds = time / SECOND as int;
        let m = (seconds / 60) as nat;
        let s = (seconds % 60) as nat;
        vstd::arithmetic::div_mod::lemma_fundamental_div_mod(time, SECOND as int);
        assert(seconds * SECOND <= time < (seconds + 1) * SECOND) by (nonlinear_arith)
            requires
                time == SECOND * seconds + time % (SECOND as int),
                0 <= time % (SECOND as int) < SECOND,
        ;
        crate::promises::wording::a_number_is_written_in_its_digits(m);
        crate::promises::wording::two_digits_are_written(s);
        (digits(m), two_places(s))
    } else {
        (Seq::empty(), Seq::empty())
    }
}

/// Where playback stands is counted from one.
pub proof fn the_place_is_counted_from_one(player: Player)
    ensures
        player.queue@.len() == 0 ==> queue_place(player) == "queue"@,
        player.queue@.len() > 0 ==> queue_place(player) == digits((player.index + 1) as nat) + "/"@
            + digits(player.queue@.len()),
{
}

// ------------------------------------------------------------------ the box

/// What is typed is asked for once it has stood still for a tick, where it is
/// two characters or more and has not been asked for. Enter does not wait and
/// takes one. Emptying the box leaves the search.
pub proof fn what_stands_still_is_asked_for(text: Seq<char>, submitted: Seq<char>, previous: Seq<char>)
    ensures
        ({
            let now = trim_of(text);
            let tick = ask_on_tick(text, submitted, previous);
            let enter = ask_on_enter(text, submitted);
            &&& now != previous ==> tick is Nothing
            &&& now == previous && now.len() >= 2 && now != submitted ==> tick == Ask::Query(now)
            &&& now.len() == 1 ==> tick is Nothing
            &&& now == submitted ==> tick is Nothing && enter is Nothing
            &&& now == previous && now.len() == 0 && submitted.len() > 0 ==> tick is Leave
            &&& now.len() == 0 && submitted.len() == 0 ==> tick is Nothing
            &&& now.len() == 0 ==> enter is Nothing
            &&& now.len() > 0 && now != submitted ==> enter == Ask::Query(now)
            &&& tick matches Ask::Query(asked) ==> submitted_after(tick, submitted) == asked
            &&& tick is Leave ==> submitted_after(tick, submitted).len() == 0
            &&& tick is Nothing ==> submitted_after(tick, submitted) == submitted
        }),
{
}

/// The text under this name, where there is one.
pub open spec fn says(message: Json, key: Seq<char>, text: Seq<char>) -> bool {
    member(message, key) matches Some(Json::Text(found)) && found@ == text
}

/// A long press opens the menu of the row it names, a press beside the map
/// closes it, and anything else does nothing.
pub proof fn a_press_means_what_it_names(message: Json, tag: Seq<char>)
    ensures
        member(message, "closeMap"@) is Some ==> press_of(message) is CloseMap,
        member(message, "closeMap"@) is None && says(message, "target"@, tag) && target_of(tag)
            is Some ==> press_of(message) == Press::Menu(target_of(tag)->0),
        member(message, "closeMap"@) is None && says(message, "target"@, tag) && target_of(tag)
            is None ==> press_of(message) is Ignored,
        member(message, "closeMap"@) is None && !(member(message, "target"@) matches Some(
            Json::Text(_),
        )) ==> press_of(message) is Ignored,
{
}

/// The map says which track's menu to open, or which track is selected, which
/// is none where the background was clicked.
pub proof fn the_map_says_which_track(message: Json, id: Option<i64>)
    ensures
        says(message, "type"@, "menu"@) && id is Some ==> map_event_of(message, id)
            == MapEvent::Menu(id->0),
        says(message, "type"@, "menu"@) && id is None ==> map_event_of(message, id) is Ignored,
        !says(message, "type"@, "menu"@) && member(message, "track_id"@) is Some ==> map_event_of(
            message,
            id,
        ) == MapEvent::Select(id),
        !says(message, "type"@, "menu"@) && member(message, "track_id"@) is None ==> map_event_of(
            message,
            id,
        ) is Ignored,
{
}

/// What the page tells of the player is what its kind says, and a kind that is
/// not known is nothing.
pub proof fn the_page_says_what_happened(message: Json, position: i128, duration: i128)
    ensures
        ({
            let event = event_of(message, position, duration);
            &&& says(message, "type"@, "time"@) <==> event == PageEvent::Time(position, duration)
            &&& says(message, "type"@, "playing"@) ==> event == PageEvent::Playing(
                member(message, "playing"@) == Some(Json::Bool(true)),
            )
            &&& says(message, "type"@, "ended"@) <==> event is Ended
            &&& says(message, "type"@, "failed"@) <==> event is Failed
            &&& says(message, "type"@, "transport"@) && says(message, "action"@, "previous"@)
                <==> event is Previous
            &&& says(message, "type"@, "transport"@) && says(message, "action"@, "next"@)
                <==> event is Next
        }),
{
    reveal_strlit("time");
    reveal_strlit("playing");
    reveal_strlit("ended");
    reveal_strlit("failed");
    reveal_strlit("transport");
    reveal_strlit("previous");
    reveal_strlit("next");
    assert("time"@.len() == 4 && "playing"@.len() == 7 && "ended"@.len() == 5);
    assert("failed"@.len() == 6 && "transport"@.len() == 9);
    assert("previous"@.len() == 8 && "next"@.len() == 4);
}

} // verus!
