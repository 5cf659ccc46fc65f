//! What a row offers, and what choosing from it comes to.

use crate::paths::Navigator;
use crate::qobuz::RemoteTrack;
use crate::ui::context::Blocklist;
use crate::ui::generate::{Mode, PathEnd};
use crate::ui::library::Shelf;
use crate::ui::menu::{
    generation_offers, queue_intent, queue_offers, shelf_album_intent, shelf_album_offers,
    shelf_artist_intent, shelf_artist_offers, shelf_track_intent, shelf_track_offers,
    space_track_intent, space_track_offers, Choice, Intent, Offer, Playback,
};
use vstd::prelude::*;

verus! {

/// These are what the offers are for, in order.
pub open spec fn are_for(offers: Seq<Offer>, choices: Seq<Choice>) -> bool {
    &&& offers.len() == choices.len()
    &&& forall|k: int| 0 <= k < offers.len() ==> #[trigger] offers[k].choice == choices[k]
}

/// What an offer is called where every row calls it the same.
pub open spec fn is_called_so(offer: Offer) -> bool {
    match offer.choice {
        Choice::Open => offer.label == "Open"@,
        Choice::PlayNow => offer.label == "Play now"@,
        Choice::PlayNext => offer.label == "Play next"@,
        Choice::AddToQueue => offer.label == "Add to queue"@,
        Choice::ShowOnMap => offer.label == "Show on the map"@,
        Choice::Neighbours => offer.label == "Find neighbours"@,
        Choice::Radio => offer.label == "Start radio here"@,
        Choice::Drift => offer.label == "Drift from here…"@,
        Choice::MoveUp => offer.label == "Move up"@,
        Choice::MoveDown => offer.label == "Move down"@,
        Choice::Remove => offer.label == "Remove from queue"@,
        Choice::ClearQueue => offer.label == "Clear the queue"@,
        _ => true,
    }
}

/// Only what takes something away is marked as a danger.
pub open spec fn warns_rightly(offer: Offer) -> bool {
    offer.danger <==> offer.choice == Choice::Hide || offer.choice == Choice::Remove || offer.choice
        == Choice::ClearQueue
}

/// The ways to walk from a track, in the order they are offered.
pub open spec fn the_walks() -> Seq<Choice> {
    seq![Choice::Neighbours, Choice::Radio, Choice::PathA, Choice::PathB, Choice::Drift]
}

/// The two ends of a path: an end that is this track already is not to be
/// chosen, and one that makes the path whole says that it starts it.
pub open spec fn ends_are_offered(offer: Offer, from: Option<i64>, to: Option<i64>, id: i64) -> bool {
    match offer.choice {
        Choice::PathA => {
            &&& offer.disabled <==> from == Some(id)
            &&& from == Some(id) || to is None ==> offer.label == "Set as path A"@
            &&& from != Some(id) && to is Some ==> offer.label == "Set as path A, and go"@
        },
        Choice::PathB => {
            &&& offer.disabled <==> to == Some(id)
            &&& to == Some(id) || from is None ==> offer.label == "Set as path B"@
            &&& to != Some(id) && from is Some ==> offer.label == "Set as path B, and go"@
        },
        _ => !offer.disabled,
    }
}

/// A track on the shelf can always be played, walked from where the space holds
/// it, and its artist hidden where one is known.
pub proof fn a_track_offers_what_can_be_done(
    track: RemoteTrack,
    in_space: bool,
    from: Option<i64>,
    to: Option<i64>,
)
    ensures
        are_for(
            shelf_track_offers(track, in_space, from, to),
            seq![Choice::PlayNow, Choice::PlayNext, Choice::AddToQueue] + (if in_space {
                seq![Choice::ShowOnMap] + the_walks()
            } else {
                Seq::empty()
            }) + (if track.artist_id is Some {
                seq![Choice::Hide]
            } else {
                Seq::empty()
            }),
        ),
        forall|k: int|
            0 <= k < shelf_track_offers(track, in_space, from, to).len() ==> {
                let offer = #[trigger] shelf_track_offers(track, in_space, from, to)[k];
                &&& is_called_so(offer)
                &&& warns_rightly(offer)
                &&& ends_are_offered(offer, from, to, track.id)
                &&& offer.choice == Choice::Hide ==> offer.label == "Hide "@ + track.artist@
                &&& offer.ruled <==> offer.choice == Choice::ShowOnMap || offer.choice
                    == Choice::Hide
            },
{
    let offers = shelf_track_offers(track, in_space, from, to);
    let wanted = seq![Choice::PlayNow, Choice::PlayNext, Choice::AddToQueue] + (if in_space {
        seq![Choice::ShowOnMap] + the_walks()
    } else {
        Seq::empty()
    }) + (if track.artist_id is Some {
        seq![Choice::Hide]
    } else {
        Seq::empty()
    });
    assert(generation_offers(from, to, track.id, false).len() == 5);
    assert(offers.len() == wanted.len());
    assert(forall|k: int| 0 <= k < offers.len() ==> #[trigger] offers[k].choice == wanted[k]);
}

/// An album can be opened, played and fetched, and its artist hidden where one
/// is known. Nothing of it is switched off.
pub proof fn an_album_offers_what_can_be_done(artist_id: Option<i64>, artist: Seq<char>)
    ensures
        are_for(
            shelf_album_offers(artist_id, artist),
            seq![
                Choice::Open,
                Choice::PlayNow,
                Choice::PlayNext,
                Choice::AddToQueue,
                Choice::Fetch,
            ] + (if artist_id is Some {
                seq![Choice::Hide]
            } else {
                Seq::empty()
            }),
        ),
        forall|k: int|
            0 <= k < shelf_album_offers(artist_id, artist).len() ==> {
                let offer = #[trigger] shelf_album_offers(artist_id, artist)[k];
                &&& is_called_so(offer)
                &&& warns_rightly(offer)
                &&& !offer.disabled
                &&& offer.choice == Choice::Hide ==> offer.label == "Hide "@ + artist
                &&& offer.choice == Choice::Fetch ==> offer.label == "Fetch into catalogue"@
                &&& offer.ruled <==> offer.choice == Choice::Fetch
            },
{
}

/// An artist can be opened, fetched and hidden.
pub proof fn an_artist_offers_what_can_be_done()
    ensures
        are_for(shelf_artist_offers(), seq![Choice::Open, Choice::Fetch, Choice::Hide]),
        forall|k: int|
            0 <= k < shelf_artist_offers().len() ==> {
                let offer = #[trigger] shelf_artist_offers()[k];
                &&& is_called_so(offer)
                &&& warns_rightly(offer)
                &&& !offer.disabled
                &&& offer.choice == Choice::Fetch ==> offer.label == "Fetch discography"@
                &&& offer.choice == Choice::Hide ==> offer.label == "Hide everywhere"@
                &&& offer.ruled <==> offer.choice == Choice::Hide
            },
{
}

/// An entry of the queue can be started unless it plays already, moved unless
/// there is nowhere to move it, and taken out.
pub proof fn an_entry_offers_what_can_be_done(index: int, total: int, playing: bool)
    requires
        0 <= index < total,
    ensures
        are_for(
            queue_offers(index, total, playing),
            (if playing {
                Seq::empty()
            } else {
                seq![Choice::PlayNow]
            }) + seq![Choice::MoveUp, Choice::MoveDown, Choice::Remove, Choice::ClearQueue],
        ),
        forall|k: int|
            0 <= k < queue_offers(index, total, playing).len() ==> {
                let offer = #[trigger] queue_offers(index, total, playing)[k];
                &&& is_called_so(offer)
                &&& warns_rightly(offer)
                &&& offer.disabled <==> (offer.choice == Choice::MoveUp && index == 0) || (
                offer.choice == Choice::MoveDown && index == total - 1)
                &&& offer.ruled <==> offer.choice == Choice::Remove
            },
{
}

/// A track of the space can be shown, queued and walked from.
pub proof fn a_track_of_the_space_offers_what_can_be_done(
    from: Option<i64>,
    to: Option<i64>,
    id: i64,
)
    ensures
        are_for(
            space_track_offers(from, to, id),
            seq![Choice::ShowOnMap, Choice::PlayNext, Choice::AddToQueue] + the_walks(),
        ),
        forall|k: int|
            0 <= k < space_track_offers(from, to, id).len() ==> {
                let offer = #[trigger] space_track_offers(from, to, id)[k];
                &&& is_called_so(offer)
                &&& warns_rightly(offer)
                &&& ends_are_offered(offer, from, to, id)
                &&& offer.ruled <==> offer.choice == Choice::Neighbours
            },
{
}

// --------------------------------------------------------------- the choice

/// Where a walk from a track is chosen, that walk from that track is meant.
pub open spec fn means_the_walk(choice: Choice, id: i64, intent: Intent) -> bool {
    &&& choice == Choice::Neighbours ==> (intent matches Intent::Walk { mode, seed } && mode
        == Mode::Neighbours && seed == id)
    &&& choice == Choice::Radio ==> (intent matches Intent::Walk { mode, seed } && mode
        == Mode::Radio && seed == id)
    &&& choice == Choice::PathA ==> (intent matches Intent::PathEnd { end, id: at } && end
        == PathEnd::A && at == id)
    &&& choice == Choice::PathB ==> (intent matches Intent::PathEnd { end, id: at } && end
        == PathEnd::B && at == id)
    &&& choice == Choice::Drift ==> (intent matches Intent::AimDrift { id: at } && at == id)
}

/// What is chosen on a track of the shelf is done to the track that stands
/// there now. Playing starts all that is shown, at that place.
pub proof fn a_choice_is_meant_for_the_track_shown(
    shelf: Shelf,
    blocked: Blocklist,
    index: int,
    choice: Choice,
    intent: Intent,
)
    requires
        0 <= index,
        shelf_track_intent(shelf, blocked, index, choice, intent),
    ensures
        choice == Choice::PlayNow ==> (intent matches Intent::Play { queue, index: at } && at == index
            && queue@ == shelf.shown_tracks(blocked)),
        choice != Choice::PlayNow && index >= shelf.shown_tracks(blocked).len()
            ==> intent is Nothing,
        index < shelf.shown_tracks(blocked).len() ==> ({
            let track = shelf.shown_tracks(blocked)[index];
            &&& choice == Choice::PlayNext ==> (intent matches Intent::PlayNext { track: at } && at
                == track)
            &&& choice == Choice::AddToQueue ==> (intent matches Intent::Enqueue { track: at } && at
                == track)
            &&& choice == Choice::ShowOnMap ==> (intent matches Intent::ShowOnMap { id } && id
                == track.id)
            &&& choice == Choice::Hide && track.artist_id is Some ==> (intent matches Intent::Hide {
                artist_id,
                name,
            } && artist_id == track.artist_id->0 && name == track.artist)
            &&& choice == Choice::Hide && track.artist_id is None ==> intent is Nothing
            &&& means_the_walk(choice, track.id, intent)
            &&& choice == Choice::Open || choice == Choice::Fetch || choice == Choice::MoveUp
                || choice == Choice::MoveDown || choice == Choice::Remove || choice
                == Choice::ClearQueue ==> intent is Nothing
        }),
{
}

/// Whatever a track of the shelf offers does something when it is chosen.
pub proof fn what_a_track_offers_is_done(
    shelf: Shelf,
    blocked: Blocklist,
    index: int,
    in_space: bool,
    from: Option<i64>,
    to: Option<i64>,
    k: int,
    intent: Intent,
)
    requires
        0 <= index < shelf.shown_tracks(blocked).len(),
        ({
            let offers = shelf_track_offers(shelf.shown_tracks(blocked)[index], in_space, from, to);
            0 <= k < offers.len() && shelf_track_intent(
                shelf,
                blocked,
                index,
                offers[k].choice,
                intent,
            )
        }),
    ensures
        !(intent is Nothing),
{
    a_track_offers_what_can_be_done(shelf.shown_tracks(blocked)[index], in_space, from, to);
    let offers = shelf_track_offers(shelf.shown_tracks(blocked)[index], in_space, from, to);
    a_choice_is_meant_for_the_track_shown(shelf, blocked, index, offers[k].choice, intent);
    assert(offers[k].choice != Choice::Open);
}

/// What is chosen on an album or an artist of the shelf is done to the one
/// that stands there now.
pub proof fn a_choice_is_meant_for_the_row_shown(
    shelf: Shelf,
    blocked: Blocklist,
    index: int,
    choice: Choice,
    of_album: Intent,
    similar: bool,
    of_artist: Intent,
)
    requires
        0 <= index,
        shelf_album_intent(shelf, blocked, index, choice, of_album),
        shelf_artist_intent(shelf, blocked, index, similar, choice, of_artist),
    ensures
        index >= shelf.shown_albums(blocked).len() ==> of_album is Nothing,
        index < shelf.shown_albums(blocked).len() ==> ({
            let album = shelf.shown_albums(blocked)[index];
            match choice {
                Choice::Open => of_album matches Intent::Open { view } && view
                    == crate::ui::library::View::Album(album),
                Choice::PlayNow => of_album matches Intent::AlbumTracks { album: id, then_play }
                    && id == album.id && then_play == Playback::Now,
                Choice::PlayNext => of_album matches Intent::AlbumTracks { album: id, then_play }
                    && id == album.id && then_play == Playback::Next,
                Choice::AddToQueue => of_album matches Intent::AlbumTracks { album: id, then_play }
                    && id == album.id && then_play == Playback::Later,
                Choice::Fetch => of_album matches Intent::FetchAlbum { album: id, label } && id
                    == album.id && label == album.title,
                Choice::Hide => if album.artist_id is Some {
                    of_album matches Intent::Hide { artist_id, name } && artist_id
                        == album.artist_id->0 && name == album.artist
                } else {
                    of_album is Nothing
                },
                _ => of_album is Nothing,
            }
        }),
        index >= shelf.shown_artists(blocked, similar).len() ==> of_artist is Nothing,
        index < shelf.shown_artists(blocked, similar).len() ==> ({
            let artist = shelf.shown_artists(blocked, similar)[index];
            match choice {
                Choice::Open => of_artist matches Intent::Open { view } && view
                    == crate::ui::library::View::Artist(artist),
                Choice::Fetch => of_artist matches Intent::FetchArtist { id, label } && id
                    == artist.id && label == artist.name,
                Choice::Hide => of_artist matches Intent::Hide { artist_id, name } && artist_id
                    == artist.id && name == artist.name,
                _ => of_artist is Nothing,
            }
        }),
{
}

/// What is chosen on an entry of the queue is done at its place: it moves one
/// up or one down.
pub proof fn a_choice_is_meant_for_the_entry(index: usize, choice: Choice)
    ensures
        match choice {
            Choice::PlayNow => queue_intent(index, choice) matches Intent::PlayAt { index: at }
                && at == index,
            Choice::MoveUp => queue_intent(index, choice) matches Intent::MoveBy {
                index: at,
                delta,
            } && at == index && delta == -1,
            Choice::MoveDown => queue_intent(index, choice) matches Intent::MoveBy {
                index: at,
                delta,
            } && at == index && delta == 1,
            Choice::Remove => queue_intent(index, choice) matches Intent::RemoveAt { index: at }
                && at == index,
            Choice::ClearQueue => queue_intent(index, choice) is ClearQueue,
            _ => queue_intent(index, choice) is Nothing,
        },
{
}

/// What is chosen on a track of the space is done to that track, as far as the
/// space still holds it.
pub proof fn a_choice_is_meant_for_the_track_of_the_space(
    nav: Navigator,
    id: i64,
    choice: Choice,
    intent: Intent,
)
    requires
        space_track_intent(nav, id, choice, intent),
    ensures
        choice == Choice::ShowOnMap ==> (intent matches Intent::ShowOnMap { id: at } && at == id),
        choice == Choice::PlayNext || choice == Choice::AddToQueue ==> (intent is Nothing
            <==> !nav.index_of@.contains_key(id)),
        choice == Choice::PlayNext && nav.index_of@.contains_key(id) ==> (intent matches
            Intent::PlayNext { track } && track.title@
            == nav.catalog.tracks@[nav.index_of@[id] as int].title@ && track.id
            == nav.catalog.tracks@[nav.index_of@[id] as int].track_id),
        choice == Choice::AddToQueue && nav.index_of@.contains_key(id) ==> (intent matches
            Intent::Enqueue { track } && track.title@
            == nav.catalog.tracks@[nav.index_of@[id] as int].title@ && track.id
            == nav.catalog.tracks@[nav.index_of@[id] as int].track_id),
        means_the_walk(choice, id, intent),
        choice == Choice::PlayNow || choice == Choice::Open || choice == Choice::Fetch || choice
            == Choice::Hide || choice == Choice::MoveUp || choice == Choice::MoveDown || choice
            == Choice::Remove || choice == Choice::ClearQueue ==> intent is Nothing,
{
}

} // verus!
