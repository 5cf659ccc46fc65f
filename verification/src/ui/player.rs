//! The play queue and the transport.
//!
//! The page's audio element owns playback. It is handed a URL and reports
//! track boundaries back; what to do about them is decided here.

use crate::json::{bool_value, member, seen, text_value, Json};
use crate::qobuz::{
    identity_key, RemoteTrack, TrackIdentity, FORMAT_FLAC_CD, FORMAT_FLAC_HIRES, FORMAT_MP3_320,
};
use crate::script::{call, called, json_string, quoted};
use crate::strings::{decimal, digits, joined, push_text, same, two_digits, two_places};
use std::collections::HashSet;
use vstd::prelude::*;

verus! {

broadcast use vstd::std_specs::hash::group_hash_axioms;

/// A second, in the units of positions and durations.
pub const SECOND: i128 = 1_000_000;

pub struct Player {
    pub queue: Vec<RemoteTrack>,
    pub index: usize,
    pub playing: bool,
    /// Position and duration, as reported by the audio element, in the units
    /// of `SECOND`.
    pub position: (i128, i128),
    pub quality: u32,
    pub status: Option<String>,
    /// In hundredths, independent of the device's own volume.
    pub volume: u32,
    pub muted: bool,
    /// Whether the queue drawer is showing.
    pub queue_open: bool,
    /// Whether the full "now playing" screen is showing.
    pub full_open: bool,
}

/// What is left for the page to do.
#[derive(Clone, Copy, PartialEq, Eq, Structural, Debug)]
pub enum Action {
    Nothing,
    /// Play the entry at this place.
    PlayAt(usize),
    Stop,
    Pause,
    Resume,
}

/// What playing an entry comes to.
#[derive(Clone, Copy, PartialEq, Eq, Structural, Debug)]
pub enum Play {
    /// There is no such entry.
    Nothing,
    /// It cannot be streamed.
    Refused,
    /// It is by a hidden artist: play what follows instead, if anything does.
    Skip(Action),
    /// Ask for its stream.
    Load { track_id: i64, format_id: u32 },
}

// --------------------------------------------------------------- duplicates

/// Some track of `tracks` is the music `key` names.
pub open spec fn holds(tracks: Seq<RemoteTrack>, key: (Option<Seq<char>>, i64)) -> bool {
    exists|i: int| 0 <= i < tracks.len() && identity_key(#[trigger] tracks[i]) == key
}

/// No two of `tracks` are the same music.
pub open spec fn all_different(tracks: Seq<RemoteTrack>) -> bool {
    forall|i: int, j: int|
        0 <= i < j < tracks.len() ==> identity_key(#[trigger] tracks[i]) != identity_key(
            #[trigger] tracks[j],
        )
}

/// The tracks not already in `held`, the first of each.
pub open spec fn fresh(tracks: Seq<RemoteTrack>, held: Seq<RemoteTrack>) -> Seq<RemoteTrack>
    decreases tracks.len(),
{
    if tracks.len() == 0 {
        Seq::empty()
    } else {
        let sooner = fresh(tracks.drop_last(), held);
        let key = identity_key(tracks.last());
        if holds(held, key) || holds(sooner, key) {
            sooner
        } else {
            sooner.push(tracks.last())
        }
    }
}

/// What is fresh is all different, is not in `held`, and leaves out nothing
/// that was not there already.
pub proof fn fresh_tracks_are_new(tracks: Seq<RemoteTrack>, held: Seq<RemoteTrack>)
    ensures
        all_different(fresh(tracks, held)),
        forall|i: int|
            0 <= i < fresh(tracks, held).len() ==> !holds(
                held,
                identity_key(#[trigger] fresh(tracks, held)[i]),
            ),
        forall|i: int|
            0 <= i < tracks.len() ==> holds(held, identity_key(#[trigger] tracks[i])) || holds(
                fresh(tracks, held),
                identity_key(tracks[i]),
            ),
        fresh(tracks, held).len() <= tracks.len(),
    decreases tracks.len(),
{
    if tracks.len() > 0 {
        let fewer = tracks.drop_last();
        let sooner = fresh(fewer, held);
        let all = fresh(tracks, held);
        fresh_tracks_are_new(fewer, held);
        assert forall|i: int, j: int| 0 <= i < j < all.len() implies identity_key(#[trigger] all[i])
            != identity_key(#[trigger] all[j]) by {
            assert(all[i] == sooner[i]);
            if j < sooner.len() {
                assert(all[j] == sooner[j]);
            }
        }
        assert forall|i: int| 0 <= i < all.len() implies !holds(
            held,
            identity_key(#[trigger] all[i]),
        ) by {
            if i < sooner.len() {
                assert(all[i] == sooner[i]);
            }
        }
        assert forall|i: int| 0 <= i < tracks.len() implies holds(
            held,
            identity_key(#[trigger] tracks[i]),
        ) || holds(all, identity_key(tracks[i])) by {
            let key = identity_key(tracks[i]);
            if i < fewer.len() {
                assert(fewer[i] == tracks[i]);
                if !holds(held, key) {
                    let k = choose|k: int| 0 <= k < sooner.len() && identity_key(#[trigger] sooner[k])
                        == key;
                    assert(all[k] == sooner[k]);
                }
            } else if !holds(held, key) {
                if holds(sooner, key) {
                    let k = choose|k: int| 0 <= k < sooner.len() && identity_key(#[trigger] sooner[k])
                        == key;
                    assert(all[k] == sooner[k]);
                } else {
                    assert(all[sooner.len() as int] == tracks[i]);
                }
            }
        }
    }
}

fn list_identities(tracks: &Vec<RemoteTrack>) -> (keys: Vec<TrackIdentity>)
    ensures
        keys@.len() == tracks@.len(),
        forall|i: int| 0 <= i < keys@.len() ==> (#[trigger] keys@[i])@ == identity_key(tracks@[i]),
{
    let mut keys: Vec<TrackIdentity> = Vec::new();
    while keys.len() < tracks.len()
        invariant
            keys@.len() <= tracks@.len(),
            forall|i: int|
                0 <= i < keys@.len() ==> (#[trigger] keys@[i])@ == identity_key(tracks@[i]),
        decreases tracks@.len() - keys@.len(),
    {
        let key = tracks[keys.len()].identity();
        keys.push(key);
    }
    keys
}

fn find_identity(keys: &Vec<TrackIdentity>, key: &TrackIdentity) -> (at: Option<usize>)
    ensures
        match at {
            Some(i) => i < keys@.len() && keys@[i as int]@ == key@ && forall|h: int|
                0 <= h < i ==> (#[trigger] keys@[h])@ != key@,
            None => forall|h: int| 0 <= h < keys@.len() ==> (#[trigger] keys@[h])@ != key@,
        },
{
    let mut i: usize = 0;
    while i < keys.len()
        invariant
            i <= keys@.len(),
            forall|h: int| 0 <= h < i ==> (#[trigger] keys@[h])@ != key@,
        decreases keys@.len() - i,
    {
        if keys[i].same_as(key) {
            return Some(i);
        }
        i = i + 1;
    }
    None
}

/// Drop tracks already spoken for, keeping the first of each.
///
/// A queue never holds the same recording twice, so every path into it comes
/// through here: a list being appended is filtered both against the queue and
/// against itself.
pub fn unduplicated(tracks: &Vec<RemoteTrack>, held: &Vec<RemoteTrack>) -> (kept: Vec<RemoteTrack>)
    ensures
        kept@ == fresh(tracks@, held@),
{
    let held_keys = list_identities(held);
    let mut keys: Vec<TrackIdentity> = Vec::new();
    let mut kept: Vec<RemoteTrack> = Vec::new();
    let mut i: usize = 0;
    assert(tracks@.take(0) =~= Seq::empty());
    while i < tracks.len()
        invariant
            i <= tracks@.len(),
            held_keys@.len() == held@.len(),
            forall|h: int|
                0 <= h < held@.len() ==> (#[trigger] held_keys@[h])@ == identity_key(held@[h]),
            kept@ == fresh(tracks@.take(i as int), held@),
            keys@.len() == kept@.len(),
            forall|h: int| 0 <= h < kept@.len() ==> (#[trigger] keys@[h])@ == identity_key(kept@[h]),
        decreases tracks@.len() - i,
    {
        assert(tracks@.take(i + 1).drop_last() =~= tracks@.take(i as int));
        assert(tracks@.take(i + 1).last() == tracks@[i as int]);
        let key = tracks[i].identity();
        let in_held = find_identity(&held_keys, &key);
        let in_kept = find_identity(&keys, &key);
        proof {
            match in_held {
                Some(h) => {
                    assert(identity_key(held@[h as int]) == key@);
                },
                None => {
                    if holds(held@, key@) {
                        let h = choose|h: int|
                            0 <= h < held@.len() && identity_key(#[trigger] held@[h]) == key@;
                        assert(held_keys@[h]@ == key@);
                    }
                },
            }
            match in_kept {
                Some(h) => {
                    assert(identity_key(kept@[h as int]) == key@);
                },
                None => {
                    if holds(kept@, key@) {
                        let h = choose|h: int|
                            0 <= h < kept@.len() && identity_key(#[trigger] kept@[h]) == key@;
                        assert(keys@[h]@ == key@);
                    }
                },
            }
        }
        if in_held.is_none() && in_kept.is_none() {
            kept.push(tracks[i].clone());
            keys.push(key);
        }
        i = i + 1;
    }
    assert(tracks@.take(tracks@.len() as int) =~= tracks@);
    kept
}

// -------------------------------------------------------------------- moves

/// Where the entry at `index` ends up once the one at `from` is taken out and
/// put back at `to`.
pub open spec fn place_after_move(index: int, from: int, to: int) -> int {
    if index == from {
        to
    } else if from < index && to >= index {
        index - 1
    } else if from > index && to <= index {
        index + 1
    } else {
        index
    }
}

pub open spec fn moved<A>(s: Seq<A>, from: int, to: int) -> Seq<A> {
    s.remove(from).insert(to, s[from])
}

/// An entry is found, after a move, exactly where `place_after_move` says.
pub proof fn the_moved_index_follows_its_entry<A>(s: Seq<A>, index: int, from: int, to: int)
    requires
        0 <= index < s.len(),
        0 <= from < s.len(),
        0 <= to < s.len(),
    ensures
        0 <= place_after_move(index, from, to) < s.len(),
        moved(s, from, to).len() == s.len(),
        moved(s, from, to)[place_after_move(index, from, to)] == s[index],
{
}

/// Separate from `move_to`, because this is the whole of what a reorder can
/// get wrong: the queue is only a list, but the index has to keep pointing at
/// the track that is actually playing.
pub fn index_after_move(index: usize, from: usize, to: usize) -> (after: usize)
    ensures
        after == place_after_move(index as int, from as int, to as int),
{
    if index == from {
        // The moved entry itself.
        to
    } else if from < index && to >= index {
        // Removed from above it and put back at or below it: it rises one.
        index - 1
    } else if from > index && to <= index {
        // Removed from below it and put back at or above it: it sinks one.
        index + 1
    } else {
        // The move happened entirely on one side of it.
        index
    }
}

proof fn lemma_moved_stays_different(s: Seq<RemoteTrack>, from: int, to: int)
    requires
        all_different(s),
        0 <= from < s.len(),
        0 <= to < s.len(),
    ensures
        all_different(moved(s, from, to)),
{
    let t = moved(s, from, to);
    assert forall|i: int, j: int| 0 <= i < j < t.len() implies identity_key(#[trigger] t[i])
        != identity_key(#[trigger] t[j]) by {
        // Moving the other way tells where each entry came from.
        let a = place_after_move(i, to, from);
        let b = place_after_move(j, to, from);
        assert(t[i] == s[a]);
        assert(t[j] == s[b]);
        if a < b {
            assert(identity_key(s[a]) != identity_key(s[b]));
        } else {
            assert(identity_key(s[b]) != identity_key(s[a]));
        }
    }
}

// ------------------------------------------------------------------- labels

pub open spec fn quality_word(format_id: u32) -> Seq<char> {
    if format_id == FORMAT_MP3_320 {
        "MP3 320"@
    } else if format_id == FORMAT_FLAC_CD {
        "FLAC 16/44"@
    } else if format_id == FORMAT_FLAC_HIRES {
        "FLAC hi-res"@
    } else {
        "unknown"@
    }
}

pub fn quality_label(format_id: u32) -> (label: &'static str)
    ensures
        label@ == quality_word(format_id),
{
    if format_id == FORMAT_MP3_320 {
        "MP3 320"
    } else if format_id == FORMAT_FLAC_CD {
        "FLAC 16/44"
    } else if format_id == FORMAT_FLAC_HIRES {
        "FLAC hi-res"
    } else {
        "unknown"
    }
}

/// A time as minutes and seconds, nothing of it where there is none.
pub open spec fn clock_text(time: int) -> Seq<char> {
    if time <= 0 {
        "0:00"@
    } else {
        digits((time / SECOND as int / 60) as nat) + ":"@ + two_places(
            (time / SECOND as int % 60) as nat,
        )
    }
}

pub fn clock(time: i128) -> (label: String)
    ensures
        label@ == clock_text(time as int),
{
    if time <= 0 {
        return "0:00".to_owned();
    }
    let total: i128 = time / SECOND;
    let mut label = joined(decimal((total / 60) as u128).as_str(), ":");
    push_text(&mut label, two_digits((total % 60) as u64).as_str());
    label
}

// -------------------------------------------------------------------- the queue

pub open spec fn stepped(len: int, index: int, delta: int) -> Action {
    if 0 <= index + delta < len {
        Action::PlayAt((index + delta) as usize)
    } else {
        Action::Nothing
    }
}

impl Player {
    /// A queue never holds the same music twice.
    pub open spec fn wf(self) -> bool {
        all_different(self.queue@)
    }

    /// Nothing but the queue, the place in it, and what follows from a stop
    /// differs.
    pub open spec fn same_settings(self, other: Player) -> bool {
        &&& self.quality == other.quality
        &&& self.volume == other.volume
        &&& self.muted == other.muted
        &&& self.queue_open == other.queue_open
        &&& self.full_open == other.full_open
        &&& self.status == other.status
    }

    pub fn new() -> (player: Self)
        ensures
            player.wf(),
            player.queue@.len() == 0,
            player.index == 0,
            !player.playing,
            player.position == (0i128, 0i128),
            player.quality == FORMAT_MP3_320,
            player.status is None,
            player.volume == 100,
            !player.muted,
            !player.queue_open,
            !player.full_open,
    {
        Player {
            queue: Vec::new(),
            index: 0,
            playing: false,
            position: (0, 0),
            quality: FORMAT_MP3_320,
            status: None,
            volume: 100,
            muted: false,
            queue_open: false,
            full_open: false,
        }
    }

    /// What is playing, or would be.
    pub fn current(&self) -> (track: Option<&RemoteTrack>)
        ensures
            match track {
                Some(t) => self.index < self.queue@.len() && *t == self.queue@[self.index as int],
                None => self.index >= self.queue@.len(),
            },
    {
        if self.index < self.queue.len() {
            Some(&self.queue[self.index])
        } else {
            None
        }
    }

    /// Replace the queue and start at `index`.
    ///
    /// `index` refers to the caller's list, which may lose entries on the way
    /// in; the music it pointed at is looked up again afterwards, so that
    /// clicking the third row still plays the third row, not whatever slid
    /// into its place.
    pub fn play_list(&mut self, list: Vec<RemoteTrack>, index: usize) -> (action: Action)
        ensures
            final(self).wf(),
            final(self).queue@ == fresh(list@, Seq::empty()),
            final(self).index == old(self).index,
            final(self).playing == old(self).playing,
            final(self).position == old(self).position,
            final(self).same_settings(*old(self)),
            action matches Action::PlayAt(start) && (if index < list@.len() {
                start < final(self).queue@.len() && identity_key(final(self).queue@[start as int])
                    == identity_key(list@[index as int])
            } else {
                start == 0
            }),
    {
        let none: Vec<RemoteTrack> = Vec::new();
        let queue = unduplicated(&list, &none);
        assert(none@ =~= Seq::empty());
        proof {
            fresh_tracks_are_new(list@, Seq::empty());
        }
        let mut start: usize = 0;
        if index < list.len() {
            let wanted = list[index].identity();
            let keys = list_identities(&queue);
            let found = find_identity(&keys, &wanted);
            proof {
                assert(!holds(Seq::empty(), wanted@));
                assert(holds(queue@, identity_key(list@[index as int])));
                let k = choose|k: int|
                    0 <= k < queue@.len() && identity_key(#[trigger] queue@[k]) == wanted@;
                assert(keys@[k]@ == wanted@);
            }
            if let Some(at) = found {
                start = at;
            }
        }
        self.queue = queue;
        Action::PlayAt(start)
    }

    /// Append to the queue, starting playback if nothing is going.
    pub fn enqueue(&mut self, tracks: Vec<RemoteTrack>) -> (action: Action)
        requires
            old(self).wf(),
        ensures
            final(self).wf(),
            final(self).queue@ == old(self).queue@ + fresh(tracks@, old(self).queue@),
            final(self).index == old(self).index,
            final(self).playing == old(self).playing,
            final(self).position == old(self).position,
            final(self).same_settings(*old(self)),
            action == (if old(self).queue@.len() == 0 && final(self).queue@.len() > 0 {
                Action::PlayAt(0)
            } else {
                Action::Nothing
            }),
    {
        let was_empty: bool = self.queue.len() == 0;
        let mut more = unduplicated(&tracks, &self.queue);
        proof {
            fresh_tracks_are_new(tracks@, self.queue@);
            lemma_joined_different(self.queue@, more@, self.queue@.len() as int);
            assert(self.queue@.take(self.queue@.len() as int) =~= self.queue@);
            assert(self.queue@ + more@ =~= self.queue@.take(self.queue@.len() as int) + more@
                + self.queue@.skip(self.queue@.len() as int));
        }
        let any: bool = more.len() > 0;
        self.queue.append(&mut more);
        if was_empty && any {
            Action::PlayAt(0)
        } else {
            Action::Nothing
        }
    }

    /// Insert directly after whatever is playing, so these come next and the
    /// rest of the queue still follows. With nothing queued this is `enqueue`.
    pub fn play_next(&mut self, tracks: Vec<RemoteTrack>) -> (action: Action)
        requires
            old(self).wf(),
        ensures
            final(self).wf(),
            ({
                let at = if old(self).index < old(self).queue@.len() {
                    old(self).index + 1
                } else {
                    old(self).queue@.len() as int
                };
                final(self).queue@ == old(self).queue@.take(at) + fresh(
                    tracks@,
                    old(self).queue@,
                ) + old(self).queue@.skip(at)
            }),
            final(self).index == old(self).index,
            final(self).playing == old(self).playing,
            final(self).position == old(self).position,
            final(self).same_settings(*old(self)),
            action == (if old(self).queue@.len() == 0 && final(self).queue@.len() > 0 {
                Action::PlayAt(0)
            } else {
                Action::Nothing
            }),
    {
        let more = unduplicated(&tracks, &self.queue);
        let length: usize = self.queue.len();
        let at: usize = if self.index < length {
            self.index + 1
        } else {
            length
        };
        let ghost start = self.queue@;
        proof {
            fresh_tracks_are_new(tracks@, start);
            lemma_joined_different(start, more@, at as int);
            assert(start =~= start.take(at as int) + more@.take(0) + start.skip(at as int));
        }
        let mut k: usize = 0;
        while k < more.len()
            invariant
                k <= more@.len(),
                at <= start.len(),
                self.queue@ == start.take(at as int) + more@.take(k as int) + start.skip(at as int),
                self.index == old(self).index,
                self.playing == old(self).playing,
                self.position == old(self).position,
                self.same_settings(*old(self)),
            decreases more@.len() - k,
        {
            let have: usize = self.queue.len();
            assert(have == self.queue@.len());
            self.queue.insert(at + k, more[k].clone());
            assert(self.queue@ =~= start.take(at as int) + more@.take(k + 1) + start.skip(
                at as int,
            ));
            k = k + 1;
        }
        assert(more@.take(more@.len() as int) =~= more@);
        if length == 0 && more.len() > 0 {
            Action::PlayAt(0)
        } else {
            Action::Nothing
        }
    }

    /// Empty the queue and stop.
    pub fn clear_queue(&mut self) -> (action: Action)
        ensures
            final(self).wf(),
            final(self).queue@.len() == 0,
            final(self).index == 0,
            final(self).position == (0i128, 0i128),
            !final(self).playing,
            final(self).same_settings(*old(self)),
            action == Action::Stop,
    {
        self.queue = Vec::new();
        self.index = 0;
        self.position = (0, 0);
        self.playing = false;
        Action::Stop
    }

    /// Drop one entry, keeping `index` on whatever is playing.
    ///
    /// Removing the playing track hands over to whatever slides into its
    /// place. When nothing does, it was last: playback stops and `index` stays
    /// on the track before it, which is where reaching the end of a queue
    /// leaves it too.
    pub fn remove_at(&mut self, at: usize) -> (action: Action)
        requires
            old(self).wf(),
        ensures
            final(self).wf(),
            at >= old(self).queue@.len() ==> *final(self) == *old(self) && action
                == Action::Nothing,
            at < old(self).queue@.len() ==> {
                &&& final(self).queue@ == old(self).queue@.remove(at as int)
                &&& final(self).same_settings(*old(self))
                &&& at < old(self).index ==> {
                    &&& final(self).index == old(self).index - 1
                    &&& action == Action::Nothing
                    &&& old(self).index < old(self).queue@.len() ==> final(self).queue@[final(self).index as int] == old(self).queue@[old(self).index as int]
                }
                &&& at > old(self).index ==> {
                    &&& final(self).index == old(self).index
                    &&& action == Action::Nothing
                    &&& final(self).queue@[final(self).index as int]
                        == old(self).queue@[old(self).index as int]
                }
                &&& at != old(self).index ==> final(self).playing == old(self).playing && final(self).position == old(self).position
                &&& at == old(self).index && at + 1 < old(self).queue@.len() ==> {
                    &&& final(self).index == at
                    &&& action == Action::PlayAt(at)
                    &&& final(self).playing == old(self).playing
                    &&& final(self).position == old(self).position
                }
                &&& at == old(self).index && at + 1 == old(self).queue@.len() ==> {
                    &&& final(self).index == (if at > 0 {
                        at - 1
                    } else {
                        0
                    })
                    &&& action == Action::Stop
                    &&& !final(self).playing
                    &&& final(self).position == (0i128, 0i128)
                }
            },
    {
        let length: usize = self.queue.len();
        if at >= length {
            return Action::Nothing;
        }
        let current: usize = self.index;
        let ghost before = self.queue@;
        let gone: RemoteTrack = self.queue.remove(at);
        proof {
            let now = self.queue@;
            assert forall|i: int, j: int| 0 <= i < j < now.len() implies identity_key(
                #[trigger] now[i],
            ) != identity_key(#[trigger] now[j]) by {
                let a = if i < at {
                    i
                } else {
                    i + 1
                };
                let b = if j < at {
                    j
                } else {
                    j + 1
                };
                assert(now[i] == before[a] && now[j] == before[b]);
            }
        }
        if at < current {
            // Everything below it shifted up by one, the playing track too.
            self.index = current - 1;
            Action::Nothing
        } else if at == current {
            if at < length - 1 {
                Action::PlayAt(at)
            } else {
                self.index = if at > 0 {
                    at - 1
                } else {
                    0
                };
                self.position = (0, 0);
                self.playing = false;
                Action::Stop
            }
        } else {
            Action::Nothing
        }
    }

    /// Move one entry to another position, following it with `index` if it was
    /// the one playing. This is what a drag reports. A move from or to a place
    /// that is not in the queue is ignored.
    pub fn move_to(&mut self, from: usize, to: usize)
        requires
            old(self).wf(),
        ensures
            final(self).wf(),
            ({
                let n = old(self).queue@.len();
                if from >= n || to >= n || from == to {
                    *final(self) == *old(self)
                } else {
                    &&& final(self).queue@ == moved(old(self).queue@, from as int, to as int)
                    &&& final(self).index == place_after_move(
                        old(self).index as int,
                        from as int,
                        to as int,
                    )
                    &&& old(self).index < n ==> final(self).queue@[final(self).index as int]
                        == old(self).queue@[old(self).index as int]
                    &&& final(self).playing == old(self).playing
                    &&& final(self).position == old(self).position
                    &&& final(self).same_settings(*old(self))
                }
            }),
    {
        let length: usize = self.queue.len();
        if from >= length || to >= length || from == to {
            return;
        }
        proof {
            lemma_moved_stays_different(self.queue@, from as int, to as int);
            if self.index < self.queue@.len() {
                the_moved_index_follows_its_entry(
                    self.queue@,
                    self.index as int,
                    from as int,
                    to as int,
                );
            }
        }
        let current: usize = self.index;
        let track: RemoteTrack = self.queue.remove(from);
        self.queue.insert(to, track);
        self.index = index_after_move(current, from, to);
    }

    /// Shift one entry by `delta` places, trading places with what is there,
    /// and following it with `index` if either of the two was playing.
    /// Out-of-range moves are ignored, so the ends simply do nothing.
    pub fn move_by(&mut self, at: usize, delta: i64)
        requires
            old(self).wf(),
        ensures
            final(self).wf(),
            ({
                let n = old(self).queue@.len();
                let target = at + delta;
                if at >= n || target < 0 || target >= n {
                    *final(self) == *old(self)
                } else {
                    &&& final(self).queue@ == old(self).queue@.update(
                        at as int,
                        old(self).queue@[target],
                    ).update(target, old(self).queue@[at as int])
                    &&& final(self).index == (if old(self).index == at {
                        target
                    } else if old(self).index == target {
                        at as int
                    } else {
                        old(self).index as int
                    })
                    &&& old(self).index < n ==> final(self).queue@[final(self).index as int]
                        == old(self).queue@[old(self).index as int]
                    &&& final(self).playing == old(self).playing
                    &&& final(self).position == old(self).position
                    &&& final(self).same_settings(*old(self))
                }
            }),
    {
        let length: usize = self.queue.len();
        let target: i128 = at as i128 + delta as i128;
        if at >= length || target < 0 || target >= length as i128 {
            return;
        }
        let to: usize = target as usize;
        let ghost before = self.queue@;
        let here: RemoteTrack = self.queue[at].clone();
        let there: RemoteTrack = self.queue[to].clone();
        self.queue.set(at, there);
        self.queue.set(to, here);
        proof {
            let now = self.queue@;
            assert(now =~= before.update(at as int, before[to as int]).update(
                to as int,
                before[at as int],
            ));
            assert forall|i: int, j: int| 0 <= i < j < now.len() implies identity_key(
                #[trigger] now[i],
            ) != identity_key(#[trigger] now[j]) by {
                let a = traded(i, at as int, to as int);
                let b = traded(j, at as int, to as int);
                assert(now[i] == before[a] && now[j] == before[b]);
                if a < b {
                    assert(identity_key(before[a]) != identity_key(before[b]));
                } else {
                    assert(identity_key(before[b]) != identity_key(before[a]));
                }
            }
        }
        let current: usize = self.index;
        if current == at {
            self.index = to;
        } else if current == to {
            self.index = at;
        }
    }

    // ------------------------------------------------------------- playback

    /// Step through the queue. Stops at the ends rather than wrapping, so a
    /// finished queue stays finished.
    pub fn step(&self, delta: isize) -> (action: Action)
        ensures
            action == stepped(self.queue@.len() as int, self.index as int, delta as int),
    {
        let next: i128 = self.index as i128 + delta as i128;
        if next < 0 || next >= self.queue.len() as i128 {
            Action::Nothing
        } else {
            Action::PlayAt(next as usize)
        }
    }

    /// Takes up the entry at `index`.
    ///
    /// A queue built before a block still holds the hidden artist's tracks, so
    /// those are skipped here.
    pub fn play_at(&mut self, index: usize, hidden: &HashSet<i64>) -> (play: Play)
        requires
            old(self).wf(),
        ensures
            final(self).wf(),
            final(self).queue == old(self).queue,
            index >= old(self).queue@.len() ==> play == Play::Nothing && *final(self) == *old(self),
            index < old(self).queue@.len() ==> {
                let track = old(self).queue@[index as int];
                &&& final(self).index == index
                &&& final(self).position.0 == 0
                &&& final(self).position.1 == (match track.duration {
                    Some(seconds) => seconds * SECOND,
                    None => 0,
                })
                &&& final(self).playing == old(self).playing
                &&& final(self).quality == old(self).quality
                &&& final(self).volume == old(self).volume
                &&& final(self).muted == old(self).muted
                &&& final(self).queue_open == old(self).queue_open
                &&& final(self).full_open == old(self).full_open
                &&& if !track.streamable {
                    &&& play == Play::Refused
                    &&& seen(final(self).status) == Some("“"@ + track.title@ + "” is not streamable here"@)
                } else if track.artist_id matches Some(artist) && hidden@.contains(artist) {
                    &&& play == Play::Skip(stepped(old(self).queue@.len() as int, index as int, 1))
                    &&& seen(final(self).status) == Some("skipped "@ + track.artist@)
                } else {
                    &&& play == (Play::Load { track_id: track.id, format_id: old(self).quality })
                    &&& seen(final(self).status) == Some("loading "@ + track.title@ + "…"@)
                }
            },
    {
        if index >= self.queue.len() {
            return Play::Nothing;
        }
        let track: RemoteTrack = self.queue[index].clone();
        self.index = index;
        let seconds: i64 = match track.duration {
            Some(seconds) => seconds,
            None => 0,
        };
        self.position = (0, seconds as i128 * SECOND);
        if !track.streamable {
            let mut text = joined("“", track.title.as_str());
            push_text(&mut text, "” is not streamable here");
            self.status = Some(text);
            return Play::Refused;
        }
        let skip: bool = match track.artist_id {
            Some(artist) => hidden.contains(&artist),
            None => false,
        };
        if skip {
            self.status = Some(joined("skipped ", track.artist.as_str()));
            return Play::Skip(self.step(1));
        }
        let mut text = joined("loading ", track.title.as_str());
        push_text(&mut text, "…");
        self.status = Some(text);
        Play::Load { track_id: track.id, format_id: self.quality }
    }

    /// A stream was found, or not.
    pub fn stream_found(&mut self, failed: Option<String>)
        ensures
            *final(self) == (Player { status: failed, ..*old(self) }),
    {
        self.status = failed;
    }

    /// What the play button does. Something queued but never started starts.
    pub fn toggle(&self) -> (action: Action)
        ensures
            action == (if self.playing {
                Action::Pause
            } else if self.position.1 > 0 || self.index > 0 {
                Action::Resume
            } else if self.queue@.len() > 0 {
                Action::PlayAt(self.index)
            } else {
                Action::Nothing
            }),
    {
        if self.playing {
            Action::Pause
        } else if self.position.1 > 0 || self.index > 0 {
            Action::Resume
        } else if self.queue.len() > 0 {
            Action::PlayAt(self.index)
        } else {
            Action::Nothing
        }
    }
}

spec fn traded(i: int, a: int, b: int) -> int {
    if i == a {
        b
    } else if i == b {
        a
    } else {
        i
    }
}

/// Fresh tracks put in anywhere leave no two the same.
proof fn lemma_joined_different(s: Seq<RemoteTrack>, more: Seq<RemoteTrack>, at: int)
    requires
        all_different(s),
        all_different(more),
        0 <= at <= s.len(),
        forall|i: int| 0 <= i < more.len() ==> !holds(s, identity_key(#[trigger] more[i])),
    ensures
        all_different(s.take(at) + more + s.skip(at)),
{
    let all = s.take(at) + more + s.skip(at);
    let m = more.len() as int;
    assert forall|i: int, j: int| 0 <= i < j < all.len() implies identity_key(#[trigger] all[i])
        != identity_key(#[trigger] all[j]) by {
        let i_in_more = at <= i < at + m;
        let j_in_more = at <= j < at + m;
        let si = if i < at {
            i
        } else {
            i - m
        };
        let sj = if j < at {
            j
        } else {
            j - m
        };
        if i_in_more && j_in_more {
            assert(all[i] == more[i - at] && all[j] == more[j - at]);
        } else if i_in_more {
            assert(all[i] == more[i - at] && all[j] == s[sj]);
            assert(!holds(s, identity_key(more[i - at])));
        } else if j_in_more {
            assert(all[j] == more[j - at] && all[i] == s[si]);
            assert(!holds(s, identity_key(more[j - at])));
        } else {
            assert(all[i] == s[si] && all[j] == s[sj]);
        }
    }
}

// ------------------------------------------------------------------ the page

/// What the audio element reports.
#[derive(Clone, Copy, PartialEq, Eq, Structural, Debug)]
pub enum PageEvent {
    /// Position and duration, in the units of `SECOND`.
    Time(i128, i128),
    Playing(bool),
    Ended,
    Failed,
    /// A mouse's side buttons or a keyboard's media keys.
    Previous,
    Next,
    /// Nothing to do with the queue.
    Other,
}

/// What a message from the page means.
pub open spec fn event_of(message: Json, position: i128, duration: i128) -> PageEvent {
    match text_value(member(message, "type"@)) {
        Some(kind) => if kind == "time"@ {
            PageEvent::Time(position, duration)
        } else if kind == "playing"@ {
            PageEvent::Playing(bool_value(member(message, "playing"@)) == Some(true))
        } else if kind == "ended"@ {
            PageEvent::Ended
        } else if kind == "failed"@ {
            PageEvent::Failed
        } else if kind == "transport"@ {
            match text_value(member(message, "action"@)) {
                Some(action) => if action == "previous"@ {
                    PageEvent::Previous
                } else if action == "next"@ {
                    PageEvent::Next
                } else {
                    PageEvent::Other
                },
                None => PageEvent::Other,
            }
        } else {
            PageEvent::Other
        },
        None => PageEvent::Other,
    }
}

/// Reads a message from the page. `position` and `duration` are the times it
/// carries, nothing where it carries none.
pub fn read_event(message: &Json, position: i128, duration: i128) -> (event: PageEvent)
    ensures
        event == event_of(*message, position, duration),
{
    let kind: &str = match message.get("type") {
        Some(Json::Text(kind)) => kind.as_str(),
        _ => return PageEvent::Other,
    };
    if same(kind, "time") {
        PageEvent::Time(position, duration)
    } else if same(kind, "playing") {
        PageEvent::Playing(match message.flag("playing") {
            Some(playing) => playing,
            None => false,
        })
    } else if same(kind, "ended") {
        PageEvent::Ended
    } else if same(kind, "failed") {
        PageEvent::Failed
    } else if same(kind, "transport") {
        match message.get("action") {
            Some(Json::Text(action)) => if same(action.as_str(), "previous") {
                PageEvent::Previous
            } else if same(action.as_str(), "next") {
                PageEvent::Next
            } else {
                PageEvent::Other
            },
            _ => PageEvent::Other,
        }
    } else {
        PageEvent::Other
    }
}

impl Player {
    /// Folds an event of the page back into the player. Moving on at the end
    /// of a track lives here.
    pub fn handle(&mut self, event: PageEvent) -> (action: Action)
        ensures
            final(self).queue == old(self).queue,
            final(self).index == old(self).index,
            match event {
                PageEvent::Time(position, duration) => action == Action::Nothing && *final(self) == (
                Player { position: (position, duration), ..*old(self) }),
                PageEvent::Playing(playing) => action == Action::Nothing && *final(self) == (
                Player { playing, ..*old(self) }),
                PageEvent::Ended => if old(self).index + 1 < old(self).queue@.len() {
                    action == Action::PlayAt((old(self).index + 1) as usize) && *final(self)
                        == *old(self)
                } else {
                    action == Action::Nothing && *final(self) == (Player {
                        playing: false,
                        ..*old(self)
                    })
                },
                PageEvent::Failed => {
                    &&& action == Action::Nothing
                    &&& old(self).queue@.len() == 0 ==> *final(self) == *old(self)
                    &&& old(self).queue@.len() > 0 ==> {
                        &&& *final(self) == (Player { status: final(self).status, ..*old(self) })
                        &&& seen(final(self).status) == Some(
                            "playback failed, the stream URL may have expired"@,
                        )
                    }
                },
                PageEvent::Previous => *final(self) == *old(self) && action == stepped(
                    old(self).queue@.len() as int,
                    old(self).index as int,
                    -1,
                ),
                PageEvent::Next => *final(self) == *old(self) && action == stepped(
                    old(self).queue@.len() as int,
                    old(self).index as int,
                    1,
                ),
                PageEvent::Other => *final(self) == *old(self) && action == Action::Nothing,
            },
    {
        match event {
            PageEvent::Time(position, duration) => {
                self.position = (position, duration);
                Action::Nothing
            },
            PageEvent::Playing(playing) => {
                self.playing = playing;
                Action::Nothing
            },
            PageEvent::Ended => if self.index < self.queue.len() && self.index + 1
                < self.queue.len() {
                Action::PlayAt(self.index + 1)
            } else {
                self.playing = false;
                Action::Nothing
            },
            PageEvent::Failed => {
                // Only where it was not this side that took the stream away.
                if self.queue.len() > 0 {
                    self.status = Some(
                        "playback failed, the stream URL may have expired".to_owned(),
                    );
                }
                Action::Nothing
            },
            PageEvent::Previous => self.step(-1),
            PageEvent::Next => self.step(1),
            PageEvent::Other => Action::Nothing,
        }
    }

    /// The level to play at. Muting plays at nothing rather than changing the
    /// volume, so unmuting restores the slider without a second copy.
    pub fn level(&self) -> (level: u32)
        ensures
            level == (if self.muted {
                0
            } else {
                self.volume
            }),
    {
        if self.muted {
            0
        } else {
            self.volume
        }
    }

    pub fn toggle_mute(&mut self)
        ensures
            *final(self) == (Player { muted: !old(self).muted, ..*old(self) }),
    {
        self.muted = !self.muted;
    }

    /// Drags the volume slider. An unambiguous request to hear something: any
    /// level above nothing unmutes.
    pub fn set_volume(&mut self, percent: i64)
        ensures
            *final(self) == (Player {
                volume: if percent < 0 {
                    0
                } else if percent > 100 {
                    100
                } else {
                    percent as u32
                },
                muted: old(self).muted && percent <= 0,
                ..*old(self)
            }),
    {
        self.volume = if percent < 0 {
            0
        } else if percent > 100 {
            100
        } else {
            percent as u32
        };
        if percent > 0 {
            self.muted = false;
        }
    }

    /// Opens or closes the queue drawer.
    pub fn toggle_queue(&mut self)
        ensures
            *final(self) == (Player { queue_open: !old(self).queue_open, ..*old(self) }),
    {
        self.queue_open = !self.queue_open;
    }

    /// From the full screen to the drawer: the one closes as the other opens,
    /// rather than stacking.
    pub fn full_to_queue(&mut self)
        ensures
            *final(self) == (Player { full_open: false, queue_open: true, ..*old(self) }),
    {
        self.full_open = false;
        self.queue_open = true;
    }
}

// ------------------------------------------------------------------- scripts

/// The script that plays a URL, with a fallback for a page that has not
/// installed its own.
pub open spec fn play_script_text(url: Seq<char>) -> Seq<char> {
    "(window.twoKhzPlayUrl || function (u) { var p = document.getElementById('player'); if (p) { p.src = u; p.play(); } })("@
        + json_string(url) + ");"@
}

pub fn play_script(url: &str) -> (script: String)
    ensures
        script@ == play_script_text(url@),
{
    let mut script = joined(
        "(window.twoKhzPlayUrl || function (u) { var p = document.getElementById('player'); if (p) { p.src = u; p.play(); } })(",
        quoted(url).as_str(),
    );
    push_text(&mut script, ");");
    script
}

/// A text that may be missing, as it is written into a script.
pub open spec fn quoted_or_null(text: Option<Seq<char>>) -> Seq<char> {
    match text {
        Some(t) => json_string(t),
        None => "null"@,
    }
}

/// What the system shows as "now playing".
pub open spec fn metadata_text(track: RemoteTrack) -> Seq<char> {
    called(
        "twoKhzSetMetadata"@,
        json_string(track.title@) + ", "@ + json_string(track.artist@) + ", "@ + json_string(
            track.album@,
        ) + ", "@ + quoted_or_null(seen(track.image)),
    )
}

pub fn metadata_script(track: &RemoteTrack) -> (script: String)
    ensures
        script@ == metadata_text(*track),
{
    let mut arguments = joined(quoted(track.title.as_str()).as_str(), ", ");
    push_text(&mut arguments, quoted(track.artist.as_str()).as_str());
    push_text(&mut arguments, ", ");
    push_text(&mut arguments, quoted(track.album.as_str()).as_str());
    push_text(&mut arguments, ", ");
    match &track.image {
        Some(url) => push_text(&mut arguments, quoted(url.as_str()).as_str()),
        None => push_text(&mut arguments, "null"),
    }
    call("twoKhzSetMetadata", arguments.as_str())
}

/// The script for an action that is only the page's to take.
pub fn transport_script(action: Action) -> (script: Option<String>)
    ensures
        seen(script) == (match action {
            Action::Stop => Some(called("twoKhzStop"@, Seq::empty())),
            Action::Pause => Some(called("twoKhzPause"@, Seq::empty())),
            Action::Resume => Some(called("twoKhzResume"@, Seq::empty())),
            _ => None,
        }),
{
    proof {
        reveal_strlit("");
        assert(""@ =~= Seq::empty());
    }
    match action {
        Action::Stop => Some(call("twoKhzStop", "")),
        Action::Pause => Some(call("twoKhzPause", "")),
        Action::Resume => Some(call("twoKhzResume", "")),
        _ => None,
    }
}

// ----------------------------------------------------------------- the bar

/// The player bar, and the full screen it opens into.
pub struct Bar {
    pub has_current: bool,
    pub can_go_back: bool,
    pub can_play: bool,
    pub can_go_on: bool,
    pub play_glyph: &'static str,
    /// How long the track is, in the units of `SECOND`.
    pub total: i128,
    pub can_seek: bool,
    pub position_label: String,
    pub total_label: String,
    pub mute_title: &'static str,
    pub mute_glyph: &'static str,
    pub queue_label: String,
    pub can_open_queue: bool,
}

/// Where in the queue playback stands, or just "queue".
pub open spec fn queue_place(player: Player) -> Seq<char> {
    if player.queue@.len() > 0 {
        digits((player.index + 1) as nat) + "/"@ + digits(player.queue@.len())
    } else {
        "queue"@
    }
}

/// The audio element's own duration is authoritative once it has loaded; the
/// catalogue's fills the gap before that.
pub open spec fn total_time(player: Player) -> int {
    if player.position.1 > 0 {
        player.position.1 as int
    } else if player.index < player.queue@.len() {
        match player.queue@[player.index as int].duration {
            Some(seconds) => seconds * SECOND,
            None => 0,
        }
    } else {
        0
    }
}

impl Bar {
    pub open spec fn shows(self, player: Player) -> bool {
        let n = player.queue@.len();
        &&& self.has_current == (player.index < n)
        &&& self.can_go_back == (player.index > 0 && n > 0)
        &&& self.can_play == (n > 0)
        &&& self.can_go_on == (player.index + 1 < n)
        &&& self.play_glyph@ == (if player.playing {
            "⏸"@
        } else {
            "▶"@
        })
        &&& self.total == total_time(player)
        &&& self.can_seek == (total_time(player) > 0)
        &&& self.position_label@ == clock_text(player.position.0 as int)
        &&& self.total_label@ == clock_text(total_time(player))
        &&& self.mute_title@ == (if player.muted {
            "unmute"@
        } else {
            "mute"@
        })
        &&& self.mute_glyph@ == (if player.muted || player.volume == 0 {
            "🔇"@
        } else {
            "🔊"@
        })
        &&& self.queue_label@ == queue_place(player)
        &&& self.can_open_queue == (n > 0)
    }
}

impl Player {
    pub fn bar(&self) -> (bar: Bar)
        ensures
            bar.shows(*self),
    {
        let n: usize = self.queue.len();
        let total: i128 = if self.position.1 > 0 {
            self.position.1
        } else {
            match self.current() {
                Some(track) => match track.duration {
                    Some(seconds) => seconds as i128 * SECOND,
                    None => 0,
                },
                None => 0,
            }
        };
        let queue_label = if n > 0 {
            let mut label = joined(decimal(self.index as u128 + 1).as_str(), "/");
            push_text(&mut label, decimal(n as u128).as_str());
            label
        } else {
            "queue".to_owned()
        };
        Bar {
            has_current: self.index < n,
            can_go_back: self.index > 0 && n > 0,
            can_play: n > 0,
            can_go_on: self.index < n && n - self.index > 1,
            play_glyph: if self.playing {
                "⏸"
            } else {
                "▶"
            },
            total,
            can_seek: total > 0,
            position_label: clock(self.position.0),
            total_label: clock(total),
            mute_title: if self.muted {
                "unmute"
            } else {
                "mute"
            },
            mute_glyph: if self.muted || self.volume == 0 {
                "🔇"
            } else {
                "🔊"
            },
            queue_label,
            can_open_queue: n > 0,
        }
    }

    /// The full "now playing" screen, where it is open. It closes itself once
    /// nothing is left to show on it.
    pub fn full_view(&mut self) -> (view: Option<Bar>)
        ensures
            view is Some <==> old(self).full_open && old(self).index < old(self).queue@.len(),
            view matches Some(bar) ==> bar.shows(*old(self)) && *final(self) == *old(self),
            view is None ==> *final(self) == (Player { full_open: false, ..*old(self) }),
    {
        if !self.full_open {
            return None;
        }
        if self.index >= self.queue.len() {
            self.full_open = false;
            return None;
        }
        Some(self.bar())
    }
}

/// A quality the picker offers, and whether it is the one in use.
pub fn qualities(player: &Player) -> (options: Vec<(u32, &'static str, bool)>)
    ensures
        options@.len() == 3,
        forall|i: int|
            0 <= i < 3 ==> {
                let format = FORMAT_MP3_320 + i;
                &&& (#[trigger] options@[i]).0 == format
                &&& options@[i].1@ == quality_word(format as u32)
                &&& options@[i].2 == (player.quality == format)
            },
{
    let mut options: Vec<(u32, &'static str, bool)> = Vec::new();
    let mut format: u32 = FORMAT_MP3_320;
    while format <= FORMAT_FLAC_HIRES
        invariant
            FORMAT_MP3_320 <= format <= FORMAT_FLAC_HIRES + 1,
            options@.len() == format - FORMAT_MP3_320,
            forall|i: int|
                0 <= i < options@.len() ==> {
                    let format = FORMAT_MP3_320 + i;
                    &&& (#[trigger] options@[i]).0 == format
                    &&& options@[i].1@ == quality_word(format as u32)
                    &&& options@[i].2 == (player.quality == format)
                },
        decreases FORMAT_FLAC_HIRES + 1 - format,
    {
        options.push((format, quality_label(format), player.quality == format));
        format = format + 1;
    }
    options
}

} // verus!
