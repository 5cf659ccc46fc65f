//! The detail sheet: a track, an album or an artist, and everything you can do
//! with it.

use crate::db::Catalog;
use crate::json::seen;
use crate::paths::{Navigator, UNIT};
use crate::qobuz::{RemoteAlbum, RemoteArtist, RemoteTrack};
use crate::space::Space;
use crate::strings::{
    decimal, decimal_signed, digits, joined, pieces, pieces_of, push_text, same, signed_digits,
    trim, trim_of, views,
};
use crate::ui::generate::{describe, heading, label_for, track_label, Generator, Mode};
use crate::ui::library::Library;
use crate::ui::menu::{offers, plain, Choice, MenuItem, Offer};
use std::collections::HashSet;
use vstd::prelude::*;

verus! {

broadcast use vstd::std_specs::hash::group_hash_axioms;

// ------------------------------------------------------------------- tempo

/// The nearest whole number of units, and the even one of two as near.
pub open spec fn nearest_whole(size: nat) -> nat {
    let whole = size / (UNIT as nat);
    let over = size % (UNIT as nat);
    if 2 * over > UNIT || (2 * over == UNIT && whole % 2 == 1) {
        whole + 1
    } else {
        whole
    }
}

/// A tempo as it is shown.
pub open spec fn tempo_text(bpm: int) -> Seq<char> {
    (if bpm < 0 {
        "-"@ + digits(nearest_whole((-bpm) as nat))
    } else {
        digits(nearest_whole(bpm as nat))
    }) + " bpm"@
}

/// A tempo in the units of `UNIT`, to the nearest beat.
pub fn tempo_label(bpm: i64) -> (text: String)
    ensures
        text@ == tempo_text(bpm as int),
{
    let size: u64 = if bpm < 0 {
        (-(bpm as i128)) as u64
    } else {
        bpm as u64
    };
    let unit: u64 = 268_435_456;
    let whole: u64 = size / unit;
    let over: u64 = size % unit;
    let nearest: u64 = if 2 * over > unit || (2 * over == unit && whole % 2 == 1) {
        whole + 1
    } else {
        whole
    };
    let number = decimal(nearest as u128);
    let mut text = if bpm < 0 {
        joined("-", number.as_str())
    } else {
        number
    };
    push_text(&mut text, " bpm");
    text
}

/// A space track's tempo, the one thing a catalogue track does not carry: it
/// only ever exists once a track has been through the pipeline.
pub fn space_bpm(nav: &Navigator, track_id: i64) -> (bpm: Option<i64>)
    requires
        nav.wf(),
    ensures
        bpm == (if nav.index_of@.contains_key(track_id) {
            nav.catalog.tracks@[nav.index_of@[track_id] as int].bpm
        } else {
            None
        }),
{
    match nav.index_of.get(&track_id) {
        Some(row) => nav.catalog.get(*row).bpm,
        None => None,
    }
}

// ----------------------------------------------------------------- credits

/// The credits a credit string lists.
pub open spec fn credits_of(parts: Seq<Seq<char>>) -> Seq<Seq<char>>
    decreases parts.len(),
{
    if parts.len() == 0 {
        Seq::empty()
    } else {
        let rest = credits_of(parts.drop_last());
        let credit = trim_of(parts.last());
        if credit.len() == 0 {
            rest
        } else {
            rest.push(credit)
        }
    }
}

/// A credit string, split and printed rather than reparsed: its exact grammar
/// is not something to lean on.
pub fn credits(performers: &Option<String>) -> (out: Vec<String>)
    ensures
        views(out@) == (match *performers {
            Some(text) => credits_of(pieces_of(text@, ';')),
            None => Seq::empty(),
        }),
{
    let mut out: Vec<String> = Vec::new();
    match performers {
        Some(text) => {
            let parts = pieces(text.as_str(), ';');
            let ghost all = pieces_of(text@, ';');
            let mut i: usize = 0;
            assert(views(out@) =~= Seq::empty());
            assert(all.take(0) =~= Seq::empty());
            while i < parts.len()
                invariant
                    i <= parts@.len(),
                    views(parts@) == all,
                    all.len() == parts@.len(),
                    views(out@) == credits_of(all.take(i as int)),
                decreases parts@.len() - i,
            {
                assert(all.take(i + 1).drop_last() =~= all.take(i as int));
                assert(all.take(i + 1).last() == parts@[i as int]@);
                let credit = trim(parts[i].as_str());
                if !credit.as_str().is_empty() {
                    let ghost before = out@;
                    out.push(credit);
                    assert(views(out@) =~= views(before).push(credit@));
                }
                i = i + 1;
            }
            assert(all.take(all.len() as int) =~= all);
        },
        None => {
            assert(views(out@) =~= Seq::empty());
        },
    }
    out
}

/// No credit listed is blank, or has blanks around it.
pub proof fn no_credit_is_blank(parts: Seq<Seq<char>>)
    ensures
        forall|i: int|
            0 <= i < credits_of(parts).len() ==> (#[trigger] credits_of(parts)[i]).len() > 0,
    decreases parts.len(),
{
    if parts.len() > 0 {
        let rest = credits_of(parts.drop_last());
        let all = credits_of(parts);
        no_credit_is_blank(parts.drop_last());
        assert forall|i: int| 0 <= i < all.len() implies (#[trigger] all[i]).len() > 0 by {
            if i < rest.len() {
                assert(all[i] == rest[i]);
            }
        }
    }
}

// ------------------------------------------------------------------ badges

fn add_badge(badges: &mut Vec<String>, text: String)
    ensures
        views(final(badges)@) == views(old(badges)@).push(text@),
{
    let ghost before = badges@;
    badges.push(text);
    assert(views(badges@) =~= views(before).push(text@));
}

pub open spec fn one_or_none(text: Option<Seq<char>>) -> Seq<Seq<char>> {
    match text {
        Some(text) => seq![text],
        None => Seq::empty(),
    }
}

/// What is worth knowing about a track at a glance.
pub open spec fn track_badges_of(track: RemoteTrack, in_space: bool, bpm: Option<i64>) -> Seq<
    Seq<char>,
> {
    one_or_none(
        if in_space {
            Some("in your space"@)
        } else {
            None
        },
    ) + one_or_none(
        match bpm {
            Some(bpm) => Some(tempo_text(bpm as int)),
            None => None,
        },
    ) + one_or_none(seen(track.released)) + one_or_none(
        if track.streamable {
            None
        } else {
            Some("not streamable here"@)
        },
    )
}

pub fn track_badges(track: &RemoteTrack, in_space: bool, bpm: Option<i64>) -> (badges: Vec<String>)
    ensures
        views(badges@) == track_badges_of(*track, in_space, bpm),
{
    let mut badges: Vec<String> = Vec::new();
    assert(views(badges@) =~= Seq::empty());
    if in_space {
        add_badge(&mut badges, "in your space".to_owned());
    }
    if let Some(bpm) = bpm {
        add_badge(&mut badges, tempo_label(bpm));
    }
    if let Some(released) = &track.released {
        add_badge(&mut badges, released.clone());
    }
    if !track.streamable {
        add_badge(&mut badges, "not streamable here".to_owned());
    }
    assert(views(badges@) =~= track_badges_of(*track, in_space, bpm));
    badges
}

/// What is worth knowing about an album at a glance.
pub open spec fn album_badges_of(album: RemoteAlbum) -> Seq<Seq<char>> {
    one_or_none(
        match album.tracks_count {
            Some(count) => Some(signed_digits(count as int) + " tracks"@),
            None => None,
        },
    ) + one_or_none(seen(album.genre)) + one_or_none(seen(album.label))
}

pub fn album_badges(album: &RemoteAlbum) -> (badges: Vec<String>)
    ensures
        views(badges@) == album_badges_of(*album),
{
    let mut badges: Vec<String> = Vec::new();
    assert(views(badges@) =~= Seq::empty());
    if let Some(count) = album.tracks_count {
        add_badge(&mut badges, joined(decimal_signed(count).as_str(), " tracks"));
    }
    if let Some(genre) = &album.genre {
        add_badge(&mut badges, genre.clone());
    }
    if let Some(label) = &album.label {
        add_badge(&mut badges, label.clone());
    }
    assert(views(badges@) =~= album_badges_of(*album));
    badges
}

/// How many albums an artist has, where that is known.
pub fn albums_label(artist: &RemoteArtist) -> (label: Option<String>)
    ensures
        seen(label) == (match artist.albums_count {
            Some(count) => Some(signed_digits(count as int) + " albums"@),
            None => None,
        }),
{
    match artist.albums_count {
        Some(count) => Some(joined(decimal_signed(count).as_str(), " albums")),
        None => None,
    }
}

// ------------------------------------------------------------------- verbs

/// The walks a track's sheet offers.
pub open spec fn verb_offers(from: Option<i64>, to: Option<i64>, id: i64) -> Seq<Offer> {
    seq![
        plain(Choice::Neighbours, "Find neighbours"@),
        plain(Choice::Radio, "Start radio"@),
        Offer {
            disabled: from == Some(id),
            ..plain(
                Choice::PathA,
                if to is Some && from != Some(id) {
                    "Path A, go"@
                } else {
                    "Path A"@
                },
            )
        },
        Offer {
            disabled: to == Some(id),
            ..plain(
                Choice::PathB,
                if from is Some && to != Some(id) {
                    "Path B, go"@
                } else {
                    "Path B"@
                },
            )
        },
        plain(Choice::Drift, "Drift from here"@),
    ]
}

pub fn verbs(generator: &Generator, id: i64) -> (items: Vec<MenuItem>)
    ensures
        offers(items@) == verb_offers(generator.from, generator.to, id),
{
    let at_a: bool = match generator.from {
        Some(from) => from == id,
        None => false,
    };
    let at_b: bool = match generator.to {
        Some(to) => to == id,
        None => false,
    };
    let a = if generator.to.is_some() && !at_a {
        "Path A, go"
    } else {
        "Path A"
    };
    let b = if generator.from.is_some() && !at_b {
        "Path B, go"
    } else {
        "Path B"
    };
    let items = vec![
        verb(Choice::Neighbours, "Find neighbours", false),
        verb(Choice::Radio, "Start radio", false),
        verb(Choice::PathA, a, at_a),
        verb(Choice::PathB, b, at_b),
        verb(Choice::Drift, "Drift from here", false),
    ];
    assert(offers(items@) =~= verb_offers(generator.from, generator.to, id));
    items
}

fn verb(choice: Choice, label: &str, disabled: bool) -> (item: MenuItem)
    ensures
        item.offer() == (Offer { disabled, ..plain(choice, label@) }),
{
    MenuItem { choice, label: label.to_owned(), disabled, danger: false, ruled: false }
}

/// What a track's sheet shows besides the track's own text.
#[derive(Debug, PartialEq)]
pub struct TrackSheet {
    pub in_space: bool,
    pub liked: bool,
    /// Left out where the track has none.
    pub album: Option<String>,
    pub badges: Vec<String>,
    pub credits: Vec<String>,
    /// Only offered once the space actually has coordinates to walk from.
    pub verbs: Vec<MenuItem>,
    /// Who can be hidden from here, by id and name.
    pub hide: Option<(i64, String)>,
}

pub fn track_sheet(
    track: &RemoteTrack,
    library: &Library,
    local: &HashSet<i64>,
    nav: &Navigator,
    generator: &Generator,
) -> (sheet: TrackSheet)
    requires
        nav.wf(),
    ensures
        sheet.in_space == local@.contains(track.id),
        sheet.liked == library.likes_track(track.id),
        seen(sheet.album) == (if track.album@.len() == 0 {
            None
        } else {
            Some(track.album@)
        }),
        views(sheet.badges@) == track_badges_of(
            *track,
            sheet.in_space,
            if sheet.in_space && nav.index_of@.contains_key(track.id) {
                nav.catalog.tracks@[nav.index_of@[track.id] as int].bpm
            } else {
                None
            },
        ),
        views(sheet.credits@) == (match track.performers {
            Some(text) => credits_of(pieces_of(text@, ';')),
            None => Seq::empty(),
        }),
        offers(sheet.verbs@) == (if sheet.in_space {
            verb_offers(generator.from, generator.to, track.id)
        } else {
            Seq::empty()
        }),
        sheet.hide == (match track.artist_id {
            Some(id) => Some((id, track.artist)),
            None => None,
        }),
{
    let in_space: bool = local.contains(&track.id);
    let bpm: Option<i64> = if in_space {
        space_bpm(nav, track.id)
    } else {
        None
    };
    let items: Vec<MenuItem> = if in_space {
        verbs(generator, track.id)
    } else {
        Vec::new()
    };
    assert(!in_space ==> offers(items@) =~= Seq::empty());
    TrackSheet {
        in_space,
        liked: library.is_liked_track(track.id),
        album: if track.album.as_str().is_empty() {
            None
        } else {
            Some(track.album.clone())
        },
        badges: track_badges(track, in_space, bpm),
        credits: credits(&track.performers),
        verbs: items,
        hide: match track.artist_id {
            Some(id) => Some((id, track.artist.clone())),
            None => None,
        },
    }
}

/// Generate, the path's ends and the map all read the selection, not the sheet.
/// A sheet opened on a track of the space selects it, however it was opened.
pub fn sync_selection(selection: &mut Option<i64>, track_id: i64, in_space: bool)
    ensures
        *final(selection) == (if in_space {
            Some(track_id)
        } else {
            *old(selection)
        }),
{
    if in_space {
        *selection = Some(track_id);
    }
}

/// What stands where an album's tracklist or an artist's discography will,
/// given how many there are once they are here.
pub fn list_message(count: Option<usize>) -> (message: Option<&'static str>)
    ensures
        match message {
            Some(text) => match count {
                None => text@ == "loading…"@,
                Some(n) => n == 0 && text@ == "nothing here"@,
            },
            None => count matches Some(n) && n > 0,
        },
{
    match count {
        None => Some("loading…"),
        Some(n) => if n == 0 {
            Some("nothing here")
        } else {
            None
        },
    }
}

// ------------------------------------------------------------------- likes

/// The heart: its label and what pressing it would do.
pub fn heart(artist: bool, liked: bool) -> (out: (&'static str, &'static str))
    ensures
        out.0@ == (match (artist, liked) {
            (true, true) => "♥ Following"@,
            (true, false) => "♡ Follow"@,
            (false, true) => "♥ Liked"@,
            (false, false) => "♡ Like"@,
        }),
        out.1@ == (match (artist, liked) {
            (true, true) => "unfollow"@,
            (true, false) => "follow"@,
            (false, true) => "unlike"@,
            (false, false) => "like"@,
        }),
{
    if artist {
        if liked {
            ("♥ Following", "unfollow")
        } else {
            ("♡ Follow", "follow")
        }
    } else if liked {
        ("♥ Liked", "unlike")
    } else {
        ("♡ Like", "like")
    }
}

/// The account answered a like or an unlike. Where it took it the cached
/// favourites follow, and the heart is the confirmation; where it did not,
/// this is what to say.
pub fn toggled_like(
    library: &mut Library,
    kind: &str,
    id: &str,
    currently_liked: bool,
    failed: Option<String>,
) -> (status: Option<String>)
    ensures
        status == failed,
        failed is Some ==> *final(library) == *old(library),
        failed is None ==> {
            &&& *final(library) == (Library { liked: final(library).liked, ..*old(library) })
            &&& final(library).liked is Some <==> old(library).liked is Some
            &&& forall|n: i64| #[trigger]
                final(library).likes_track(n) <==> (if kind@ == "track"@
                    && crate::strings::number_of(id@) == Some(n as int) && old(
                    library,
                ).liked is Some {
                    !currently_liked
                } else {
                    old(library).likes_track(n)
                })
            &&& forall|s: Seq<char>| #[trigger]
                final(library).likes_album(s) <==> (if kind@ == "album"@ && s == id@ && old(
                    library,
                ).liked is Some {
                    !currently_liked
                } else {
                    old(library).likes_album(s)
                })
            &&& forall|n: i64| #[trigger]
                final(library).likes_artist(n) <==> (if kind@ == "artist"@
                    && crate::strings::number_of(id@) == Some(n as int) && old(
                    library,
                ).liked is Some {
                    !currently_liked
                } else {
                    old(library).likes_artist(n)
                })
        },
{
    match failed {
        Some(message) => Some(message),
        None => {
            library.set_liked(kind, id, !currently_liked);
            None
        },
    }
}

// ---------------------------------------------------------------- generate

/// The name a result is exported under.
pub fn export_name(count: usize) -> (name: String)
    ensures
        name@ == "two_khz ("@ + digits(count as nat) + " tracks)"@,
{
    let mut name = joined("two_khz (", decimal(count as u128).as_str());
    push_text(&mut name, " tracks)");
    name
}

/// What is said of an export once it is done.
pub fn exported(result: Result<i64, String>) -> (status: String)
    ensures
        status@ == (match result {
            Ok(id) => "exported as playlist "@ + signed_digits(id as int),
            Err(message) => message@,
        }),
{
    match result {
        Ok(id) => joined("exported as playlist ", decimal_signed(id).as_str()),
        Err(message) => message,
    }
}

/// Which inputs and actions the generator shows.
#[derive(Debug, PartialEq)]
pub struct Controls {
    pub mode: Mode,
    /// A path's two ends, by name, while a path is being made.
    pub ends: Option<(String, String)>,
    pub ends_settable: bool,
    /// Drift cannot be had: say what it needs.
    pub needs_tower: bool,
    pub phrase: bool,
    pub penalty: bool,
    pub count: bool,
    pub can_run: bool,
    pub run_label: &'static str,
    /// Play, export and clear have nothing to act on.
    pub empty: bool,
    /// What made the rows below, where something did.
    pub heading: Option<String>,
    pub regenerate: bool,
}

pub fn controls(
    generator: &Generator,
    catalog: &Catalog,
    selected: Option<i64>,
    has_audio_embeddings: bool,
) -> (controls: Controls)
    ensures
        controls.mode == generator.mode,
        match controls.ends {
            Some(ends) => generator.mode == Mode::Path && ends.0@ == track_label(
                *catalog,
                generator.from,
            ) && ends.1@ == track_label(*catalog, generator.to),
            None => generator.mode != Mode::Path,
        },
        controls.ends_settable == (selected is Some),
        controls.needs_tower == (generator.mode == Mode::Drift && !(generator.tower
            && has_audio_embeddings)),
        controls.phrase == (generator.mode == Mode::Drift),
        controls.penalty == (generator.mode == Mode::Radio),
        controls.count == (generator.mode != Mode::Path || generator.even),
        controls.can_run == (generator.is_ready(selected) && !generator.busy),
        controls.run_label@ == (if generator.busy {
            "working…"@
        } else {
            "generate"@
        }),
        controls.empty == (generator.result@.len() == 0),
        seen(controls.heading) == (match generator.produced_by {
            Some(recipe) => Some(heading(*catalog, recipe)),
            None => None,
        }),
        controls.regenerate == (generator.produced_by is Some && generator.stale),
{
    Controls {
        mode: generator.mode,
        ends: if generator.mode == Mode::Path {
            Some((label_for(catalog, generator.from), label_for(catalog, generator.to)))
        } else {
            None
        },
        ends_settable: selected.is_some(),
        needs_tower: generator.mode == Mode::Drift && !generator.can_steer(has_audio_embeddings),
        phrase: generator.mode == Mode::Drift,
        penalty: generator.mode == Mode::Radio,
        count: generator.mode != Mode::Path || generator.even,
        can_run: generator.ready(selected) && !generator.busy,
        run_label: if generator.busy {
            "working…"
        } else {
            "generate"
        },
        empty: generator.result.len() == 0,
        heading: match &generator.produced_by {
            Some(recipe) => Some(describe(catalog, recipe)),
            None => None,
        },
        regenerate: generator.produced_by.is_some() && generator.stale,
    }
}

// ----------------------------------------------------------------- weights

/// The weight filed under a name, the first one where there are more.
pub open spec fn weight_named(weights: Seq<(String, u32)>, name: Seq<char>) -> Option<u32>
    decreases weights.len(),
{
    if weights.len() == 0 {
        None
    } else {
        match weight_named(weights.drop_last(), name) {
            Some(bits) => Some(bits),
            None => if weights.last().0@ == name {
                Some(weights.last().1)
            } else {
                None
            },
        }
    }
}

proof fn lemma_the_first_weight_stands(weights: Seq<(String, u32)>, name: Seq<char>, n: int)
    requires
        0 <= n <= weights.len(),
        weight_named(weights.take(n), name) is Some,
    ensures
        weight_named(weights, name) == weight_named(weights.take(n), name),
    decreases weights.len(),
{
    if n == weights.len() {
        assert(weights.take(n) =~= weights);
    } else {
        assert(weights.drop_last().take(n) =~= weights.take(n));
        lemma_the_first_weight_stands(weights.drop_last(), name, n);
    }
}

pub fn weight(weights: &[(String, u32)], name: &str) -> (bits: Option<u32>)
    ensures
        bits == weight_named(weights@, name@),
{
    let mut i: usize = 0;
    assert(weights@.take(0) =~= Seq::empty());
    while i < weights.len()
        invariant
            i <= weights@.len(),
            weight_named(weights@.take(i as int), name@) is None,
        decreases weights@.len() - i,
    {
        assert(weights@.take(i + 1).drop_last() =~= weights@.take(i as int));
        assert(weights@.take(i + 1).last() == weights@[i as int]);
        if same(weights[i].0.as_str(), name) {
            proof {
                lemma_the_first_weight_stands(weights@, name@, i + 1);
            }
            return Some(weights[i].1);
        }
        i = i + 1;
    }
    assert(weights@.take(weights@.len() as int) =~= weights@);
    None
}

/// Moves one weight, or files it where there is none of that name.
pub fn set_weight(weights: &mut Vec<(String, u32)>, name: &str, bits: u32)
    ensures
        forall|n: Seq<char>| #[trigger]
            weight_named(final(weights)@, n) == (if n == name@ {
                Some(bits)
            } else {
                weight_named(old(weights)@, n)
            }),
{
    let mut kept: Vec<(String, u32)> = Vec::new();
    let mut i: usize = 0;
    assert(weights@.take(0) =~= Seq::empty());
    while i < weights.len()
        invariant
            weights@ == old(weights)@,
            i <= weights@.len(),
            forall|n: Seq<char>| #[trigger]
                weight_named(kept@, n) == (if n == name@ {
                    None
                } else {
                    weight_named(weights@.take(i as int), n)
                }),
        decreases weights@.len() - i,
    {
        let ghost before = kept@;
        let ghost now = weights@.take(i + 1);
        assert(now.drop_last() =~= weights@.take(i as int));
        assert(now.last() == weights@[i as int]);
        if !same(weights[i].0.as_str(), name) {
            kept.push((weights[i].0.clone(), weights[i].1));
            assert(kept@.drop_last() =~= before);
        }
        assert forall|n: Seq<char>| #[trigger] weight_named(kept@, n) == (if n == name@ {
            None
        } else {
            weight_named(now, n)
        }) by {
            assert(weight_named(before, n) == (if n == name@ {
                None
            } else {
                weight_named(now.drop_last(), n)
            }));
        }
        i = i + 1;
    }
    assert(weights@.take(weights@.len() as int) =~= weights@);
    let ghost before = kept@;
    kept.push((name.to_owned(), bits));
    assert(kept@.drop_last() =~= before);
    assert forall|n: Seq<char>| #[trigger] weight_named(kept@, n) == (if n == name@ {
        Some(bits)
    } else {
        weight_named(weights@, n)
    }) by {
        assert(weight_named(before, n) == (if n == name@ {
            None
        } else {
            weight_named(weights@, n)
        }));
    }
    *weights = kept;
}

/// Some weight the space was built with has been moved off its value.
pub open spec fn moved_off<F: Fn(u32, u32) -> bool>(
    defaults: Seq<(String, u32)>,
    current: Seq<(String, u32)>,
    differs: F,
    i: int,
) -> bool {
    weight_named(current, defaults[i].0@) matches Some(bits) && differs.ensures(
        (bits, defaults[i].1),
        true,
    )
}

pub open spec fn left_alone<F: Fn(u32, u32) -> bool>(
    defaults: Seq<(String, u32)>,
    current: Seq<(String, u32)>,
    differs: F,
    i: int,
) -> bool {
    weight_named(current, defaults[i].0@) matches Some(bits) ==> differs.ensures(
        (bits, defaults[i].1),
        false,
    )
}

/// Whether anything has moved off the values the space was built with. Drives
/// the reset button, so it is never offered for nothing. `differs` says of two
/// weights, by their 32-bit patterns, whether they count as different.
pub fn weights_changed<F: Fn(u32, u32) -> bool>(
    defaults: &[(String, u32)],
    current: &[(String, u32)],
    differs: F,
) -> (changed: bool)
    requires
        forall|a: u32, b: u32| #[trigger] differs.requires((a, b)),
    ensures
        changed ==> exists|i: int|
            0 <= i < defaults@.len() && #[trigger] moved_off(defaults@, current@, differs, i),
        !changed ==> forall|i: int|
            0 <= i < defaults@.len() ==> #[trigger] left_alone(defaults@, current@, differs, i),
{
    let mut i: usize = 0;
    while i < defaults.len()
        invariant
            i <= defaults@.len(),
            forall|a: u32, b: u32| #[trigger] differs.requires((a, b)),
            forall|k: int|
                0 <= k < i ==> #[trigger] left_alone(defaults@, current@, differs, k),
        decreases defaults@.len() - i,
    {
        match weight(current, defaults[i].0.as_str()) {
            Some(bits) => {
                if differs(bits, defaults[i].1) {
                    assert(moved_off(defaults@, current@, differs, i as int));
                    return true;
                }
                assert(left_alone(defaults@, current@, differs, i as int));
            },
            None => {
                assert(left_alone(defaults@, current@, differs, i as int));
            },
        }
        i = i + 1;
    }
    false
}

/// The names of the space's blocks, in order.
pub fn engine_block_names(space: &Space) -> (names: Vec<String>)
    ensures
        names@.len() == space.manifest.blocks@.len(),
        forall|i: int|
            0 <= i < names@.len() ==> (#[trigger] names@[i]) == space.manifest.blocks@[i].name,
{
    let mut names: Vec<String> = Vec::new();
    while names.len() < space.manifest.blocks.len()
        invariant
            names@.len() <= space.manifest.blocks@.len(),
            forall|i: int|
                0 <= i < names@.len() ==> (#[trigger] names@[i]) == space.manifest.blocks@[i].name,
        decreases space.manifest.blocks@.len() - names@.len(),
    {
        let name = space.manifest.blocks[names.len()].name.clone();
        names.push(name);
    }
    names
}

// ------------------------------------------------------------ the path pill

/// A reminder that a path is half-built: the first end, and its name. Only
/// while the other end is missing; with both known it has already run.
pub fn path_pill(generator: &Generator, catalog: &Catalog) -> (pill: Option<(i64, String)>)
    ensures
        match pill {
            Some(shown) => generator.from == Some(shown.0) && generator.to is None && shown.1@
                == track_label(*catalog, generator.from),
            None => generator.from is None || generator.to is Some,
        },
{
    match (generator.from, generator.to) {
        (Some(from), None) => Some((from, label_for(catalog, Some(from)))),
        _ => None,
    }
}

/// Gives a half-built path up.
pub fn cancel_path(generator: &mut Generator)
    ensures
        *final(generator) == (Generator { from: None, ..*old(generator) }),
{
    generator.from = None;
}

// --------------------------------------------------------- the selected track

/// What the pane for the selected track shows.
pub enum Pane {
    /// An empty state rather than nothing: the column keeps its width.
    Message(&'static str),
    Track {
        title: String,
        artist: String,
        album: Option<String>,
        album_id: String,
        bpm: Option<String>,
        verbs: Vec<MenuItem>,
    },
}

pub fn detail_pane(nav: &Navigator, generator: &Generator, selected: Option<i64>) -> (pane: Pane)
    requires
        nav.wf(),
    ensures
        match selected {
            None => pane matches Pane::Message(text) && text@
                == "Select a track to see it here, and to walk the space from it."@,
            Some(id) => if !nav.index_of@.contains_key(id) {
                pane matches Pane::Message(text) && text@
                    == "That track is no longer in the space."@
            } else {
                let meta = nav.catalog.tracks@[nav.index_of@[id] as int];
                pane matches Pane::Track { title, artist, album, album_id, bpm, verbs } && title
                    == meta.title && artist == meta.artist && seen(album) == (
                if meta.album@.len() == 0 {
                    None
                } else {
                    Some(meta.album@)
                }) && album_id == meta.album_id && seen(bpm) == (match meta.bpm {
                    Some(bpm) => Some(tempo_text(bpm as int)),
                    None => None,
                }) && offers(verbs@) == verb_offers(generator.from, generator.to, id).take(4)
            },
        },
{
    let id = match selected {
        Some(id) => id,
        None => {
            return Pane::Message("Select a track to see it here, and to walk the space from it.");
        },
    };
    let row: usize = match nav.index_of.get(&id) {
        Some(row) => *row,
        None => {
            return Pane::Message("That track is no longer in the space.");
        },
    };
    let meta = nav.catalog.get(row);
    let mut items = verbs(generator, id);
    let ghost all = items@;
    items.truncate(4);
    assert(offers(items@) =~= offers(all).take(4));
    Pane::Track {
        title: meta.title.clone(),
        artist: meta.artist.clone(),
        album: if meta.album.as_str().is_empty() {
            None
        } else {
            Some(meta.album.clone())
        },
        album_id: meta.album_id.clone(),
        bpm: match meta.bpm {
            Some(bpm) => Some(tempo_label(bpm)),
            None => None,
        },
        verbs: items,
    }
}

} // verus!
