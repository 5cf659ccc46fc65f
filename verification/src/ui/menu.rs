//! Row actions, as one context menu instead of a chip per verb.
//!
//! Rows are named by index into the list they are drawn from, not by a captured
//! copy. An index is only meaningful against the list it came from, so the menu
//! re-reads that list when an item is chosen, and does nothing if the row has
//! since gone.

use crate::paths::Navigator;
use crate::qobuz::RemoteTrack;
use crate::strings::{
    a_written_number_reads_back, decimal, decimal_signed, digits, joined, number_of, parse_i64,
    parse_usize, pieces, pieces_of, push_text, same, signed_digits, views,
};
use crate::ui::context::{space_track, Blocklist};
use crate::ui::generate::{presents, Generator, Mode, PathEnd};
use crate::ui::library::{Shelf, View};
use crate::ui::player::Player;
use std::collections::HashSet;
use vstd::prelude::*;
use vstd::view::View as _;

verus! {

broadcast use vstd::std_specs::hash::group_hash_axioms;

/// What the menu was opened on.
#[derive(Clone, Copy, PartialEq, Eq, Structural, Debug)]
pub enum MenuTarget {
    /// A track in the shelf, by index into the *visible* tracks.
    ShelfTrack(usize),
    ShelfAlbum(usize),
    ShelfArtist { index: usize, similar: bool },
    /// A track in the play queue, by queue position.
    QueueEntry(usize),
    /// A row of a generated sequence, which exists in the space but was never
    /// browsed, so it is named by track id rather than by position.
    SpaceTrack(i64),
}

/// A row's address as text.
pub open spec fn tag_of(target: MenuTarget) -> Seq<char> {
    match target {
        MenuTarget::ShelfTrack(index) => "shelf-track:"@ + digits(index as nat),
        MenuTarget::ShelfAlbum(index) => "shelf-album:"@ + digits(index as nat),
        MenuTarget::ShelfArtist { index, similar } => "shelf-artist:"@ + digits(index as nat)
            + ":"@ + (if similar {
            "similar"@
        } else {
            "main"@
        }),
        MenuTarget::QueueEntry(index) => "queue:"@ + digits(index as nat),
        MenuTarget::SpaceTrack(track_id) => "space-track:"@ + signed_digits(track_id as int),
    }
}

/// A place in a list, as it is written.
pub open spec fn place_in(text: Seq<char>) -> Option<usize> {
    match number_of(text) {
        Some(n) => if text[0] != '-' && n <= usize::MAX {
            Some(n as usize)
        } else {
            None
        },
        None => None,
    }
}

/// A track id, as it is written.
pub open spec fn id_in(text: Seq<char>) -> Option<i64> {
    match number_of(text) {
        Some(n) => if i64::MIN <= n <= i64::MAX {
            Some(n as i64)
        } else {
            None
        },
        None => None,
    }
}

/// The row a text is the address of, where it is one.
pub open spec fn target_of(text: Seq<char>) -> Option<MenuTarget> {
    let parts = pieces_of(text, ':');
    if parts.len() < 2 {
        None
    } else if parts[0] == "shelf-track"@ {
        match place_in(parts[1]) {
            Some(index) => Some(MenuTarget::ShelfTrack(index)),
            None => None,
        }
    } else if parts[0] == "shelf-album"@ {
        match place_in(parts[1]) {
            Some(index) => Some(MenuTarget::ShelfAlbum(index)),
            None => None,
        }
    } else if parts[0] == "shelf-artist"@ {
        match place_in(parts[1]) {
            Some(index) => if parts.len() < 3 {
                None
            } else if parts[2] == "similar"@ {
                Some(MenuTarget::ShelfArtist { index, similar: true })
            } else if parts[2] == "main"@ {
                Some(MenuTarget::ShelfArtist { index, similar: false })
            } else {
                None
            },
            None => None,
        }
    } else if parts[0] == "queue"@ {
        match place_in(parts[1]) {
            Some(index) => Some(MenuTarget::QueueEntry(index)),
            None => None,
        }
    } else if parts[0] == "space-track"@ {
        match id_in(parts[1]) {
            Some(id) => Some(MenuTarget::SpaceTrack(id)),
            None => None,
        }
    } else {
        None
    }
}

impl MenuTarget {
    /// The row's address as a string.
    ///
    /// A long press is detected in the page, whose dataset holds nothing but
    /// text, so this is the only route from a pressed element back to the
    /// enum. `parse` is its inverse.
    pub fn tag(&self) -> (text: String)
        ensures
            text@ == tag_of(*self),
    {
        match self {
            MenuTarget::ShelfTrack(index) => joined(
                "shelf-track:",
                decimal(*index as u128).as_str(),
            ),
            MenuTarget::ShelfAlbum(index) => joined(
                "shelf-album:",
                decimal(*index as u128).as_str(),
            ),
            MenuTarget::ShelfArtist { index, similar } => {
                let mut text = joined("shelf-artist:", decimal(*index as u128).as_str());
                push_text(&mut text, ":");
                if *similar {
                    push_text(&mut text, "similar");
                } else {
                    push_text(&mut text, "main");
                }
                text
            },
            MenuTarget::QueueEntry(index) => joined("queue:", decimal(*index as u128).as_str()),
            MenuTarget::SpaceTrack(track_id) => joined(
                "space-track:",
                decimal_signed(*track_id).as_str(),
            ),
        }
    }

    pub fn parse(text: &str) -> (target: Option<Self>)
        ensures
            target == target_of(text@),
    {
        let parts = pieces(text, ':');
        let ghost all = pieces_of(text@, ':');
        assert(views(parts@) == all);
        assert(all.len() == parts@.len());
        if parts.len() < 2 {
            return None;
        }
        assert(all[0] == parts@[0]@ && all[1] == parts@[1]@);
        let kind = parts[0].as_str();
        let value = parts[1].as_str();
        if same(kind, "shelf-track") {
            match parse_usize(value) {
                Some(index) => Some(MenuTarget::ShelfTrack(index)),
                None => None,
            }
        } else if same(kind, "shelf-album") {
            match parse_usize(value) {
                Some(index) => Some(MenuTarget::ShelfAlbum(index)),
                None => None,
            }
        } else if same(kind, "shelf-artist") {
            match parse_usize(value) {
                Some(index) => {
                    if parts.len() < 3 {
                        return None;
                    }
                    assert(all[2] == parts@[2]@);
                    let which = parts[2].as_str();
                    if same(which, "similar") {
                        Some(MenuTarget::ShelfArtist { index, similar: true })
                    } else if same(which, "main") {
                        Some(MenuTarget::ShelfArtist { index, similar: false })
                    } else {
                        None
                    }
                },
                None => None,
            }
        } else if same(kind, "queue") {
            match parse_usize(value) {
                Some(index) => Some(MenuTarget::QueueEntry(index)),
                None => None,
            }
        } else if same(kind, "space-track") {
            match parse_i64(value) {
                Some(id) => Some(MenuTarget::SpaceTrack(id)),
                None => None,
            }
        } else {
            None
        }
    }
}

// ------------------------------------------------------------ the round trip

pub open spec fn free_of(s: Seq<char>, sep: char) -> bool {
    forall|i: int| 0 <= i < s.len() ==> #[trigger] s[i] != sep
}

/// Text without a separator only lengthens the last piece.
proof fn lemma_pieces_lengthen(a: Seq<char>, b: Seq<char>, sep: char)
    requires
        free_of(b, sep),
    ensures
        ({
            let rest = pieces_of(a, sep);
            pieces_of(a + b, sep) == rest.update(rest.len() - 1, rest.last() + b)
        }),
    decreases b.len(),
{
    let rest = pieces_of(a, sep);
    crate::strings::pieces_are_never_none(a, sep);
    if b.len() == 0 {
        assert(a + b =~= a);
        assert(rest.last() + b =~= rest.last());
        assert(rest.update(rest.len() - 1, rest.last() + b) =~= rest);
    } else {
        let less = b.drop_last();
        assert(free_of(less, sep)) by {
            assert forall|i: int| 0 <= i < less.len() implies #[trigger] less[i] != sep by {
                assert(less[i] == b[i]);
            }
        }
        lemma_pieces_lengthen(a, less, sep);
        assert((a + b).drop_last() =~= a + less);
        assert(b[b.len() - 1] == b.last());
        let so_far = rest.update(rest.len() - 1, rest.last() + less);
        assert((rest.last() + less).push(b.last()) =~= rest.last() + b);
        assert(so_far.update(so_far.len() - 1, so_far.last().push(b.last())) =~= rest.update(
            rest.len() - 1,
            rest.last() + b,
        ));
    }
}

/// A kind and a value with a separator between them come apart again.
proof fn lemma_two_pieces(kind: Seq<char>, value: Seq<char>, sep: char)
    requires
        free_of(kind, sep),
        free_of(value, sep),
    ensures
        pieces_of(kind.push(sep) + value, sep) == seq![kind, value],
{
    let none = Seq::<char>::empty();
    lemma_pieces_lengthen(none, kind, sep);
    assert(none + kind =~= kind);
    assert(pieces_of(kind, sep) =~= seq![kind]);
    assert(kind.push(sep).drop_last() =~= kind);
    assert(pieces_of(kind.push(sep), sep) =~= seq![kind, none]);
    lemma_pieces_lengthen(kind.push(sep), value, sep);
    assert(none + value =~= value);
    assert(seq![kind, none].update(1, value) =~= seq![kind, value]);
}

proof fn lemma_three_pieces(kind: Seq<char>, value: Seq<char>, which: Seq<char>, sep: char)
    requires
        free_of(kind, sep),
        free_of(value, sep),
        free_of(which, sep),
    ensures
        pieces_of((kind.push(sep) + value).push(sep) + which, sep) == seq![kind, value, which],
{
    let two = kind.push(sep) + value;
    let none = Seq::<char>::empty();
    lemma_two_pieces(kind, value, sep);
    assert(two.push(sep).drop_last() =~= two);
    assert(pieces_of(two.push(sep), sep) =~= seq![kind, value, none]);
    lemma_pieces_lengthen(two.push(sep), which, sep);
    assert(none + which =~= which);
    assert(seq![kind, value, none].update(2, which) =~= seq![kind, value, which]);
}

proof fn lemma_a_place_reads_back(n: nat)
    requires
        n <= usize::MAX,
    ensures
        free_of(digits(n), ':'),
        place_in(digits(n)) == Some(n as usize),
{
    a_written_number_reads_back(n as int);
    crate::strings::digits_read_back(n);
    assert forall|i: int| 0 <= i < digits(n).len() implies #[trigger] digits(n)[i] != ':' by {
        assert(crate::strings::is_digit(digits(n)[i]));
    }
    assert(crate::strings::is_digit(digits(n)[0]));
}

proof fn lemma_an_id_reads_back(n: i64)
    ensures
        free_of(signed_digits(n as int), ':'),
        id_in(signed_digits(n as int)) == Some(n),
{
    a_written_number_reads_back(n as int);
    let size: nat = if n < 0 {
        (-(n as int)) as nat
    } else {
        n as nat
    };
    crate::strings::digits_read_back(size);
    let text = signed_digits(n as int);
    assert forall|i: int| 0 <= i < text.len() implies #[trigger] text[i] != ':' by {
        if n < 0 {
            if i > 0 {
                assert(text[i] == digits(size)[i - 1]);
                assert(crate::strings::is_digit(digits(size)[i - 1]));
            }
        } else {
            assert(crate::strings::is_digit(digits(size)[i]));
        }
    }
}

/// The kinds a row's address begins with, spelled out.
proof fn lemma_kinds()
    ensures
        "shelf-track:"@ == "shelf-track"@.push(':'),
        "shelf-album:"@ == "shelf-album"@.push(':'),
        "shelf-artist:"@ == "shelf-artist"@.push(':'),
        "queue:"@ == "queue"@.push(':'),
        "space-track:"@ == "space-track"@.push(':'),
        ":"@ == seq![':'],
        free_of("shelf-track"@, ':'),
        free_of("shelf-album"@, ':'),
        free_of("shelf-artist"@, ':'),
        free_of("queue"@, ':'),
        free_of("space-track"@, ':'),
        free_of("similar"@, ':'),
        free_of("main"@, ':'),
{
    reveal_strlit("shelf-track:");
    reveal_strlit("shelf-album:");
    reveal_strlit("shelf-artist:");
    reveal_strlit("queue:");
    reveal_strlit("space-track:");
    reveal_strlit(":");
    reveal_strlit("shelf-track");
    reveal_strlit("shelf-album");
    reveal_strlit("shelf-artist");
    reveal_strlit("queue");
    reveal_strlit("space-track");
    reveal_strlit("similar");
    reveal_strlit("main");
    assert("shelf-track:"@ =~= "shelf-track"@.push(':'));
    assert("shelf-album:"@ =~= "shelf-album"@.push(':'));
    assert("shelf-artist:"@ =~= "shelf-artist"@.push(':'));
    assert("queue:"@ =~= "queue"@.push(':'));
    assert("space-track:"@ =~= "space-track"@.push(':'));
    assert(":"@ =~= seq![':']);
}

proof fn lemma_kinds_differ()
    ensures
        "shelf-track"@ != "shelf-album"@,
        "shelf-track"@ != "shelf-artist"@,
        "shelf-album"@ != "shelf-artist"@,
        "queue"@ != "shelf-track"@,
        "queue"@ != "shelf-album"@,
        "queue"@ != "shelf-artist"@,
        "space-track"@ != "shelf-track"@,
        "space-track"@ != "shelf-album"@,
        "space-track"@ != "shelf-artist"@,
        "space-track"@ != "queue"@,
        "similar"@ != "main"@,
{
    reveal_strlit("shelf-track");
    reveal_strlit("shelf-album");
    reveal_strlit("shelf-artist");
    reveal_strlit("queue");
    reveal_strlit("space-track");
    reveal_strlit("similar");
    reveal_strlit("main");
    assert("shelf-artist"@.len() == 12 && "shelf-track"@.len() == 11 && "shelf-album"@.len() == 11);
    assert("space-track"@.len() == 11 && "queue"@.len() == 5);
    assert("similar"@.len() == 7 && "main"@.len() == 4);
    assert("shelf-track"@[6] != "shelf-album"@[6]);
    assert("space-track"@[1] != "shelf-track"@[1]);
    assert("space-track"@[1] != "shelf-album"@[1]);
}

/// An address of two parts is read by its kind and its value.
proof fn lemma_address(text: Seq<char>, kind: Seq<char>, value: Seq<char>)
    requires
        text == kind.push(':') + value,
        free_of(kind, ':'),
        free_of(value, ':'),
    ensures
        pieces_of(text, ':').len() == 2,
        pieces_of(text, ':')[0] == kind,
        pieces_of(text, ':')[1] == value,
{
    lemma_two_pieces(kind, value, ':');
}

proof fn lemma_artist_reads_back(index: usize, similar: bool)
    ensures
        target_of(tag_of(MenuTarget::ShelfArtist { index, similar })) == Some(
            MenuTarget::ShelfArtist { index, similar },
        ),
{
    let value = digits(index as nat);
    let which = if similar {
        "similar"@
    } else {
        "main"@
    };
    let tag = tag_of(MenuTarget::ShelfArtist { index, similar });
    let parts = pieces_of(tag, ':');
    assert(parts == seq!["shelf-artist"@, value, which] && place_in(value) == Some(index)) by {
        let two = "shelf-artist"@.push(':') + value;
        lemma_kinds();
        lemma_a_place_reads_back(index as nat);
        lemma_three_pieces("shelf-artist"@, value, which, ':');
        assert(tag =~= two.push(':') + which);
    }
    assert(parts.len() == 3);
    assert(parts[0] == "shelf-artist"@ && parts[1] == value && parts[2] == which);
    lemma_kinds_differ();
}

/// Every row's address reads back as that row. A row whose address did not
/// would be one whose long press does nothing.
pub proof fn every_address_reads_back(target: MenuTarget)
    ensures
        target_of(tag_of(target)) == Some(target),
{
    let tag = tag_of(target);
    lemma_kinds_differ();
    match target {
        MenuTarget::ShelfTrack(index) => {
            lemma_kinds();
            lemma_a_place_reads_back(index as nat);
            lemma_address(tag, "shelf-track"@, digits(index as nat));
        },
        MenuTarget::ShelfAlbum(index) => {
            lemma_kinds();
            lemma_a_place_reads_back(index as nat);
            lemma_address(tag, "shelf-album"@, digits(index as nat));
        },
        MenuTarget::ShelfArtist { index, similar } => {
            lemma_artist_reads_back(index, similar);
        },
        MenuTarget::QueueEntry(index) => {
            lemma_kinds();
            lemma_a_place_reads_back(index as nat);
            lemma_address(tag, "queue"@, digits(index as nat));
        },
        MenuTarget::SpaceTrack(track_id) => {
            lemma_kinds();
            lemma_an_id_reads_back(track_id);
            lemma_address(tag, "space-track"@, signed_digits(track_id as int));
        },
    }
}

// ---------------------------------------------------------------- the items

/// What a menu item does.
#[derive(Clone, Copy, PartialEq, Eq, Structural, Debug)]
pub enum Choice {
    Open,
    PlayNow,
    PlayNext,
    AddToQueue,
    ShowOnMap,
    Neighbours,
    Radio,
    PathA,
    PathB,
    Drift,
    Fetch,
    Hide,
    MoveUp,
    MoveDown,
    Remove,
    ClearQueue,
}

#[derive(Debug, PartialEq)]
pub struct MenuItem {
    pub choice: Choice,
    pub label: String,
    pub disabled: bool,
    pub danger: bool,
    /// A rule stands above this item.
    pub ruled: bool,
}

/// What an item says.
pub struct Offer {
    pub choice: Choice,
    pub label: Seq<char>,
    pub disabled: bool,
    pub danger: bool,
    pub ruled: bool,
}

impl MenuItem {
    pub open spec fn offer(self) -> Offer {
        Offer {
            choice: self.choice,
            label: self.label@,
            disabled: self.disabled,
            danger: self.danger,
            ruled: self.ruled,
        }
    }
}

pub open spec fn offers(items: Seq<MenuItem>) -> Seq<Offer> {
    Seq::new(items.len(), |i: int| items[i].offer())
}

pub open spec fn plain(choice: Choice, label: Seq<char>) -> Offer {
    Offer { choice, label, disabled: false, danger: false, ruled: false }
}

pub open spec fn under_rule(offer: Offer) -> Offer {
    Offer { ruled: true, ..offer }
}

pub open spec fn dangerous(choice: Choice, label: Seq<char>) -> Offer {
    Offer { choice, label, disabled: false, danger: true, ruled: false }
}

fn add_item(
    items: &mut Vec<MenuItem>,
    choice: Choice,
    label: String,
    disabled: bool,
    danger: bool,
    ruled: bool,
)
    ensures
        offers(final(items)@) == offers(old(items)@).push(
            Offer { choice, label: label@, disabled, danger, ruled },
        ),
{
    let ghost before = items@;
    items.push(MenuItem { choice, label, disabled, danger, ruled });
    assert(offers(items@) =~= offers(before).push(
        Offer { choice, label: label@, disabled, danger, ruled },
    ));
}

/// The four ways to walk the space from a track, as things you ask for. Path's
/// second end is only worth offering once a first one exists, and naming A
/// twice is how you get a path from a track to itself.
pub open spec fn generation_offers(
    from: Option<i64>,
    to: Option<i64>,
    id: i64,
    ruled: bool,
) -> Seq<Offer> {
    seq![
        Offer { ruled, ..plain(Choice::Neighbours, "Find neighbours"@) },
        plain(Choice::Radio, "Start radio here"@),
        Offer {
            disabled: from == Some(id),
            ..plain(
                Choice::PathA,
                if to is Some && from != Some(id) {
                    "Set as path A, and go"@
                } else {
                    "Set as path A"@
                },
            )
        },
        Offer {
            disabled: to == Some(id),
            ..plain(
                Choice::PathB,
                if from is Some && to != Some(id) {
                    "Set as path B, and go"@
                } else {
                    "Set as path B"@
                },
            )
        },
        plain(Choice::Drift, "Drift from here…"@),
    ]
}

fn add_generation(items: &mut Vec<MenuItem>, generator: &Generator, id: i64, ruled: bool)
    ensures
        offers(final(items)@) == offers(old(items)@) + generation_offers(
            generator.from,
            generator.to,
            id,
            ruled,
        ),
{
    let at_a: bool = match generator.from {
        Some(from) => from == id,
        None => false,
    };
    let at_b: bool = match generator.to {
        Some(to) => to == id,
        None => false,
    };
    add_item(items, Choice::Neighbours, "Find neighbours".to_owned(), false, false, ruled);
    add_item(items, Choice::Radio, "Start radio here".to_owned(), false, false, false);
    let a = if generator.to.is_some() && !at_a {
        "Set as path A, and go".to_owned()
    } else {
        "Set as path A".to_owned()
    };
    add_item(items, Choice::PathA, a, at_a, false, false);
    let b = if generator.from.is_some() && !at_b {
        "Set as path B, and go".to_owned()
    } else {
        "Set as path B".to_owned()
    };
    add_item(items, Choice::PathB, b, at_b, false, false);
    add_item(items, Choice::Drift, "Drift from here…".to_owned(), false, false, false);
    assert(offers(items@) =~= offers(old(items)@) + generation_offers(
        generator.from,
        generator.to,
        id,
        ruled,
    ));
}

/// An open menu: a heading and its items.
#[derive(Debug, PartialEq)]
pub struct Menu {
    pub title: String,
    pub artist: Option<String>,
    pub items: Vec<MenuItem>,
}

impl Menu {
    pub open spec fn reads(
        self,
        title: Seq<char>,
        artist: Option<Seq<char>>,
        items: Seq<Offer>,
    ) -> bool {
        &&& self.title@ == title
        &&& crate::json::seen(self.artist) == artist
        &&& offers(self.items@) == items
    }
}

pub open spec fn hide_offer(artist_id: Option<i64>, artist: Seq<char>, ruled: bool) -> Seq<Offer> {
    if artist_id is Some {
        seq![Offer { ruled, ..dangerous(Choice::Hide, "Hide "@ + artist) }]
    } else {
        Seq::empty()
    }
}

/// The items for a track of the shelf. The space's own verbs only for tracks
/// it actually holds: the rest of the catalogue has no coordinates, so there
/// is nothing to walk away from.
pub open spec fn shelf_track_offers(
    track: RemoteTrack,
    in_space: bool,
    from: Option<i64>,
    to: Option<i64>,
) -> Seq<Offer> {
    seq![
        plain(Choice::PlayNow, "Play now"@),
        plain(Choice::PlayNext, "Play next"@),
        plain(Choice::AddToQueue, "Add to queue"@),
    ] + (if in_space {
        seq![under_rule(plain(Choice::ShowOnMap, "Show on the map"@))] + generation_offers(
            from,
            to,
            track.id,
            false,
        )
    } else {
        Seq::empty()
    }) + hide_offer(track.artist_id, track.artist@, true)
}

fn add_hide(items: &mut Vec<MenuItem>, artist_id: Option<i64>, artist: &str, ruled: bool)
    ensures
        offers(final(items)@) == offers(old(items)@) + hide_offer(artist_id, artist@, ruled),
{
    match artist_id {
        Some(_) => {
            add_item(items, Choice::Hide, joined("Hide ", artist), false, true, ruled);
        },
        None => {},
    }
    assert(offers(items@) =~= offers(old(items)@) + hide_offer(artist_id, artist@, ruled));
}

pub fn shelf_track_menu(
    shelf: &Shelf,
    blocked: &Blocklist,
    in_space: &HashSet<i64>,
    generator: &Generator,
    index: usize,
) -> (menu: Option<Menu>)
    ensures
        ({
            let rows = shelf.shown_tracks(*blocked);
            match menu {
                Some(menu) => index < rows.len() && menu.reads(
                    rows[index as int].title@,
                    Some(rows[index as int].artist@),
                    shelf_track_offers(
                        rows[index as int],
                        in_space@.contains(rows[index as int].id),
                        generator.from,
                        generator.to,
                    ),
                ),
                None => index >= rows.len(),
            }
        }),
{
    let rows = shelf.visible_tracks(blocked);
    if index >= rows.len() {
        return None;
    }
    let track = &rows[index];
    let here: bool = in_space.contains(&track.id);
    let mut items: Vec<MenuItem> = Vec::new();
    assert(offers(items@) =~= Seq::empty());
    add_item(&mut items, Choice::PlayNow, "Play now".to_owned(), false, false, false);
    add_item(&mut items, Choice::PlayNext, "Play next".to_owned(), false, false, false);
    add_item(&mut items, Choice::AddToQueue, "Add to queue".to_owned(), false, false, false);
    if here {
        add_item(&mut items, Choice::ShowOnMap, "Show on the map".to_owned(), false, false, true);
        add_generation(&mut items, generator, track.id, false);
    }
    add_hide(&mut items, track.artist_id, track.artist.as_str(), true);
    assert(offers(items@) =~= shelf_track_offers(
        *track,
        here,
        generator.from,
        generator.to,
    ));
    Some(Menu { title: track.title.clone(), artist: Some(track.artist.clone()), items })
}

pub open spec fn shelf_album_offers(artist_id: Option<i64>, artist: Seq<char>) -> Seq<Offer> {
    seq![
        plain(Choice::Open, "Open"@),
        plain(Choice::PlayNow, "Play now"@),
        plain(Choice::PlayNext, "Play next"@),
        plain(Choice::AddToQueue, "Add to queue"@),
        under_rule(plain(Choice::Fetch, "Fetch into catalogue"@)),
    ] + hide_offer(artist_id, artist, false)
}

pub fn shelf_album_menu(shelf: &Shelf, blocked: &Blocklist, index: usize) -> (menu: Option<Menu>)
    ensures
        ({
            let rows = shelf.shown_albums(*blocked);
            match menu {
                Some(menu) => index < rows.len() && menu.reads(
                    rows[index as int].title@,
                    Some(rows[index as int].artist@),
                    shelf_album_offers(rows[index as int].artist_id, rows[index as int].artist@),
                ),
                None => index >= rows.len(),
            }
        }),
{
    let rows = shelf.visible_albums(blocked);
    if index >= rows.len() {
        return None;
    }
    let album = &rows[index];
    let mut items: Vec<MenuItem> = Vec::new();
    assert(offers(items@) =~= Seq::empty());
    add_item(&mut items, Choice::Open, "Open".to_owned(), false, false, false);
    add_item(&mut items, Choice::PlayNow, "Play now".to_owned(), false, false, false);
    add_item(&mut items, Choice::PlayNext, "Play next".to_owned(), false, false, false);
    add_item(&mut items, Choice::AddToQueue, "Add to queue".to_owned(), false, false, false);
    add_item(&mut items, Choice::Fetch, "Fetch into catalogue".to_owned(), false, false, true);
    add_hide(&mut items, album.artist_id, album.artist.as_str(), false);
    assert(offers(items@) =~= shelf_album_offers(album.artist_id, album.artist@));
    Some(Menu { title: album.title.clone(), artist: Some(album.artist.clone()), items })
}

pub open spec fn shelf_artist_offers() -> Seq<Offer> {
    seq![
        plain(Choice::Open, "Open"@),
        plain(Choice::Fetch, "Fetch discography"@),
        under_rule(dangerous(Choice::Hide, "Hide everywhere"@)),
    ]
}

pub fn shelf_artist_menu(shelf: &Shelf, blocked: &Blocklist, index: usize, similar: bool) -> (menu:
    Option<Menu>)
    ensures
        ({
            let rows = shelf.shown_artists(*blocked, similar);
            match menu {
                Some(menu) => index < rows.len() && menu.reads(
                    rows[index as int].name@,
                    None,
                    shelf_artist_offers(),
                ),
                None => index >= rows.len(),
            }
        }),
{
    let rows = shelf.visible_artists(blocked, similar);
    if index >= rows.len() {
        return None;
    }
    let mut items: Vec<MenuItem> = Vec::new();
    assert(offers(items@) =~= Seq::empty());
    add_item(&mut items, Choice::Open, "Open".to_owned(), false, false, false);
    add_item(&mut items, Choice::Fetch, "Fetch discography".to_owned(), false, false, false);
    add_item(&mut items, Choice::Hide, "Hide everywhere".to_owned(), false, true, true);
    assert(offers(items@) =~= shelf_artist_offers());
    Some(Menu { title: rows[index].name.clone(), artist: None, items })
}

/// The items for a track of the queue. The one playing cannot be started.
pub open spec fn queue_offers(index: int, total: int, playing: bool) -> Seq<Offer> {
    (if playing {
        Seq::empty()
    } else {
        seq![plain(Choice::PlayNow, "Play now"@)]
    }) + seq![
        Offer { disabled: index == 0, ..plain(Choice::MoveUp, "Move up"@) },
        Offer { disabled: index + 1 >= total, ..plain(Choice::MoveDown, "Move down"@) },
        under_rule(dangerous(Choice::Remove, "Remove from queue"@)),
        dangerous(Choice::ClearQueue, "Clear the queue"@),
    ]
}

pub fn queue_menu(player: &Player, index: usize) -> (menu: Option<Menu>)
    ensures
        match menu {
            Some(menu) => index < player.queue@.len() && menu.reads(
                player.queue@[index as int].title@,
                Some(player.queue@[index as int].artist@),
                queue_offers(
                    index as int,
                    player.queue@.len() as int,
                    player.index == index,
                ),
            ),
            None => index >= player.queue@.len(),
        },
{
    let total: usize = player.queue.len();
    if index >= total {
        return None;
    }
    let mut items: Vec<MenuItem> = Vec::new();
    assert(offers(items@) =~= Seq::empty());
    if player.index != index {
        add_item(&mut items, Choice::PlayNow, "Play now".to_owned(), false, false, false);
    }
    add_item(&mut items, Choice::MoveUp, "Move up".to_owned(), index == 0, false, false);
    add_item(&mut items, Choice::MoveDown, "Move down".to_owned(), index >= total - 1, false, false);
    add_item(&mut items, Choice::Remove, "Remove from queue".to_owned(), false, true, true);
    add_item(&mut items, Choice::ClearQueue, "Clear the queue".to_owned(), false, true, false);
    assert(offers(items@) =~= queue_offers(index as int, total as int, player.index == index));
    let track = &player.queue[index];
    Some(Menu { title: track.title.clone(), artist: Some(track.artist.clone()), items })
}

/// The items for a track of the space: asking for a walk through the space
/// should look like asking.
pub open spec fn space_track_offers(from: Option<i64>, to: Option<i64>, id: i64) -> Seq<Offer> {
    seq![
        plain(Choice::ShowOnMap, "Show on the map"@),
        plain(Choice::PlayNext, "Play next"@),
        plain(Choice::AddToQueue, "Add to queue"@),
    ] + generation_offers(from, to, id, true)
}

pub fn space_track_menu(nav: &Navigator, generator: &Generator, track_id: i64) -> (menu: Option<
    Menu,
>)
    requires
        nav.wf(),
    ensures
        match menu {
            Some(menu) => nav.index_of@.contains_key(track_id) && ({
                let track = nav.catalog.tracks@[nav.index_of@[track_id] as int];
                menu.reads(
                    track.title@,
                    Some(track.artist@),
                    space_track_offers(generator.from, generator.to, track_id),
                )
            }),
            None => !nav.index_of@.contains_key(track_id),
        },
{
    let track = match space_track(nav, track_id) {
        Some(track) => track,
        None => {
            return None;
        },
    };
    let mut items: Vec<MenuItem> = Vec::new();
    assert(offers(items@) =~= Seq::empty());
    add_item(&mut items, Choice::ShowOnMap, "Show on the map".to_owned(), false, false, false);
    add_item(&mut items, Choice::PlayNext, "Play next".to_owned(), false, false, false);
    add_item(&mut items, Choice::AddToQueue, "Add to queue".to_owned(), false, false, false);
    add_generation(&mut items, generator, track_id, true);
    assert(offers(items@) =~= space_track_offers(generator.from, generator.to, track_id));
    Some(Menu { title: track.title, artist: Some(track.artist), items })
}

// --------------------------------------------------------------- the choice

/// What to do with an album's tracks once they are here.
#[derive(Clone, Copy, PartialEq, Eq, Structural, Debug)]
pub enum Playback {
    Now,
    Next,
    Later,
}

/// What choosing an item comes to.
#[derive(Debug, PartialEq)]
pub enum Intent {
    Nothing,
    Play { queue: Vec<RemoteTrack>, index: usize },
    PlayNext { track: RemoteTrack },
    Enqueue { track: RemoteTrack },
    /// Select the track and browse the map: this is one track, so nothing is
    /// dimmed and the rest of the space stays legible.
    ShowOnMap { id: i64 },
    Open { view: View },
    /// An album row carries no tracklist; it has to be fetched first.
    AlbumTracks { album: String, then_play: Playback },
    FetchAlbum { album: String, label: String },
    FetchArtist { id: i64, label: String },
    Hide { artist_id: i64, name: String },
    PlayAt { index: usize },
    MoveBy { index: usize, delta: i64 },
    RemoveAt { index: usize },
    ClearQueue,
    /// Select the track and walk from it.
    Walk { mode: Mode, seed: i64 },
    PathEnd { end: PathEnd, id: i64 },
    /// Select the track and show drift's inputs. Does not run: drift still
    /// needs a phrase.
    AimDrift { id: i64 },
}

/// What a walking verb comes to.
pub open spec fn walks(choice: Choice, id: i64, intent: Intent) -> bool {
    match choice {
        Choice::Neighbours => intent == (Intent::Walk { mode: Mode::Neighbours, seed: id }),
        Choice::Radio => intent == (Intent::Walk { mode: Mode::Radio, seed: id }),
        Choice::PathA => intent == (Intent::PathEnd { end: PathEnd::A, id }),
        Choice::PathB => intent == (Intent::PathEnd { end: PathEnd::B, id }),
        Choice::Drift => intent == (Intent::AimDrift { id }),
        _ => intent is Nothing,
    }
}

fn walk(choice: Choice, id: i64) -> (intent: Intent)
    ensures
        walks(choice, id, intent),
{
    match choice {
        Choice::Neighbours => Intent::Walk { mode: Mode::Neighbours, seed: id },
        Choice::Radio => Intent::Walk { mode: Mode::Radio, seed: id },
        Choice::PathA => Intent::PathEnd { end: PathEnd::A, id },
        Choice::PathB => Intent::PathEnd { end: PathEnd::B, id },
        Choice::Drift => Intent::AimDrift { id },
        _ => Intent::Nothing,
    }
}

pub open spec fn hides(artist_id: Option<i64>, artist: String, intent: Intent) -> bool {
    match artist_id {
        Some(id) => intent == (Intent::Hide { artist_id: id, name: artist }),
        None => intent is Nothing,
    }
}

/// What an item chosen on a track of the shelf comes to, against the shelf as
/// it is now.
pub open spec fn shelf_track_intent(
    shelf: Shelf,
    blocked: Blocklist,
    index: int,
    choice: Choice,
    intent: Intent,
) -> bool {
    let rows = shelf.shown_tracks(blocked);
    if choice == Choice::PlayNow {
        intent matches Intent::Play { queue, index: at } && queue@ == rows && at == index
    } else if index >= rows.len() {
        intent is Nothing
    } else {
        let track = rows[index];
        match choice {
            Choice::PlayNext => intent == (Intent::PlayNext { track }),
            Choice::AddToQueue => intent == (Intent::Enqueue { track }),
            Choice::ShowOnMap => intent == (Intent::ShowOnMap { id: track.id }),
            Choice::Hide => hides(track.artist_id, track.artist, intent),
            _ => walks(choice, track.id, intent),
        }
    }
}

pub fn choose_shelf_track(shelf: &Shelf, blocked: &Blocklist, index: usize, choice: Choice) -> (intent:
    Intent)
    ensures
        shelf_track_intent(*shelf, *blocked, index as int, choice, intent),
{
    let rows = shelf.visible_tracks(blocked);
    if choice == Choice::PlayNow {
        return Intent::Play { queue: rows, index };
    }
    if index >= rows.len() {
        return Intent::Nothing;
    }
    let track = &rows[index];
    match choice {
        Choice::PlayNext => Intent::PlayNext { track: track.clone() },
        Choice::AddToQueue => Intent::Enqueue { track: track.clone() },
        Choice::ShowOnMap => Intent::ShowOnMap { id: track.id },
        Choice::Hide => match track.artist_id {
            Some(artist_id) => Intent::Hide { artist_id, name: track.artist.clone() },
            None => Intent::Nothing,
        },
        _ => walk(choice, track.id),
    }
}

pub open spec fn shelf_album_intent(
    shelf: Shelf,
    blocked: Blocklist,
    index: int,
    choice: Choice,
    intent: Intent,
) -> bool {
    let rows = shelf.shown_albums(blocked);
    if index >= rows.len() {
        intent is Nothing
    } else {
        let album = rows[index];
        match choice {
            Choice::Open => intent == (Intent::Open { view: View::Album(album) }),
            Choice::PlayNow => intent == (Intent::AlbumTracks {
                album: album.id,
                then_play: Playback::Now,
            }),
            Choice::PlayNext => intent == (Intent::AlbumTracks {
                album: album.id,
                then_play: Playback::Next,
            }),
            Choice::AddToQueue => intent == (Intent::AlbumTracks {
                album: album.id,
                then_play: Playback::Later,
            }),
            Choice::Fetch => intent == (Intent::FetchAlbum { album: album.id, label: album.title }),
            Choice::Hide => hides(album.artist_id, album.artist, intent),
            _ => intent is Nothing,
        }
    }
}

pub fn choose_shelf_album(shelf: &Shelf, blocked: &Blocklist, index: usize, choice: Choice) -> (intent:
    Intent)
    ensures
        shelf_album_intent(*shelf, *blocked, index as int, choice, intent),
{
    let rows = shelf.visible_albums(blocked);
    if index >= rows.len() {
        return Intent::Nothing;
    }
    let album = &rows[index];
    match choice {
        Choice::Open => Intent::Open { view: View::Album(album.clone()) },
        Choice::PlayNow => Intent::AlbumTracks { album: album.id.clone(), then_play: Playback::Now },
        Choice::PlayNext => Intent::AlbumTracks {
            album: album.id.clone(),
            then_play: Playback::Next,
        },
        Choice::AddToQueue => Intent::AlbumTracks {
            album: album.id.clone(),
            then_play: Playback::Later,
        },
        Choice::Fetch => Intent::FetchAlbum {
            album: album.id.clone(),
            label: album.title.clone(),
        },
        Choice::Hide => match album.artist_id {
            Some(artist_id) => Intent::Hide { artist_id, name: album.artist.clone() },
            None => Intent::Nothing,
        },
        _ => Intent::Nothing,
    }
}

pub open spec fn shelf_artist_intent(
    shelf: Shelf,
    blocked: Blocklist,
    index: int,
    similar: bool,
    choice: Choice,
    intent: Intent,
) -> bool {
    let rows = shelf.shown_artists(blocked, similar);
    if index >= rows.len() {
        intent is Nothing
    } else {
        let artist = rows[index];
        match choice {
            Choice::Open => intent == (Intent::Open { view: View::Artist(artist) }),
            Choice::Fetch => intent == (Intent::FetchArtist { id: artist.id, label: artist.name }),
            Choice::Hide => intent == (Intent::Hide { artist_id: artist.id, name: artist.name }),
            _ => intent is Nothing,
        }
    }
}

pub fn choose_shelf_artist(
    shelf: &Shelf,
    blocked: &Blocklist,
    index: usize,
    similar: bool,
    choice: Choice,
) -> (intent: Intent)
    ensures
        shelf_artist_intent(*shelf, *blocked, index as int, similar, choice, intent),
{
    let rows = shelf.visible_artists(blocked, similar);
    if index >= rows.len() {
        return Intent::Nothing;
    }
    let artist = &rows[index];
    match choice {
        Choice::Open => Intent::Open { view: View::Artist(artist.clone()) },
        Choice::Fetch => Intent::FetchArtist { id: artist.id, label: artist.name.clone() },
        Choice::Hide => Intent::Hide { artist_id: artist.id, name: artist.name.clone() },
        _ => Intent::Nothing,
    }
}

pub open spec fn queue_intent(index: usize, choice: Choice) -> Intent {
    match choice {
        Choice::PlayNow => Intent::PlayAt { index },
        Choice::MoveUp => Intent::MoveBy { index, delta: (-1) as i64 },
        Choice::MoveDown => Intent::MoveBy { index, delta: 1 },
        Choice::Remove => Intent::RemoveAt { index },
        Choice::ClearQueue => Intent::ClearQueue,
        _ => Intent::Nothing,
    }
}

pub fn choose_queue_entry(index: usize, choice: Choice) -> (intent: Intent)
    ensures
        intent == queue_intent(index, choice),
{
    match choice {
        Choice::PlayNow => Intent::PlayAt { index },
        Choice::MoveUp => Intent::MoveBy { index, delta: -1 },
        Choice::MoveDown => Intent::MoveBy { index, delta: 1 },
        Choice::Remove => Intent::RemoveAt { index },
        Choice::ClearQueue => Intent::ClearQueue,
        _ => Intent::Nothing,
    }
}

pub open spec fn space_track_intent(nav: Navigator, id: i64, choice: Choice, intent: Intent) -> bool {
    let held = nav.index_of@.contains_key(id);
    let meta = nav.catalog.tracks@[nav.index_of@[id] as int];
    match choice {
        Choice::ShowOnMap => intent == (Intent::ShowOnMap { id }),
        Choice::PlayNext => if held {
            intent matches Intent::PlayNext { track } && presents(track, meta)
        } else {
            intent is Nothing
        },
        Choice::AddToQueue => if held {
            intent matches Intent::Enqueue { track } && presents(track, meta)
        } else {
            intent is Nothing
        },
        _ => walks(choice, id, intent),
    }
}

pub fn choose_space_track(nav: &Navigator, id: i64, choice: Choice) -> (intent: Intent)
    requires
        nav.wf(),
    ensures
        space_track_intent(*nav, id, choice, intent),
{
    match choice {
        Choice::ShowOnMap => Intent::ShowOnMap { id },
        Choice::PlayNext => match space_track(nav, id) {
            Some(track) => Intent::PlayNext { track },
            None => Intent::Nothing,
        },
        Choice::AddToQueue => match space_track(nav, id) {
            Some(track) => Intent::Enqueue { track },
            None => Intent::Nothing,
        },
        _ => walk(choice, id),
    }
}

} // verus!
