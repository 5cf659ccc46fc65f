//! The window as a whole: the search box, the messages from the page, and what
//! the header says.

use crate::db::Catalog;
use crate::json::{member, seen, text_value, Json};
use crate::script::{call, called, id_list, id_or_null, listed, nullable_id};
use crate::strings::{
    chars_of, decimal, digits, joined, push_text, same, slice_text, trim, trim_of,
};
use crate::ui::generate::{find_track, first_with_id, label_line, track_line, Generator};
use crate::ui::library::Library;
use crate::ui::menu::{target_of, MenuTarget};
use vstd::prelude::*;

verus! {

/// One of the two Explore panes. Only meaningful on a screen too narrow to hold
/// both.
#[derive(Clone, Copy, PartialEq, Eq, Structural, Debug)]
pub enum Pane {
    Library,
    Tools,
}

impl Pane {
    pub const ALL: [Pane; 2] = [Pane::Library, Pane::Tools];

    pub open spec fn word(self) -> Seq<char> {
        match self {
            Pane::Library => "library"@,
            Pane::Tools => "tools"@,
        }
    }

    /// Matches the class the stylesheet keys off.
    pub fn slug(self) -> (text: &'static str)
        ensures
            text@ == self.word(),
    {
        match self {
            Pane::Library => "library",
            Pane::Tools => "tools",
        }
    }

    pub fn label(self) -> (text: &'static str)
        ensures
            text@ == (match self {
                Pane::Library => "browse"@,
                Pane::Tools => "tools"@,
            }),
    {
        match self {
            Pane::Library => "browse",
            Pane::Tools => "tools",
        }
    }
}

/// How the body is styled: by its pane, and hidden while the pipeline shows.
pub fn body_class(pane: Pane, explore: bool) -> (class: String)
    ensures
        class@ == "body pane-"@ + pane.word() + (if explore {
            Seq::empty()
        } else {
            " hidden"@
        }),
{
    let mut class = joined("body pane-", pane.slug());
    if !explore {
        push_text(&mut class, " hidden");
    } else {
        assert(class@ + Seq::<char>::empty() =~= class@);
    }
    class
}

// ---------------------------------------------------------- the search box

/// The one search box.
///
/// It stands for two queries, because they are genuinely different: the local
/// one is a scan of memory and can run per keystroke, the remote one is a
/// network round trip and must not.
pub struct Search {
    /// What is in the box. The local filter reads this directly.
    pub text: String,
    /// What the remote has actually been asked for. Compared against `text` to
    /// decide whether a round trip is owed; also what stops the debounce from
    /// re-firing a query it has already run.
    pub submitted: String,
    /// What was in the box at the last tick.
    pub previous: String,
}

/// What a tick or a keystroke comes to.
#[derive(Debug, PartialEq)]
pub enum Asked {
    Nothing,
    /// Emptying the box is a navigation, not a query.
    Leave,
    Query(String),
}

/// The same, over what the box says.
pub enum Ask {
    Nothing,
    Leave,
    Query(Seq<char>),
}

impl Asked {
    pub open spec fn means(self) -> Ask {
        match self {
            Asked::Nothing => Ask::Nothing,
            Asked::Leave => Ask::Leave,
            Asked::Query(text) => Ask::Query(text@),
        }
    }
}

/// What a tick comes to. The text has to have stood still for two ticks: the
/// user has stopped typing.
pub open spec fn ask_on_tick(text: Seq<char>, submitted: Seq<char>, previous: Seq<char>) -> Ask {
    let current = trim_of(text);
    if current != previous {
        Ask::Nothing
    } else if current.len() == 0 {
        if submitted.len() > 0 {
            Ask::Leave
        } else {
            Ask::Nothing
        }
    } else if current.len() >= 2 && current != submitted {
        Ask::Query(current)
    } else {
        Ask::Nothing
    }
}

/// What enter comes to. It skips the debounce: the local list has already
/// filtered; this is impatience with the round trip.
pub open spec fn ask_on_enter(text: Seq<char>, submitted: Seq<char>) -> Ask {
    let current = trim_of(text);
    if current.len() == 0 || current == submitted {
        Ask::Nothing
    } else {
        Ask::Query(current)
    }
}

/// What the remote has been asked for once that has been asked.
pub open spec fn submitted_after(ask: Ask, submitted: Seq<char>) -> Seq<char> {
    match ask {
        Ask::Nothing => submitted,
        Ask::Leave => Seq::empty(),
        Ask::Query(text) => text,
    }
}

/// However long the same text stands in the box, it is asked for once.
pub proof fn a_query_is_asked_once(text: Seq<char>, submitted: Seq<char>, previous: Seq<char>)
    ensures
        ({
            let now = submitted_after(ask_on_tick(text, submitted, previous), submitted);
            let again = ask_on_tick(text, now, trim_of(text));
            let later = submitted_after(again, now);
            ask_on_tick(text, later, trim_of(text)) is Nothing
        }),
        ask_on_tick(text, submitted, previous) is Query ==> ask_on_tick(
            text,
            submitted_after(ask_on_tick(text, submitted, previous), submitted),
            trim_of(text),
        ) is Nothing,
        ask_on_enter(
            text,
            submitted_after(ask_on_enter(text, submitted), submitted),
        ) is Nothing,
{
}

impl Search {
    pub fn new() -> (search: Self)
        ensures
            search.text@.len() == 0,
            search.submitted@.len() == 0,
            search.previous@.len() == 0,
    {
        Search { text: String::new(), submitted: String::new(), previous: String::new() }
    }

    /// One tick of the poll that watches the box.
    pub fn tick(&mut self) -> (asked: Asked)
        ensures
            asked.means() == ask_on_tick(
                old(self).text@,
                old(self).submitted@,
                old(self).previous@,
            ),
            final(self).text == old(self).text,
            final(self).submitted@ == submitted_after(asked.means(), old(self).submitted@),
            final(self).previous@ == trim_of(old(self).text@),
    {
        let current = trim(self.text.as_str());
        let still: bool = same(current.as_str(), self.previous.as_str());
        self.previous = current.clone();
        if !still {
            return Asked::Nothing;
        }
        if current.as_str().is_empty() {
            if self.submitted.as_str().is_empty() {
                return Asked::Nothing;
            }
            self.submitted = String::new();
            assert(self.submitted@ =~= Seq::empty());
            return Asked::Leave;
        }
        let long_enough: bool = chars_of(current.as_str()).len() >= 2;
        if long_enough && !same(current.as_str(), self.submitted.as_str()) {
            self.submitted = current.clone();
            return Asked::Query(current);
        }
        Asked::Nothing
    }

    /// Enter was pressed.
    pub fn enter(&mut self) -> (asked: Asked)
        ensures
            asked.means() == ask_on_enter(old(self).text@, old(self).submitted@),
            final(self).text == old(self).text,
            final(self).submitted@ == submitted_after(asked.means(), old(self).submitted@),
            final(self).previous == old(self).previous,
    {
        let current = trim(self.text.as_str());
        if current.as_str().is_empty() || same(current.as_str(), self.submitted.as_str()) {
            return Asked::Nothing;
        }
        self.submitted = current.clone();
        Asked::Query(current)
    }
}

impl Default for Search {
    fn default() -> (search: Self)
        ensures
            search.text@.len() == 0,
            search.submitted@.len() == 0,
            search.previous@.len() == 0,
    {
        Search::new()
    }
}

// ----------------------------------------------------------- page messages

/// What a message about a touch comes to.
#[derive(Clone, Copy, PartialEq, Eq, Structural, Debug)]
pub enum Press {
    Ignored,
    CloseMap,
    Menu(MenuTarget),
}

pub open spec fn press_of(message: Json) -> Press {
    if member(message, "closeMap"@) is Some {
        Press::CloseMap
    } else {
        match text_value(member(message, "target"@)) {
            Some(tag) => match target_of(tag) {
                Some(target) => Press::Menu(target),
                None => Press::Ignored,
            },
            None => Press::Ignored,
        }
    }
}

/// Long press opens the row menu on a touch screen, where there is no
/// right-click to open it with. A tag that does not parse is dropped: better
/// than opening a menu on a guess.
pub fn read_press(message: &Json) -> (press: Press)
    ensures
        press == press_of(*message),
{
    if message.get("closeMap").is_some() {
        return Press::CloseMap;
    }
    match message.get("target") {
        Some(Json::Text(tag)) => match MenuTarget::parse(tag.as_str()) {
            Some(target) => Press::Menu(target),
            None => Press::Ignored,
        },
        _ => Press::Ignored,
    }
}

/// What a message from the map comes to.
#[derive(Clone, Copy, PartialEq, Eq, Structural, Debug)]
pub enum MapEvent {
    Ignored,
    /// Select the track and open its menu.
    Menu(i64),
    /// Select the track, or nothing where the background was clicked.
    Select(Option<i64>),
}

pub open spec fn map_event_of(message: Json, id: Option<i64>) -> MapEvent {
    if text_value(member(message, "type"@)) == Some("menu"@) {
        match id {
            Some(id) => MapEvent::Menu(id),
            None => MapEvent::Ignored,
        }
    } else if member(message, "track_id"@) is Some {
        MapEvent::Select(id)
    } else {
        MapEvent::Ignored
    }
}

/// Reads a message from the map; `id` is the number under `track_id`, where
/// there is one. The type comes first: a menu message names a track too. An
/// explicit null is the map saying the background was clicked, so a selection
/// goes by the key being present rather than by its value being a number.
pub fn read_map_event(message: &Json, id: Option<i64>) -> (event: MapEvent)
    ensures
        event == map_event_of(*message, id),
{
    let is_menu: bool = match message.get("type") {
        Some(Json::Text(kind)) => same(kind.as_str(), "menu"),
        _ => false,
    };
    if is_menu {
        return match id {
            Some(id) => MapEvent::Menu(id),
            None => MapEvent::Ignored,
        };
    }
    if message.get("track_id").is_some() {
        MapEvent::Select(id)
    } else {
        MapEvent::Ignored
    }
}

// ------------------------------------------------------------ page scripts

pub open spec fn selection_text(selected: Option<i64>) -> Seq<char> {
    "window.twoKhzSelected = "@ + id_or_null(selected) + ";\n"@ + called(
        "twoKhzSetSelected"@,
        id_or_null(selected),
    )
}

/// Mirrors the selection onto the map. Recorded as well as called: the map's
/// handle may not be there yet.
pub fn selection_script(selected: Option<i64>) -> (script: String)
    ensures
        script@ == selection_text(selected),
{
    let id = nullable_id(selected);
    let mut script = joined("window.twoKhzSelected = ", id.as_str());
    push_text(&mut script, ";\n");
    push_text(&mut script, call("twoKhzSetSelected", id.as_str()).as_str());
    script
}

/// Pushes the generated route to the map. Only while the map is being used to
/// look at that route: a route dims every point that is not on it.
pub fn route_script(generator: &Generator, map_route: bool) -> (script: String)
    ensures
        script@ == called(
            "twoKhzSetRoute"@,
            "["@ + listed(
                if map_route {
                    crate::ui::generate::ids_of(generator.result@)
                } else {
                    Seq::empty()
                },
            ) + "]"@,
        ),
{
    let ids = generator.route(map_route);
    call("twoKhzSetRoute", id_list(ids.as_slice()).as_str())
}

/// Has the map fetch its points again.
pub fn reload_script() -> (script: String)
    ensures
        script@ == called("twoKhzReloadPoints"@, Seq::empty()),
{
    let script = call("twoKhzReloadPoints", "");
    proof {
        reveal_strlit("");
        assert(""@ =~= Seq::<char>::empty());
    }
    script
}

/// Whether a request for points wants the description rather than the points.
pub fn wants_meta(path: &str) -> (yes: bool)
    ensures
        yes == (path@.len() >= 5 && path@.skip(path@.len() - 5) == "/meta"@),
{
    let chars = chars_of(path);
    if chars.len() < 5 {
        return false;
    }
    let tail = slice_text(&chars, chars.len() - 5, chars.len());
    assert(tail@ =~= path@.skip(path@.len() - 5));
    same(tail.as_str(), "/meta")
}

// --------------------------------------------------------------- the header

/// What the header says is selected.
pub fn selected_label(catalog: &Catalog, selected: Option<i64>) -> (label: String)
    ensures
        label@ == (match selected {
            Some(id) => match first_with_id(catalog.tracks@, id) {
                Some(track) => track_line(track),
                None => "nothing selected"@,
            },
            None => "nothing selected"@,
        }),
{
    match selected {
        Some(id) => match find_track(catalog, id) {
            Some(track) => label_line(track),
            None => "nothing selected".to_owned(),
        },
        None => "nothing selected".to_owned(),
    }
}

/// How many of these rows have a place on the map.
pub open spec fn placed(catalog: Catalog, rows: Seq<usize>) -> nat
    decreases rows.len(),
{
    if rows.len() == 0 {
        0
    } else {
        placed(catalog, rows.drop_last()) + (if catalog.tracks@[rows.last() as int].x is Some {
            1nat
        } else {
            0nat
        })
    }
}

/// How many tracks of the loaded space are visible, how many are hidden, and
/// how many of the visible ones have a place on the map.
#[derive(Clone, Copy, PartialEq, Eq, Structural, Debug)]
pub struct Counts {
    pub visible: usize,
    pub hidden: usize,
    pub on_map: usize,
}

pub fn counts(catalog: &Catalog) -> (counts: Counts)
    ensures
        ({
            let rows = catalog.visible_rows(catalog.tracks@.len());
            &&& counts.visible == rows.len()
            &&& counts.visible + counts.hidden == catalog.tracks@.len()
            &&& counts.on_map == placed(*catalog, rows)
        }),
{
    let n: usize = catalog.tracks.len();
    let rows = catalog.visible();
    proof {
        lemma_visible_rows(*catalog, catalog.tracks@.len());
    }
    let mut on_map: usize = 0;
    let mut i: usize = 0;
    assert(rows@.take(0) =~= Seq::empty());
    while i < rows.len()
        invariant
            i <= rows@.len(),
            n == catalog.tracks@.len(),
            forall|k: int| 0 <= k < rows@.len() ==> #[trigger] rows@[k] < n,
            on_map <= i,
            on_map == placed(*catalog, rows@.take(i as int)),
        decreases rows@.len() - i,
    {
        assert(rows@.take(i + 1).drop_last() =~= rows@.take(i as int));
        assert(rows@.take(i + 1).last() == rows@[i as int]);
        if catalog.get(rows[i]).x.is_some() {
            on_map = on_map + 1;
        }
        i = i + 1;
    }
    assert(rows@.take(rows@.len() as int) =~= rows@);
    Counts { visible: rows.len(), hidden: n - rows.len(), on_map }
}

proof fn lemma_visible_rows(catalog: Catalog, n: nat)
    requires
        n <= catalog.tracks@.len() <= usize::MAX,
    ensures
        catalog.visible_rows(n).len() <= n,
        forall|k: int|
            0 <= k < catalog.visible_rows(n).len() ==> #[trigger] catalog.visible_rows(n)[k] < n,
    decreases n,
{
    if n > 0 {
        let all = catalog.visible_rows(n);
        let rest = catalog.visible_rows((n - 1) as nat);
        lemma_visible_rows(catalog, (n - 1) as nat);
        assert forall|k: int| 0 <= k < all.len() implies #[trigger] all[k] < n by {
            if k < rest.len() {
                assert(all[k] == rest[k]);
            }
        }
    }
}

/// The header's counts: the tracks, and those hidden where there are any.
pub fn counts_label(counts: Counts) -> (labels: (String, Option<String>))
    ensures
        labels.0@ == digits(counts.visible as nat) + " tracks"@,
        seen(labels.1) == (if counts.hidden > 0 {
            Some("("@ + digits(counts.hidden as nat) + " hidden)"@)
        } else {
            None
        }),
{
    let total = joined(decimal(counts.visible as u128).as_str(), " tracks");
    let hidden = if counts.hidden > 0 {
        let mut text = joined("(", decimal(counts.hidden as u128).as_str());
        push_text(&mut text, " hidden)");
        Some(text)
    } else {
        None
    };
    (total, hidden)
}

/// What a rebuilt space leaves of what was on screen: the ids behind the
/// selection and the result have stopped existing.
pub fn reloaded(selected: &mut Option<i64>, generator: &mut Generator)
    ensures
        *final(selected) == None::<i64>,
        final(generator).result@.len() == 0,
        *final(generator) == (Generator {
            result: final(generator).result,
            produced_by: None,
            stale: false,
            status: None,
            ..*old(generator)
        }),
{
    *selected = None;
    generator.clear();
}

// --------------------------------------------------------------- the window

pub open spec fn is_times(c: char) -> bool {
    c == 'x' || c == 'X'
}

/// A window's size as it is written, width before height.
pub open spec fn reads_size(spec: Seq<char>, width: Seq<char>, height: Seq<char>) -> bool {
    exists|at: int|
        0 <= at < spec.len() && is_times(#[trigger] spec[at]) && (forall|k: int|
            0 <= k < at ==> !is_times(#[trigger] spec[k])) && width == trim_of(spec.take(at))
            && height == trim_of(spec.skip(at + 1))
}

/// The two numbers of a window's size, still to be read: what stands on either
/// side of the first `x`.
pub fn window_size(spec: &str) -> (parts: Option<(String, String)>)
    ensures
        match parts {
            Some(parts) => reads_size(spec@, parts.0@, parts.1@),
            None => forall|k: int| 0 <= k < spec@.len() ==> !is_times(#[trigger] spec@[k]),
        },
{
    let chars = chars_of(spec);
    let mut at: usize = 0;
    while at < chars.len()
        invariant
            chars@ == spec@,
            at <= chars@.len(),
            forall|k: int| 0 <= k < at ==> !is_times(#[trigger] spec@[k]),
        decreases chars@.len() - at,
    {
        if chars[at] == 'x' || chars[at] == 'X' {
            let width = slice_text(&chars, 0, at);
            let height = slice_text(&chars, at + 1, chars.len());
            assert(width@ =~= spec@.take(at as int));
            assert(height@ =~= spec@.skip(at + 1));
            assert(is_times(spec@[at as int]));
            return Some((trim(width.as_str()), trim(height.as_str())));
        }
        at = at + 1;
    }
    None
}

// ----------------------------------------------------------------- pairing

/// What is said where an address or a token is missing.
pub const BOTH_NEEDED: &'static str = "Both the address and the token are needed.";

/// What is said where the first connection failed.
pub fn connect_failed(error: &str) -> (text: String)
    ensures
        text@ == error@
            + "\n\nIf the address and token are right, the server may not have built a space yet, run build-space and layout on it."@,
{
    joined(
        error,
        "\n\nIf the address and token are right, the server may not have built a space yet, run build-space and layout on it.",
    )
}

/// What is said once a pairing has been saved, or has not. It is used from the
/// next start: the running process keeps the server it started with.
pub fn saved(failed: Option<&str>) -> (text: String)
    ensures
        text@ == (match failed {
            None =>
                "Saved. Restart 2kHz to connect to it, the running process keeps the server it started with."@,
            Some(error) => "could not save: "@ + error@,
        }),
{
    match failed {
        None =>
            "Saved. Restart 2kHz to connect to it, the running process keeps the server it started with.".to_owned(),
        Some(error) => joined("could not save: ", error),
    }
}

/// What is said once a pairing has been forgotten, or has not.
pub fn forgotten(failed: Option<&str>) -> (text: String)
    ensures
        text@ == (match failed {
            None => "Pairing forgotten. Restart 2kHz to pair with a server again."@,
            Some(error) => "could not clear the pairing: "@ + error@,
        }),
{
    match failed {
        None => "Pairing forgotten. Restart 2kHz to pair with a server again.".to_owned(),
        Some(error) => joined("could not clear the pairing: ", error),
    }
}

/// What is said where a first pairing could not be saved.
pub fn pairing_unsaved(error: &str) -> (text: String)
    ensures
        text@ == "could not save the pairing: "@ + error@,
{
    joined("could not save the pairing: ", error)
}

/// Does to the library what a tick or a keystroke came to.
pub fn carry_out(library: &mut Library, asked: Asked)
    ensures
        match asked {
            Asked::Nothing => *final(library) == *old(library),
            Asked::Leave => old(library).left_search(*final(library)),
            Asked::Query(query) => old(library).searched_to(query, *final(library)),
        },
{
    match asked {
        Asked::Nothing => {},
        Asked::Leave => library.leave_search(),
        Asked::Query(query) => library.search_to(query),
    }
}

} // verus!
