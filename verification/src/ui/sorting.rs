//! The order of the lists.

use crate::ordering::{stable_order, Ranked};
use crate::strings::{chars_of, lower_of, lowercase};
use crate::ui::context::SpaceRow;
use vstd::pervasive::VecAdditionalExecFns;
use vstd::prelude::*;

verus! {

/// What every section of the list is ordered by. One choice for them all:
/// sorting the tracks by title and leaving the albums beside them as they came
/// would read as the sort half working. A key a section has nothing for
/// (duration, for an album) leaves that section as it came.
#[derive(Clone, Copy, PartialEq, Eq, Structural, Debug)]
pub enum SortKey {
    Default,
    Title,
    Artist,
    Album,
    Released,
    Duration,
}

impl SortKey {
    pub const ALL: [SortKey; 6] = [
        SortKey::Default,
        SortKey::Title,
        SortKey::Artist,
        SortKey::Album,
        SortKey::Released,
        SortKey::Duration,
    ];

    pub open spec fn name(self) -> Seq<char> {
        match self {
            SortKey::Default => "default"@,
            SortKey::Title => "title"@,
            SortKey::Artist => "artist"@,
            SortKey::Album => "album"@,
            SortKey::Released => "release date"@,
            SortKey::Duration => "duration"@,
        }
    }

    pub fn label(self) -> (text: &'static str)
        ensures
            text@ == self.name(),
    {
        match self {
            SortKey::Default => "default",
            SortKey::Title => "title",
            SortKey::Artist => "artist",
            SortKey::Album => "album",
            SortKey::Released => "release date",
            SortKey::Duration => "duration",
        }
    }
}

impl Default for SortKey {
    fn default() -> (key: Self)
        ensures
            key == SortKey::Default,
    {
        SortKey::Default
    }
}

#[derive(Clone, Copy, PartialEq, Eq, Structural, Debug)]
pub struct Sort {
    pub key: SortKey,
    pub descending: bool,
}

impl Default for Sort {
    fn default() -> (sort: Self)
        ensures
            sort == (Sort { key: SortKey::Default, descending: false }),
    {
        Sort { key: SortKey::Default, descending: false }
    }
}

#[derive(Debug, PartialEq, Eq, PartialOrd, Ord)]
pub enum SortValue {
    Text(String),
    Number(i64),
}

/// What a sort value stands for.
pub enum Rank {
    Text(Seq<char>),
    Number(int),
}

impl View for SortValue {
    type V = Rank;

    open spec fn view(&self) -> Rank {
        match *self {
            SortValue::Text(text) => Rank::Text(text@),
            SortValue::Number(n) => Rank::Number(n as int),
        }
    }
}

/// The value that is there, if one is.
pub open spec fn rank_of(value: Option<SortValue>) -> Option<Rank> {
    match value {
        Some(value) => Some(value@),
        None => None,
    }
}

pub open spec fn ranks_of(values: Seq<Option<SortValue>>) -> Seq<Option<Rank>> {
    Seq::new(values.len(), |i: int| rank_of(values[i]))
}

/// Dictionary order: by the first character that differs, and a text before
/// any longer one that begins with it.
pub open spec fn text_no_later(a: Seq<char>, b: Seq<char>) -> bool
    decreases a.len(),
{
    if a.len() == 0 {
        true
    } else if b.len() == 0 {
        false
    } else if a[0] != b[0] {
        (a[0] as int) < (b[0] as int)
    } else {
        text_no_later(a.drop_first(), b.drop_first())
    }
}

pub open spec fn rank_no_later(a: Rank, b: Rank) -> bool {
    match (a, b) {
        (Rank::Text(a), Rank::Text(b)) => text_no_later(a, b),
        (Rank::Text(_), Rank::Number(_)) => true,
        (Rank::Number(_), Rank::Text(_)) => false,
        (Rank::Number(a), Rank::Number(b)) => a <= b,
    }
}

/// A row of the one value belongs no later than a row of the other. A row with
/// no value belongs after every row with one, whichever way round.
pub open spec fn row_no_later(descending: bool, a: Option<Rank>, b: Option<Rank>) -> bool {
    match (a, b) {
        (Some(a), Some(b)) => if descending {
            rank_no_later(b, a)
        } else {
            rank_no_later(a, b)
        },
        (Some(_), None) => true,
        (None, Some(_)) => false,
        (None, None) => true,
    }
}

/// Row `a` comes before row `b`: by value, and as they came where the values
/// rank equal.
pub open spec fn row_before(descending: bool, values: Seq<Option<Rank>>, a: int, b: int) -> bool {
    row_no_later(descending, values[a], values[b]) && (!row_no_later(
        descending,
        values[b],
        values[a],
    ) || a < b)
}

/// `order` lists every row once, each before the next.
pub open spec fn puts_in_order(
    descending: bool,
    values: Seq<Option<Rank>>,
    order: Seq<usize>,
) -> bool {
    &&& order.len() == values.len()
    &&& forall|i: int| 0 <= i < order.len() ==> 0 <= #[trigger] order[i] < values.len()
    &&& forall|x: int| 0 <= x < values.len() ==> #[trigger] order.contains(x as usize)
    &&& forall|i: int, j: int|
        0 <= i < j < order.len() ==> row_before(
            descending,
            values,
            #[trigger] order[i] as int,
            #[trigger] order[j] as int,
        )
}

pub open spec fn picked<T>(items: Seq<T>, order: Seq<usize>) -> Seq<T> {
    Seq::new(order.len(), |i: int| items[order[i] as int])
}

/// `out` is `items` in the order asked for, given each item's value.
pub open spec fn arranged<T>(
    sort: Sort,
    values: Seq<Option<Rank>>,
    items: Seq<T>,
    out: Seq<T>,
) -> bool {
    if sort.key == SortKey::Default {
        out == (if sort.descending {
            items.reverse()
        } else {
            items
        })
    } else {
        exists|order: Seq<usize>| #[trigger]
            puts_in_order(sort.descending, values, order) && out == picked(items, order)
    }
}

/// Two orderings of the same rows by the same values are one.
pub proof fn a_sort_has_one_outcome<T>(
    sort: Sort,
    values: Seq<Option<Rank>>,
    items: Seq<T>,
    one: Seq<T>,
    other: Seq<T>,
)
    requires
        values.len() == items.len(),
        items.len() <= usize::MAX,
        arranged(sort, values, items, one),
        arranged(sort, values, items, other),
    ensures
        one == other,
{
    if sort.key != SortKey::Default {
        let a = choose|order: Seq<usize>| #[trigger]
            puts_in_order(sort.descending, values, order) && one == picked(items, order);
        let b = choose|order: Seq<usize>| #[trigger]
            puts_in_order(sort.descending, values, order) && other == picked(items, order);
        lemma_orders_agree(sort.descending, values, a, b, values.len() as int);
        assert(a =~= b);
    }
}

/// Rows that have no value for the key come after all that do, whichever way
/// round the list is.
pub proof fn rows_without_a_value_come_last<T>(
    sort: Sort,
    values: Seq<Option<Rank>>,
    items: Seq<T>,
    out: Seq<T>,
)
    requires
        values.len() == items.len(),
        sort.key != SortKey::Default,
        arranged(sort, values, items, out),
    ensures
        exists|order: Seq<usize>| #[trigger]
            puts_in_order(sort.descending, values, order) && out == picked(items, order) && forall|
                i: int,
                j: int,
            |
                0 <= i < j < order.len() && values[#[trigger] order[i] as int] is None
                    ==> values[#[trigger] order[j] as int] is None,
{
    let order = choose|order: Seq<usize>| #[trigger]
        puts_in_order(sort.descending, values, order) && out == picked(items, order);
    assert(forall|i: int, j: int|
        0 <= i < j < order.len() && values[#[trigger] order[i] as int] is None
            ==> values[#[trigger] order[j] as int] is None);
}

proof fn lemma_text_decides(a: Seq<char>, b: Seq<char>)
    ensures
        text_no_later(a, b) || text_no_later(b, a),
    decreases a.len(),
{
    if a.len() > 0 && b.len() > 0 && a[0] == b[0] {
        lemma_text_decides(a.drop_first(), b.drop_first());
    }
}

proof fn lemma_text_carries(a: Seq<char>, b: Seq<char>, c: Seq<char>)
    requires
        text_no_later(a, b),
        text_no_later(b, c),
    ensures
        text_no_later(a, c),
    decreases a.len(),
{
    if a.len() > 0 && b.len() > 0 && c.len() > 0 && a[0] == b[0] && b[0] == c[0] {
        lemma_text_carries(a.drop_first(), b.drop_first(), c.drop_first());
    }
}

proof fn lemma_rank_decides(a: Rank, b: Rank)
    ensures
        rank_no_later(a, b) || rank_no_later(b, a),
{
    match (a, b) {
        (Rank::Text(a), Rank::Text(b)) => {
            lemma_text_decides(a, b);
        },
        _ => {},
    }
}

proof fn lemma_rank_carries(a: Rank, b: Rank, c: Rank)
    requires
        rank_no_later(a, b),
        rank_no_later(b, c),
    ensures
        rank_no_later(a, c),
{
    match (a, b, c) {
        (Rank::Text(a), Rank::Text(b), Rank::Text(c)) => {
            lemma_text_carries(a, b, c);
        },
        _ => {},
    }
}

proof fn lemma_row_decides(descending: bool, a: Option<Rank>, b: Option<Rank>)
    ensures
        row_no_later(descending, a, b) || row_no_later(descending, b, a),
{
    match (a, b) {
        (Some(a), Some(b)) => {
            lemma_rank_decides(a, b);
        },
        _ => {},
    }
}

proof fn lemma_row_carries(descending: bool, a: Option<Rank>, b: Option<Rank>, c: Option<Rank>)
    requires
        row_no_later(descending, a, b),
        row_no_later(descending, b, c),
    ensures
        row_no_later(descending, a, c),
{
    match (a, b, c) {
        (Some(a), Some(b), Some(c)) => {
            if descending {
                lemma_rank_carries(c, b, a);
            } else {
                lemma_rank_carries(a, b, c);
            }
        },
        _ => {},
    }
}

/// The orders agree on their first `n` places.
proof fn lemma_orders_agree(
    descending: bool,
    values: Seq<Option<Rank>>,
    a: Seq<usize>,
    b: Seq<usize>,
    n: int,
)
    requires
        0 <= n <= values.len() <= usize::MAX,
        puts_in_order(descending, values, a),
        puts_in_order(descending, values, b),
    ensures
        forall|i: int| 0 <= i < n ==> a[i] == b[i],
    decreases n,
{
    if n > 0 {
        lemma_orders_agree(descending, values, a, b, n - 1);
        let k = n - 1;
        let x = a[k];
        let y = b[k];
        if x != y {
            assert(b.contains(x as int as usize));
            assert(a.contains(y as int as usize));
            let i = choose|i: int| 0 <= i < b.len() && b[i] == x;
            let j = choose|j: int| 0 <= j < a.len() && a[j] == y;
            if i < k {
                assert(a[i] == b[i]);
                assert(row_before(descending, values, a[i] as int, a[k] as int));
            }
            if j < k {
                assert(a[j] == b[j]);
                assert(row_before(descending, values, b[j] as int, b[k] as int));
            }
            assert(row_before(descending, values, b[k] as int, b[i] as int));
            assert(row_before(descending, values, a[k] as int, a[j] as int));
            lemma_row_decides(descending, values[x as int], values[y as int]);
            assert(false);
        }
    }
}

/// Whether one text belongs no later than the other.
fn text_is_no_later(a: &str, b: &str) -> (yes: bool)
    ensures
        yes == text_no_later(a@, b@),
{
    let left = chars_of(a);
    let right = chars_of(b);
    let mut i: usize = 0;
    assert(left@.skip(0) =~= left@);
    assert(right@.skip(0) =~= right@);
    while i < left.len() && i < right.len()
        invariant
            left@ == a@,
            right@ == b@,
            i <= left@.len(),
            i <= right@.len(),
            text_no_later(a@, b@) == text_no_later(left@.skip(i as int), right@.skip(i as int)),
        decreases left@.len() - i,
    {
        assert(left@.skip(i as int).drop_first() =~= left@.skip(i + 1));
        assert(right@.skip(i as int).drop_first() =~= right@.skip(i + 1));
        let l: char = left[i];
        let r: char = right[i];
        if l != r {
            assert(left@.skip(i as int)[0] == l && right@.skip(i as int)[0] == r);
            return l < r;
        }
        i = i + 1;
    }
    i >= left.len()
}

fn value_is_no_later(a: &SortValue, b: &SortValue) -> (yes: bool)
    ensures
        yes == rank_no_later(a@, b@),
{
    match (a, b) {
        (SortValue::Text(a), SortValue::Text(b)) => text_is_no_later(a.as_str(), b.as_str()),
        (SortValue::Text(_), SortValue::Number(_)) => true,
        (SortValue::Number(_), SortValue::Text(_)) => false,
        (SortValue::Number(a), SortValue::Number(b)) => *a <= *b,
    }
}

/// A row's value in a list that rises.
struct Rising(Option<SortValue>);

/// A row's value in a list that falls.
struct Falling(Option<SortValue>);

impl Ranked for Rising {
    closed spec fn no_later(self, other: Self) -> bool {
        row_no_later(false, rank_of(self.0), rank_of(other.0))
    }

    proof fn any_two_compare(a: Self, b: Self) {
        lemma_row_decides(false, rank_of(a.0), rank_of(b.0));
    }

    proof fn carries_across(a: Self, b: Self, c: Self) {
        lemma_row_carries(false, rank_of(a.0), rank_of(b.0), rank_of(c.0));
    }

    fn is_no_later(&self, other: &Self) -> (yes: bool) {
        match (&self.0, &other.0) {
            (Some(a), Some(b)) => value_is_no_later(a, b),
            (_, None) => true,
            (None, Some(_)) => false,
        }
    }
}

impl Ranked for Falling {
    closed spec fn no_later(self, other: Self) -> bool {
        row_no_later(true, rank_of(self.0), rank_of(other.0))
    }

    proof fn any_two_compare(a: Self, b: Self) {
        lemma_row_decides(true, rank_of(a.0), rank_of(b.0));
    }

    proof fn carries_across(a: Self, b: Self, c: Self) {
        lemma_row_carries(true, rank_of(a.0), rank_of(b.0), rank_of(c.0));
    }

    fn is_no_later(&self, other: &Self) -> (yes: bool) {
        match (&self.0, &other.0) {
            (Some(a), Some(b)) => value_is_no_later(b, a),
            (_, None) => true,
            (None, Some(_)) => false,
        }
    }
}

/// The order a sort puts rows of these values in.
fn order_of(values: Vec<Option<SortValue>>, descending: bool) -> (order: Vec<usize>)
    ensures
        puts_in_order(descending, ranks_of(values@), order@),
{
    let ghost all = values@;
    let n: usize = values.len();
    let mut values = values;
    if descending {
        let mut keys: Vec<Falling> = Vec::new();
        while keys.len() < n
            invariant
                values@.len() == n,
                all.len() == n,
                keys@.len() <= n,
                forall|i: int| 0 <= i < keys@.len() ==> (#[trigger] keys@[i]).0 == all[i],
                forall|i: int| keys@.len() <= i < n ==> #[trigger] values@[i] == all[i],
            decreases n - keys@.len(),
        {
            let mut value: Option<SortValue> = None;
            values.set_and_swap(keys.len(), &mut value);
            keys.push(Falling(value));
        }
        let order = stable_order(keys.as_slice());
        proof {
            let ranks = ranks_of(all);
            assert forall|i: int, j: int| 0 <= i < j < order@.len() implies row_before(
                true,
                ranks,
                #[trigger] order@[i] as int,
                #[trigger] order@[j] as int,
            ) by {
                assert(crate::ordering::before(keys@, order@[i] as int, order@[j] as int));
            }
        }
        order
    } else {
        let mut keys: Vec<Rising> = Vec::new();
        while keys.len() < n
            invariant
                values@.len() == n,
                all.len() == n,
                keys@.len() <= n,
                forall|i: int| 0 <= i < keys@.len() ==> (#[trigger] keys@[i]).0 == all[i],
                forall|i: int| keys@.len() <= i < n ==> #[trigger] values@[i] == all[i],
            decreases n - keys@.len(),
        {
            let mut value: Option<SortValue> = None;
            values.set_and_swap(keys.len(), &mut value);
            keys.push(Rising(value));
        }
        let order = stable_order(keys.as_slice());
        proof {
            let ranks = ranks_of(all);
            assert forall|i: int, j: int| 0 <= i < j < order@.len() implies row_before(
                false,
                ranks,
                #[trigger] order@[i] as int,
                #[trigger] order@[j] as int,
            ) by {
                assert(crate::ordering::before(keys@, order@[i] as int, order@[j] as int));
            }
        }
        order
    }
}

/// The items in that order.
fn take_in_order<T>(items: Vec<T>, order: &Vec<usize>) -> (out: Vec<T>)
    requires
        order@.len() == items@.len(),
        forall|i: int| 0 <= i < order@.len() ==> 0 <= #[trigger] order@[i] < items@.len(),
        order@.no_duplicates(),
    ensures
        out@ == picked(items@, order@),
{
    let ghost all = items@;
    let n: usize = items.len();
    let mut items = items;
    let mut slots: Vec<Option<T>> = Vec::new();
    while items.len() > 0
        invariant
            items@.len() + slots@.len() == n,
            all.len() == n,
            items@ == all.take(items@.len() as int),
            forall|i: int|
                0 <= i < slots@.len() ==> #[trigger] slots@[i] == Some(all[n - 1 - i]),
        decreases items@.len(),
    {
        let item = items.pop();
        slots.push(item);
    }
    let mut out: Vec<T> = Vec::new();
    while out.len() < n
        invariant
            slots@.len() == n,
            all.len() == n,
            order@.len() == n,
            out@.len() <= n,
            order@.no_duplicates(),
            forall|i: int| 0 <= i < order@.len() ==> 0 <= #[trigger] order@[i] < n,
            forall|i: int| 0 <= i < out@.len() ==> #[trigger] out@[i] == all[order@[i] as int],
            forall|i: int|
                out@.len() <= i < n ==> slots@[n - 1 - #[trigger] order@[i]] == Some(
                    all[order@[i] as int],
                ),
        decreases n - out@.len(),
    {
        let k: usize = out.len();
        let x: usize = order[k];
        let mut slot: Option<T> = None;
        let ghost had = slots@;
        slots.set_and_swap(n - 1 - x, &mut slot);
        assert forall|i: int| k + 1 <= i < n implies slots@[n - 1 - #[trigger] order@[i]] == Some(
            all[order@[i] as int],
        ) by {
            assert(order@[i] != order@[k as int]);
            assert(slots@[n - 1 - order@[i]] == had[n - 1 - order@[i]]);
        }
        match slot {
            Some(item) => {
                out.push(item);
            },
            None => {
                assert(false);
                return out;
            },
        }
    }
    out
}

proof fn lemma_order_has_no_duplicates(
    descending: bool,
    values: Seq<Option<Rank>>,
    order: Seq<usize>,
)
    requires
        puts_in_order(descending, values, order),
    ensures
        order.no_duplicates(),
{
    assert forall|i: int, j: int|
        0 <= i < order.len() && 0 <= j < order.len() && i != j implies order[i] != order[j] by {
        if i < j {
            assert(row_before(descending, values, order[i] as int, order[j] as int));
        } else {
            assert(row_before(descending, values, order[j] as int, order[i] as int));
        }
    }
}

/// `values` are what the key function gives for each item.
pub open spec fn valued<T, F: Fn(&T, SortKey) -> Option<SortValue>>(
    value: F,
    key: SortKey,
    items: Seq<T>,
    values: Seq<Option<SortValue>>,
) -> bool {
    &&& values.len() == items.len()
    &&& forall|i: int|
        0 <= i < items.len() ==> value.ensures((&items[i], key), #[trigger] values[i])
}

impl Sort {
    /// `items` in this order. "Default" is the order they came in, which
    /// descending just reverses. Anything without a value for the key goes
    /// last whichever way round, and ties keep the order they came in.
    pub fn apply<T, F: Fn(&T, SortKey) -> Option<SortValue>>(self, items: Vec<T>, value: F) -> (out:
        Vec<T>)
        requires
            forall|i: int|
                0 <= i < items@.len() ==> value.requires((&#[trigger] items@[i], self.key)),
        ensures
            self.key == SortKey::Default ==> out@ == (if self.descending {
                items@.reverse()
            } else {
                items@
            }),
            self.key != SortKey::Default ==> exists|values: Seq<Option<SortValue>>| #[trigger]
                valued(value, self.key, items@, values) && arranged(
                    self,
                    ranks_of(values),
                    items@,
                    out@,
                ),
    {
        if self.key == SortKey::Default {
            if !self.descending {
                return items;
            }
            let mut items = items;
            let ghost all = items@;
            let mut out: Vec<T> = Vec::new();
            while items.len() > 0
                invariant
                    items@.len() + out@.len() == all.len(),
                    items@ == all.take(items@.len() as int),
                    out@ == all.reverse().take(out@.len() as int),
                decreases items@.len(),
            {
                match items.pop() {
                    Some(item) => {
                        out.push(item);
                    },
                    None => {},
                }
            }
            return out;
        }
        let mut values: Vec<Option<SortValue>> = Vec::new();
        while values.len() < items.len()
            invariant
                values@.len() <= items@.len(),
                forall|i: int|
                    0 <= i < items@.len() ==> value.requires((&#[trigger] items@[i], self.key)),
                forall|i: int|
                    0 <= i < values@.len() ==> value.ensures(
                        (&items@[i], self.key),
                        #[trigger] values@[i],
                    ),
            decreases items@.len() - values@.len(),
        {
            let item = &items[values.len()];
            values.push(value(item, self.key));
        }
        let ghost found = values@;
        assert(valued(value, self.key, items@, found));
        let order = order_of(values, self.descending);
        proof {
            lemma_order_has_no_duplicates(self.descending, ranks_of(found), order@);
        }
        take_in_order(items, &order)
    }

    /// The space's own rows, which know no release date or duration.
    pub fn space_rows(self, rows: Vec<SpaceRow>) -> (out: Vec<SpaceRow>)
        ensures
            arranged(
                self,
                Seq::new(rows@.len(), |i: int| space_rank(rows@[i], self.key)),
                rows@,
                out@,
            ),
    {
        let ghost all = rows@;
        let value = |row: &SpaceRow, key: SortKey| -> (value: Option<SortValue>)
            ensures
                rank_of(value) == space_rank(*row, key),
            {
                match key {
                    SortKey::Title => text(row.title.as_str()),
                    SortKey::Artist => text(row.artist.as_str()),
                    SortKey::Album => text(row.album.as_str()),
                    _ => None,
                }
            };
        let out = self.apply(rows, value);
        proof {
            if self.key != SortKey::Default {
                let values = choose|values: Seq<Option<SortValue>>| #[trigger]
                    valued(value, self.key, all, values) && arranged(
                        self,
                        ranks_of(values),
                        all,
                        out@,
                    );
                assert(ranks_of(values) =~= Seq::new(
                    all.len(),
                    |i: int| space_rank(all[i], self.key),
                ));
            }
        }
        out
    }
}

/// A space row's value under a key.
pub open spec fn space_rank(row: SpaceRow, key: SortKey) -> Option<Rank> {
    match key {
        SortKey::Title => Some(Rank::Text(lower_of(row.title@))),
        SortKey::Artist => Some(Rank::Text(lower_of(row.artist@))),
        SortKey::Album => Some(Rank::Text(lower_of(row.album@))),
        _ => None,
    }
}

/// A text as a sort value: the case of a letter does not matter.
pub fn text(value: &str) -> (sorted: Option<SortValue>)
    ensures
        rank_of(sorted) == Some(Rank::Text(lower_of(value@))),
{
    Some(SortValue::Text(lowercase(value)))
}

} // verus!
