//! Point-cloud payloads for the canvas map.
//!
//! Bulk data crosses to the page as binary, rendering and pan/zoom happen
//! there, and only selections come back.

use crate::db::Catalog;
use crate::strings::{same, views};
use vstd::prelude::*;

verus! {

/// Positive infinity, as a 32-bit pattern.
pub const INFINITE: u32 = 0x7f80_0000;

/// Negative infinity, as a 32-bit pattern.
pub const MINUS_INFINITE: u32 = 0xff80_0000;

const SIGN: u32 = 0x8000_0000;

/// More distinct genres than this have no index of their own.
pub const MAX_GENRES: usize = 65535;

pub struct MapMeta {
    pub n: usize,
    /// Distinct genre names, indexed by the genre array in the payload.
    pub genres: Vec<String>,
    pub bounds: Bounds,
    /// False when the layout step has not been run yet.
    pub has_layout: bool,
}

/// The smallest box around the points, as 32-bit patterns.
#[derive(Clone, Copy, Debug, PartialEq, Eq, Structural)]
pub struct Bounds {
    pub min_x: u32,
    pub max_x: u32,
    pub min_y: u32,
    pub max_y: u32,
}

impl Default for Bounds {
    fn default() -> (bounds: Self)
        ensures
            bounds == (Bounds { min_x: 0, max_x: 0, min_y: 0, max_y: 0 }),
    {
        Bounds { min_x: 0, max_x: 0, min_y: 0, max_y: 0 }
    }
}

// ------------------------------------------------------------- coordinates

/// A pattern that is no number.
pub open spec fn is_nan(bits: u32) -> bool {
    bits % 0x8000_0000 > 0x7f80_0000
}

/// The place of a number among numbers. Both zeros have the same.
pub open spec fn rank(bits: u32) -> int {
    if bits < 0x8000_0000 {
        bits as int
    } else {
        0x8000_0000 - bits
    }
}

fn ranked(bits: u32) -> (r: i64)
    ensures
        r == rank(bits),
{
    if bits < SIGN {
        bits as i64
    } else {
        SIGN as i64 - bits as i64
    }
}

pub open spec fn lesser(a: u32, b: u32) -> u32 {
    if !is_nan(b) && rank(b) < rank(a) {
        b
    } else {
        a
    }
}

pub open spec fn greater(a: u32, b: u32) -> u32 {
    if !is_nan(b) && rank(b) > rank(a) {
        b
    } else {
        a
    }
}

/// The least number of `all`, infinity where there is none.
pub open spec fn least(all: Seq<u32>) -> u32
    decreases all.len(),
{
    if all.len() == 0 {
        INFINITE
    } else {
        lesser(least(all.drop_last()), all.last())
    }
}

/// The greatest number of `all`, minus infinity where there is none.
pub open spec fn greatest(all: Seq<u32>) -> u32
    decreases all.len(),
{
    if all.len() == 0 {
        MINUS_INFINITE
    } else {
        greater(greatest(all.drop_last()), all.last())
    }
}

fn lower(a: u32, b: u32) -> (out: u32)
    ensures
        out == lesser(a, b),
{
    if b % SIGN <= INFINITE && ranked(b) < ranked(a) {
        b
    } else {
        a
    }
}

fn higher(a: u32, b: u32) -> (out: u32)
    ensures
        out == greater(a, b),
{
    if b % SIGN <= INFINITE && ranked(b) > ranked(a) {
        b
    } else {
        a
    }
}

/// The bounds enclose every coordinate that is a number.
pub proof fn bounds_enclose_every_number(all: Seq<u32>, i: int)
    requires
        0 <= i < all.len(),
        !is_nan(all[i]),
    ensures
        rank(least(all)) <= rank(all[i]) <= rank(greatest(all)),
    decreases all.len(),
{
    if i < all.len() - 1 {
        assert(all.drop_last()[i] == all[i]);
        bounds_enclose_every_number(all.drop_last(), i);
    }
}

// ------------------------------------------------------------------- points

/// Rows up to `n` that are visible and have coordinates, in catalog order.
pub open spec fn points(catalog: Catalog, n: nat) -> Seq<usize>
    decreases n,
{
    if n == 0 {
        Seq::empty()
    } else {
        let sooner = points(catalog, (n - 1) as nat);
        let track = catalog.tracks@[n - 1];
        if !catalog.blocks(n - 1) && track.x is Some && track.y is Some {
            sooner.push((n - 1) as usize)
        } else {
            sooner
        }
    }
}

pub open spec fn all_points(catalog: Catalog) -> Seq<usize> {
    points(catalog, catalog.tracks@.len())
}

pub open spec fn xs(catalog: Catalog, rows: Seq<usize>) -> Seq<u32> {
    Seq::new(rows.len(), |i: int| catalog.tracks@[rows[i] as int].x->0)
}

pub open spec fn ys(catalog: Catalog, rows: Seq<usize>) -> Seq<u32> {
    Seq::new(rows.len(), |i: int| catalog.tracks@[rows[i] as int].y->0)
}

/// The genre of each of the rows.
pub open spec fn genres_of(catalog: Catalog, rows: Seq<usize>) -> Seq<Seq<char>> {
    Seq::new(rows.len(), |i: int| catalog.tracks@[rows[i] as int].genre@)
}

/// Each of `all` once, in the order they first occur.
pub open spec fn distinct(all: Seq<Seq<char>>) -> Seq<Seq<char>>
    decreases all.len(),
{
    if all.len() == 0 {
        Seq::empty()
    } else {
        let sooner = distinct(all.drop_last());
        if sooner.contains(all.last()) {
            sooner
        } else {
            sooner.push(all.last())
        }
    }
}

/// Every value stands among the distinct ones, once.
pub proof fn distinct_holds_each_once(all: Seq<Seq<char>>)
    ensures
        distinct(all).no_duplicates(),
        distinct(all).len() <= all.len(),
        forall|v: Seq<char>| #[trigger] distinct(all).contains(v) <==> all.contains(v),
    decreases all.len(),
{
    if all.len() > 0 {
        let fewer = all.drop_last();
        let sooner = distinct(fewer);
        distinct_holds_each_once(fewer);
        assert forall|v: Seq<char>| #[trigger] distinct(all).contains(v) <==> all.contains(v) by {
            if all.contains(v) {
                let i = choose|i: int| 0 <= i < all.len() && all[i] == v;
                if i < fewer.len() {
                    assert(fewer[i] == v);
                    assert(fewer.contains(v));
                    assert(sooner.contains(v));
                    let k = choose|k: int| 0 <= k < sooner.len() && sooner[k] == v;
                    assert(distinct(all)[k] == v);
                } else if !sooner.contains(v) {
                    assert(distinct(all)[sooner.len() as int] == v);
                }
            }
            if distinct(all).contains(v) {
                let k = choose|k: int| 0 <= k < distinct(all).len() && distinct(all)[k] == v;
                if k < sooner.len() {
                    assert(sooner[k] == v);
                    assert(sooner.contains(v));
                    let i = choose|i: int| 0 <= i < fewer.len() && fewer[i] == v;
                    assert(all[i] == v);
                } else {
                    assert(all[all.len() - 1] == v);
                }
            }
        }
    }
}

proof fn lemma_points(catalog: Catalog, n: nat)
    requires
        n <= catalog.tracks@.len() <= usize::MAX,
    ensures
        points(catalog, n).len() <= n,
        forall|i: int|
            0 <= i < points(catalog, n).len() ==> {
                let row = #[trigger] points(catalog, n)[i];
                row < n && catalog.tracks@[row as int].x is Some && catalog.tracks@[row as int].y
                    is Some
            },
    decreases n,
{
    if n > 0 {
        lemma_points(catalog, (n - 1) as nat);
        let sooner = points(catalog, (n - 1) as nat);
        assert forall|i: int| 0 <= i < points(catalog, n).len() implies ({
            let row = #[trigger] points(catalog, n)[i];
            row < n && catalog.tracks@[row as int].x is Some && catalog.tracks@[row as int].y is Some
        }) by {
            if i < sooner.len() {
                assert(points(catalog, n)[i] == sooner[i]);
            }
        }
    }
}

/// Tracks that have layout coordinates, in catalog order.
pub fn laid_out(catalog: &Catalog) -> (rows: Vec<usize>)
    ensures
        rows@ == all_points(*catalog),
        forall|i: int|
            0 <= i < rows@.len() ==> {
                let row = #[trigger] rows@[i];
                row < catalog.tracks@.len() && catalog.tracks@[row as int].x is Some
                    && catalog.tracks@[row as int].y is Some
            },
{
    let mut rows: Vec<usize> = Vec::new();
    let n: usize = catalog.len();
    let mut i: usize = 0;
    while i < n
        invariant
            i <= n,
            n == catalog.tracks@.len(),
            rows@ == points(*catalog, i as nat),
        decreases n - i,
    {
        let track = catalog.get(i);
        if !catalog.is_blocked(i) && track.x.is_some() && track.y.is_some() {
            rows.push(i);
        }
        i = i + 1;
    }
    proof {
        lemma_points(*catalog, n as nat);
    }
    rows
}

/// Where in `genres` a genre stands.
fn place_of(genres: &Vec<String>, genre: &str) -> (at: Option<usize>)
    ensures
        match at {
            Some(i) => i < genres@.len() && genres@[i as int]@ == genre@,
            None => !views(genres@).contains(genre@),
        },
{
    let mut i: usize = 0;
    while i < genres.len()
        invariant
            i <= genres@.len(),
            forall|k: int| 0 <= k < i ==> (#[trigger] genres@[k])@ != genre@,
        decreases genres@.len() - i,
    {
        if same(genres[i].as_str(), genre) {
            return Some(i);
        }
        i = i + 1;
    }
    proof {
        if views(genres@).contains(genre@) {
            let k = choose|k: int| 0 <= k < views(genres@).len() && views(genres@)[k] == genre@;
            assert(genres@[k]@ == genre@);
        }
    }
    None
}

fn list_genres(catalog: &Catalog, rows: &Vec<usize>) -> (genres: Vec<String>)
    requires
        forall|i: int| 0 <= i < rows@.len() ==> #[trigger] rows@[i] < catalog.tracks@.len(),
    ensures
        views(genres@) == distinct(genres_of(*catalog, rows@)),
{
    let ghost all = genres_of(*catalog, rows@);
    let mut genres: Vec<String> = Vec::new();
    let mut i: usize = 0;
    assert(all.take(0) =~= Seq::empty());
    assert(views(genres@) =~= Seq::empty());
    while i < rows.len()
        invariant
            forall|i: int| 0 <= i < rows@.len() ==> #[trigger] rows@[i] < catalog.tracks@.len(),
            i <= rows@.len(),
            all == genres_of(*catalog, rows@),
            views(genres@) == distinct(all.take(i as int)),
        decreases rows@.len() - i,
    {
        assert(all.take(i + 1).drop_last() =~= all.take(i as int));
        assert(rows@[i as int] < catalog.tracks@.len());
        let genre = &catalog.get(rows[i]).genre;
        assert(all.take(i + 1).last() == genre@);
        match place_of(&genres, genre.as_str()) {
            Some(at) => {
                assert(views(genres@)[at as int] == genre@);
            },
            None => {
                let ghost earlier = genres@;
                genres.push(genre.clone());
                assert(views(genres@) =~= views(earlier).push(genre@));
            },
        }
        i = i + 1;
    }
    assert(all.take(all.len() as int) =~= all);
    genres
}

pub fn meta(catalog: &Catalog) -> (meta: MapMeta)
    ensures
        meta.n == all_points(*catalog).len(),
        meta.has_layout == (all_points(*catalog).len() > 0),
        views(meta.genres@) == distinct(genres_of(*catalog, all_points(*catalog))),
        meta.bounds == (if all_points(*catalog).len() == 0 {
            Bounds { min_x: 0, max_x: 0, min_y: 0, max_y: 0 }
        } else {
            Bounds {
                min_x: least(xs(*catalog, all_points(*catalog))),
                max_x: greatest(xs(*catalog, all_points(*catalog))),
                min_y: least(ys(*catalog, all_points(*catalog))),
                max_y: greatest(ys(*catalog, all_points(*catalog))),
            }
        }),
{
    let rows = laid_out(catalog);
    let genres = list_genres(catalog, &rows);
    let ghost across = xs(*catalog, rows@);
    let ghost down = ys(*catalog, rows@);
    let mut bounds = Bounds {
        min_x: INFINITE,
        max_x: MINUS_INFINITE,
        min_y: INFINITE,
        max_y: MINUS_INFINITE,
    };
    let mut i: usize = 0;
    assert(across.take(0) =~= Seq::empty());
    assert(down.take(0) =~= Seq::empty());
    while i < rows.len()
        invariant
            i <= rows@.len(),
            across == xs(*catalog, rows@),
            down == ys(*catalog, rows@),
            forall|i: int|
                0 <= i < rows@.len() ==> {
                    let row = #[trigger] rows@[i];
                    row < catalog.tracks@.len() && catalog.tracks@[row as int].x is Some
                        && catalog.tracks@[row as int].y is Some
                },
            bounds.min_x == least(across.take(i as int)),
            bounds.max_x == greatest(across.take(i as int)),
            bounds.min_y == least(down.take(i as int)),
            bounds.max_y == greatest(down.take(i as int)),
        decreases rows@.len() - i,
    {
        assert(across.take(i + 1).drop_last() =~= across.take(i as int));
        assert(down.take(i + 1).drop_last() =~= down.take(i as int));
        let row: usize = rows[i];
        assert(row == rows@[i as int]);
        let track = catalog.get(row);
        if let (Some(x), Some(y)) = (track.x, track.y) {
            bounds.min_x = lower(bounds.min_x, x);
            bounds.max_x = higher(bounds.max_x, x);
            bounds.min_y = lower(bounds.min_y, y);
            bounds.max_y = higher(bounds.max_y, y);
        }
        i = i + 1;
    }
    assert(across.take(across.len() as int) =~= across);
    assert(down.take(down.len() as int) =~= down);
    if rows.len() == 0 {
        bounds = Bounds::default();
    }
    MapMeta { n: rows.len(), genres, bounds, has_layout: rows.len() > 0 }
}

// ------------------------------------------------------------------ payload

/// `size` bytes of a number, lowest first.
pub open spec fn low_first(n: nat, size: nat) -> Seq<u8>
    decreases size,
{
    if size == 0 {
        Seq::empty()
    } else {
        seq![(n % 256) as u8] + low_first(n / 256, (size - 1) as nat)
    }
}

fn push_low_first(out: &mut Vec<u8>, n: u64, size: usize)
    ensures
        final(out)@ == old(out)@ + low_first(n as nat, size as nat),
{
    let ghost start = out@;
    let mut rest: u64 = n;
    let mut left: usize = size;
    assert(start + low_first(n as nat, size as nat) =~= out@ + low_first(rest as nat, left as nat));
    while left > 0
        invariant
            out@ + low_first(rest as nat, left as nat) == start + low_first(n as nat, size as nat),
        decreases left,
    {
        proof {
            let after = low_first((rest / 256) as nat, (left - 1) as nat);
            assert(out@ + (seq![(rest % 256) as u8] + after) =~= out@.push((rest % 256) as u8) + after);
        }
        out.push((rest % 256) as u8);
        rest = rest / 256;
        left = left - 1;
    }
    assert(out@ + low_first(rest as nat, 0) =~= out@);
}

proof fn lemma_low_first_len(n: nat, size: nat)
    ensures
        low_first(n, size).len() == size,
    decreases size,
{
    if size > 0 {
        lemma_low_first_len(n / 256, (size - 1) as nat);
    }
}

/// The numbers, `size` bytes each, one after another.
pub open spec fn packed(numbers: Seq<nat>, size: nat) -> Seq<u8>
    decreases numbers.len(),
{
    if numbers.len() == 0 {
        Seq::empty()
    } else {
        packed(numbers.drop_last(), size) + low_first(numbers.last(), size)
    }
}

/// Every number takes up its share, so each section starts where its size
/// says.
pub proof fn packed_takes_its_share(numbers: Seq<nat>, size: nat)
    ensures
        packed(numbers, size).len() == numbers.len() * size,
    decreases numbers.len(),
{
    if numbers.len() > 0 {
        packed_takes_its_share(numbers.drop_last(), size);
        lemma_low_first_len(numbers.last(), size);
        assert(numbers.len() * size == (numbers.len() - 1) * size + size) by (nonlinear_arith);
    }
}

/// The coordinates of the rows, x and y in turn.
pub open spec fn pairs(catalog: Catalog, rows: Seq<usize>) -> Seq<nat>
    decreases rows.len(),
{
    if rows.len() == 0 {
        Seq::empty()
    } else {
        let track = catalog.tracks@[rows.last() as int];
        pairs(catalog, rows.drop_last()).push(track.x->0 as nat).push(track.y->0 as nat)
    }
}

/// Where each row's genre stands among the distinct ones.
pub open spec fn genre_places(catalog: Catalog, rows: Seq<usize>) -> Seq<nat> {
    let names = distinct(genres_of(catalog, rows));
    Seq::new(rows.len(), |i: int| names.index_of(genres_of(catalog, rows)[i]) as nat)
}

/// `bits` are what `id_bits` gave for the ids of the rows.
pub open spec fn id_patterns<F: Fn(i64) -> u64>(
    catalog: Catalog,
    rows: Seq<usize>,
    id_bits: F,
    bits: Seq<nat>,
) -> bool {
    &&& bits.len() == rows.len()
    &&& forall|i: int|
        0 <= i < rows.len() ==> (#[trigger] bits[i]) <= u64::MAX && id_bits.ensures(
            (catalog.tracks@[rows[i] as int].track_id,),
            bits[i] as u64,
        )
}

/// One binary blob, laid out so the page can make typed-array views of it with
/// no copying: eight bytes per track id, then four each for x and y, then two
/// per genre index, all lowest byte first.
///
/// `id_bits` is asked for the pattern of an id as a 64-bit float, which keeps
/// the page's numbers exact.
pub fn payload<F: Fn(i64) -> u64>(catalog: &Catalog, id_bits: F) -> (bytes: Vec<u8>)
    requires
        distinct(genres_of(*catalog, all_points(*catalog))).len() <= MAX_GENRES,
        forall|id: i64| #[trigger] id_bits.requires((id,)),
    ensures
        exists|bits: Seq<nat>| #[trigger]
            id_patterns(*catalog, all_points(*catalog), id_bits, bits) && bytes@ == packed(bits, 8)
                + packed(pairs(*catalog, all_points(*catalog)), 4) + packed(
                genre_places(*catalog, all_points(*catalog)),
                2,
            ),
{
    let rows = laid_out(catalog);
    let genres = list_genres(catalog, &rows);
    let mut bytes: Vec<u8> = Vec::new();
    let ghost mut bits: Seq<nat> = Seq::empty();
    let mut i: usize = 0;
    while i < rows.len()
        invariant
            i <= rows@.len(),
            forall|i: int| 0 <= i < rows@.len() ==> #[trigger] rows@[i] < catalog.tracks@.len(),
            forall|id: i64| #[trigger] id_bits.requires((id,)),
            id_patterns(*catalog, rows@.take(i as int), id_bits, bits),
            bytes@ == packed(bits, 8),
        decreases rows@.len() - i,
    {
        assert(rows@[i as int] < catalog.tracks@.len());
        let pattern: u64 = id_bits(catalog.get(rows[i]).track_id);
        push_low_first(&mut bytes, pattern, 8);
        proof {
            let earlier = bits;
            bits = bits.push(pattern as nat);
            assert(bits.drop_last() =~= earlier);
            let now = rows@.take(i + 1);
            assert forall|k: int| 0 <= k < now.len() implies (#[trigger] bits[k]) <= u64::MAX
                && id_bits.ensures((catalog.tracks@[now[k] as int].track_id,), bits[k] as u64) by {
                if k < i {
                    assert(bits[k] == earlier[k]);
                    assert(now[k] == rows@.take(i as int)[k]);
                }
            }
        }
        i = i + 1;
    }
    assert(rows@.take(rows@.len() as int) =~= rows@);
    let ghost ids = bytes@;
    let mut j: usize = 0;
    proof {
        assert(rows@.take(0) =~= Seq::empty());
        assert(bytes@ =~= ids + packed(Seq::empty(), 4));
    }
    while j < rows.len()
        invariant
            j <= rows@.len(),
            forall|i: int|
                0 <= i < rows@.len() ==> {
                    let row = #[trigger] rows@[i];
                    row < catalog.tracks@.len() && catalog.tracks@[row as int].x is Some
                        && catalog.tracks@[row as int].y is Some
                },
            bytes@ == ids + packed(pairs(*catalog, rows@.take(j as int)), 4),
        decreases rows@.len() - j,
    {
        let row: usize = rows[j];
        assert(row == rows@[j as int]);
        let track = catalog.get(row);
        let x: u32 = match track.x {
            Some(x) => x,
            None => 0,
        };
        let y: u32 = match track.y {
            Some(y) => y,
            None => 0,
        };
        push_low_first(&mut bytes, x as u64, 4);
        push_low_first(&mut bytes, y as u64, 4);
        proof {
            let sooner = pairs(*catalog, rows@.take(j as int));
            assert(rows@.take(j + 1).drop_last() =~= rows@.take(j as int));
            let one = sooner.push(x as nat);
            let two = one.push(y as nat);
            assert(two == pairs(*catalog, rows@.take(j + 1)));
            assert(one.drop_last() =~= sooner);
            assert(two.drop_last() =~= one);
            assert(packed(one, 4) == packed(sooner, 4) + low_first(x as nat, 4));
            assert(packed(two, 4) == packed(one, 4) + low_first(y as nat, 4));
            assert(bytes@ =~= ids + packed(two, 4));
        }
        j = j + 1;
    }
    let ghost drawn = bytes@;
    let ghost places = genre_places(*catalog, rows@);
    let mut g: usize = 0;
    proof {
        assert(places.take(0) =~= Seq::empty());
        assert(bytes@ =~= drawn + packed(places.take(0), 2));
        distinct_holds_each_once(genres_of(*catalog, rows@));
    }
    while g < rows.len()
        invariant
            g <= rows@.len(),
            forall|i: int| 0 <= i < rows@.len() ==> #[trigger] rows@[i] < catalog.tracks@.len(),
            places == genre_places(*catalog, rows@),
            views(genres@) == distinct(genres_of(*catalog, rows@)),
            views(genres@).no_duplicates(),
            forall|v: Seq<char>| #[trigger]
                views(genres@).contains(v) <==> genres_of(*catalog, rows@).contains(v),
            genres@.len() <= MAX_GENRES,
            bytes@ == drawn + packed(places.take(g as int), 2),
        decreases rows@.len() - g,
    {
        assert(rows@[g as int] < catalog.tracks@.len());
        let genre = &catalog.get(rows[g]).genre;
        let at: usize = match place_of(&genres, genre.as_str()) {
            Some(at) => at,
            None => 0,
        };
        proof {
            let all = genres_of(*catalog, rows@);
            assert(all[g as int] == genre@);
            assert(all.contains(genre@));
            assert(views(genres@).contains(genre@));
            assert(views(genres@)[at as int] == genre@);
            let told = views(genres@).index_of(genre@);
            assert(views(genres@)[told] == genre@);
            assert(told == at);
            assert(places.take(g + 1).drop_last() =~= places.take(g as int));
            assert(places.take(g + 1).last() == at as nat);
        }
        push_low_first(&mut bytes, at as u64, 2);
        assert(bytes@ =~= drawn + packed(places.take(g + 1), 2));
        g = g + 1;
    }
    assert(places.take(places.len() as int) =~= places);
    assert(id_patterns(*catalog, all_points(*catalog), id_bits, bits));
    bytes
}

} // verus!
