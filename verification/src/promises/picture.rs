//! What the map has to live up to.

use crate::db::Catalog;
use crate::map::{
    all_points, distinct, distinct_holds_each_once, genre_places, genres_of, greatest, id_patterns,
    least, low_first, meta, packed, packed_takes_its_share, pairs, payload, points, xs, ys, MapMeta,
};
use crate::strings::views;
use vstd::prelude::*;

verus! {

/// A track is on the map: its artist is not blocked and it has both coordinates.
pub open spec fn is_on_the_map(catalog: Catalog, row: int) -> bool {
    &&& 0 <= row < catalog.tracks@.len()
    &&& !catalog.blocked_artists@.contains(catalog.tracks@[row].artist_id)
    &&& catalog.tracks@[row].x is Some
    &&& catalog.tracks@[row].y is Some
}

proof fn lemma_points_hold(catalog: Catalog, n: nat)
    requires
        n <= catalog.tracks@.len() <= usize::MAX,
    ensures
        forall|i: int, j: int|
            0 <= i < j < points(catalog, n).len() ==> #[trigger] points(catalog, n)[i]
                < #[trigger] points(catalog, n)[j],
        forall|i: int|
            0 <= i < points(catalog, n).len() ==> (#[trigger] points(catalog, n)[i]) < n
                && is_on_the_map(catalog, points(catalog, n)[i] as int),
        forall|row: int|
            0 <= row < n && is_on_the_map(catalog, row) ==> #[trigger] points(
                catalog,
                n,
            ).contains(row as usize),
    decreases n,
{
    if n > 0 {
        let sooner = points(catalog, (n - 1) as nat);
        let all = points(catalog, n);
        lemma_points_hold(catalog, (n - 1) as nat);
        assert forall|i: int| 0 <= i < all.len() implies (#[trigger] all[i]) < n && is_on_the_map(
            catalog,
            all[i] as int,
        ) by {
            if i < sooner.len() {
                assert(all[i] == sooner[i]);
            }
        }
        assert forall|i: int, j: int| 0 <= i < j < all.len() implies #[trigger] all[i]
            < #[trigger] all[j] by {
            assert(all[i] == sooner[i]);
            if j < sooner.len() {
                assert(all[j] == sooner[j]);
            }
        }
        assert forall|row: int| 0 <= row < n && is_on_the_map(catalog, row) implies #[trigger] all.contains(
            row as usize,
        ) by {
            if row < n - 1 {
                assert(sooner.contains(row as usize));
                let k = choose|k: int| 0 <= k < sooner.len() && sooner[k] == row as usize;
                assert(all[k] == row as usize);
            } else {
                assert(all[sooner.len() as int] == row as usize);
            }
        }
    }
}

/// The points of the map are all the tracks that are on it, each once, in the
/// order of the catalogue.
pub proof fn the_map_shows_what_is_on_it(catalog: Catalog)
    requires
        catalog.tracks@.len() <= usize::MAX,
    ensures
        forall|i: int, j: int|
            0 <= i < j < all_points(catalog).len() ==> #[trigger] all_points(catalog)[i]
                < #[trigger] all_points(catalog)[j],
        forall|row: usize| #[trigger]
            all_points(catalog).contains(row) <==> is_on_the_map(catalog, row as int),
{
    let all = all_points(catalog);
    lemma_points_hold(catalog, catalog.tracks@.len());
    assert forall|row: usize| #[trigger] all.contains(row) <==> is_on_the_map(
        catalog,
        row as int,
    ) by {
        if all.contains(row) {
            let k = choose|k: int| 0 <= k < all.len() && all[k] == row;
            assert(is_on_the_map(catalog, all[k] as int));
        }
        if is_on_the_map(catalog, row as int) {
            assert(all.contains(row as int as usize));
        }
    }
}

/// One number is below another, by their patterns: of two that are not negative
/// the lower pattern is, of two that are the higher one, and a negative one is
/// below one that is not, unless both are zero.
pub open spec fn is_below(a: u32, b: u32) -> bool {
    if a < 0x8000_0000 && b < 0x8000_0000 {
        a < b
    } else if a >= 0x8000_0000 && b >= 0x8000_0000 {
        b < a
    } else {
        a >= 0x8000_0000 && !(a == 0x8000_0000 && b == 0)
    }
}

/// A pattern that stands for a number: its magnitude is no more than infinity's.
pub open spec fn is_number(a: u32) -> bool {
    a <= 0x7f80_0000 || 0x8000_0000 <= a <= 0xff80_0000
}

/// The bounds are the least and the greatest of the coordinates that are numbers:
/// none lies beyond them, and each is one of them, or infinite where there is
/// none that is not.
pub proof fn bounds_are_the_extremes(all: Seq<u32>)
    ensures
        forall|i: int|
            0 <= i < all.len() && is_number(all[i]) ==> !is_below(#[trigger] all[i], least(all))
                && !is_below(greatest(all), all[i]),
        least(all) == 0x7f80_0000 || exists|i: int|
            0 <= i < all.len() && is_number(all[i]) && #[trigger] all[i] == least(all),
        greatest(all) == 0xff80_0000 || exists|i: int|
            0 <= i < all.len() && is_number(all[i]) && #[trigger] all[i] == greatest(all),
        is_number(least(all)) && is_number(greatest(all)),
    decreases all.len(),
{
    if all.len() > 0 {
        let fewer = all.drop_last();
        let last = all.len() - 1;
        bounds_are_the_extremes(fewer);
        assert(all[last] == all.last());
        assert forall|i: int| 0 <= i < all.len() && is_number(all[i]) implies !is_below(
            #[trigger] all[i],
            least(all),
        ) && !is_below(greatest(all), all[i]) by {
            if i < last {
                assert(fewer[i] == all[i]);
            }
        }
        if least(all) != least(fewer) {
            assert(all[last] == least(all));
        } else if least(fewer) != 0x7f80_0000 {
            let i = choose|i: int|
                0 <= i < fewer.len() && is_number(fewer[i]) && #[trigger] fewer[i] == least(fewer);
            assert(all[i] == fewer[i]);
        }
        if greatest(all) != greatest(fewer) {
            assert(all[last] == greatest(all));
        } else if greatest(fewer) != 0xff80_0000 {
            let i = choose|i: int|
                0 <= i < fewer.len() && is_number(fewer[i]) && #[trigger] fewer[i] == greatest(fewer);
            assert(all[i] == fewer[i]);
        }
    }
}

/// The genres are listed in the order they first occur, each once.
pub proof fn genres_come_as_they_first_occur(all: Seq<Seq<char>>) -> (first: Seq<int>)
    ensures
        first.len() == distinct(all).len(),
        forall|g: int|
            0 <= g < first.len() ==> 0 <= #[trigger] first[g] < all.len() && all[first[g]]
                == distinct(all)[g] && forall|sooner: int|
                0 <= sooner < first[g] ==> #[trigger] all[sooner] != all[first[g]],
        forall|g: int, h: int|
            0 <= g < h < first.len() ==> #[trigger] first[g] < #[trigger] first[h],
        forall|i: int| 0 <= i < all.len() ==> distinct(all).contains(#[trigger] all[i]),
    decreases all.len(),
{
    distinct_holds_each_once(all);
    assert forall|i: int| 0 <= i < all.len() implies distinct(all).contains(#[trigger] all[i]) by {
        assert(all.contains(all[i]));
    }
    if all.len() == 0 {
        Seq::empty()
    } else {
        let fewer = all.drop_last();
        let last = all.len() - 1;
        let names = distinct(fewer);
        let sooner = genres_come_as_they_first_occur(fewer);
        distinct_holds_each_once(fewer);
        let found = names.contains(all.last());
        let first = if found {
            sooner
        } else {
            sooner.push(last)
        };
        assert forall|g: int| 0 <= g < first.len() implies 0 <= #[trigger] first[g] < all.len()
            && all[first[g]] == distinct(all)[g] && forall|s: int|
            0 <= s < first[g] ==> #[trigger] all[s] != all[first[g]] by {
            if g < sooner.len() {
                assert(first[g] == sooner[g]);
                assert(fewer[sooner[g]] == names[g]);
                assert forall|s: int| 0 <= s < first[g] implies #[trigger] all[s]
                    != all[first[g]] by {
                    assert(fewer[s] == all[s]);
                }
            } else {
                assert forall|s: int| 0 <= s < last implies #[trigger] all[s] != all[last] by {
                    assert(fewer[s] == all[s]);
                    assert(fewer.contains(fewer[s]));
                }
            }
        }
        first
    }
}

/// Two to the power of eight times `b`.
pub open spec fn byte_place(b: nat) -> nat
    decreases b,
{
    if b == 0 {
        1
    } else {
        256 * byte_place((b - 1) as nat)
    }
}

proof fn lemma_low_first_digit(n: nat, size: nat, b: nat)
    requires
        b < size,
    ensures
        low_first(n, size).len() == size,
        low_first(n, size)[b as int] == (n / byte_place(b)) % 256,
        byte_place(b) > 0,
    decreases size,
{
    let rest = low_first(n / 256, (size - 1) as nat);
    if size > 1 {
        lemma_low_first_digit(
            n / 256,
            (size - 1) as nat,
            if b > 0 {
                (b - 1) as nat
            } else {
                0
            },
        );
    }
    if b == 0 {
        assert(n / 1 == n);
    } else {
        let p = byte_place((b - 1) as nat);
        assert((n / 256) / p == n / (256 * p)) by {
            vstd::arithmetic::div_mod::lemma_div_denominator(n as int, 256, p as int);
        }
        assert(low_first(n, size)[b as int] == rest[b - 1]);
    }
}

/// Packed numbers can be read back: the `k`th takes `size` bytes, the lowest one
/// first.
pub proof fn packed_numbers_read_back(numbers: Seq<nat>, size: nat, k: int, b: nat)
    requires
        0 <= k < numbers.len(),
        b < size,
    ensures
        packed(numbers, size).len() == numbers.len() * size,
        0 <= k * size + b < numbers.len() * size,
        packed(numbers, size)[k * size + b] == (numbers[k] / byte_place(b)) % 256,
    decreases numbers.len(),
{
    packed_takes_its_share(numbers, size);
    let fewer = numbers.drop_last();
    let last = numbers.len() - 1;
    packed_takes_its_share(fewer, size);
    lemma_low_first_digit(numbers.last(), size, b);
    assert(0 <= k * size + b < numbers.len() * size) by (nonlinear_arith)
        requires
            0 <= k < numbers.len(),
            b < size,
    ;
    if k < last {
        packed_numbers_read_back(fewer, size, k, b);
        assert(fewer[k] == numbers[k]);
    } else {
        assert(last * size + b - fewer.len() * size == b) by (nonlinear_arith)
            requires
                fewer.len() == last,
        ;
    }
}

/// The coordinates are those of the tracks, x and y in turn.
pub proof fn coordinates_come_in_turn(catalog: Catalog, rows: Seq<usize>, i: int)
    requires
        0 <= i < rows.len(),
    ensures
        pairs(catalog, rows).len() == 2 * rows.len(),
        pairs(catalog, rows)[2 * i] == catalog.tracks@[rows[i] as int].x->0,
        pairs(catalog, rows)[2 * i + 1] == catalog.tracks@[rows[i] as int].y->0,
    decreases rows.len(),
{
    let fewer = rows.drop_last();
    if rows.len() > 1 {
        coordinates_come_in_turn(
            catalog,
            fewer,
            if i < fewer.len() {
                i
            } else {
                0
            },
        );
    } else {
        assert(pairs(catalog, fewer).len() == 0);
    }
    if i < fewer.len() {
        assert(fewer[i] == rows[i]);
    }
}

/// A point's genre is the one listed at the place that is given for it.
pub proof fn a_genre_stands_at_its_place(catalog: Catalog, rows: Seq<usize>, i: int)
    requires
        0 <= i < rows.len(),
    ensures
        genre_places(catalog, rows).len() == rows.len(),
        genre_places(catalog, rows)[i] < distinct(genres_of(catalog, rows)).len(),
        distinct(genres_of(catalog, rows))[genre_places(catalog, rows)[i] as int]
            == catalog.tracks@[rows[i] as int].genre@,
{
    let all = genres_of(catalog, rows);
    distinct_holds_each_once(all);
    assert(all.contains(all[i]));
    assert(distinct(all).contains(all[i]));
}

/// The description of the map counts what is on it, and its bounds are the
/// extremes of those coordinates, across and down, or nothing where nothing is
/// on it. Its genres are those of what is on it.
pub proof fn a_map_is_described_as_it_is(catalog: &Catalog, told: MapMeta)
    requires
        catalog.tracks@.len() <= usize::MAX,
        call_ensures(meta, (catalog,), told),
    ensures
        told.n == all_points(*catalog).len(),
        told.has_layout <==> exists|row: usize| #[trigger] is_on_the_map(*catalog, row as int),
        !told.has_layout ==> told.bounds.min_x == 0 && told.bounds.max_x == 0 && told.bounds.min_y
            == 0 && told.bounds.max_y == 0,
        forall|row: usize| #[trigger]
            is_on_the_map(*catalog, row as int) ==> {
                let x = catalog.tracks@[row as int].x->0;
                let y = catalog.tracks@[row as int].y->0;
                &&& is_number(x) ==> !is_below(x, told.bounds.min_x) && !is_below(
                    told.bounds.max_x,
                    x,
                )
                &&& is_number(y) ==> !is_below(y, told.bounds.min_y) && !is_below(
                    told.bounds.max_y,
                    y,
                )
                &&& views(told.genres@).contains(catalog.tracks@[row as int].genre@)
            },
        forall|name: Seq<char>| #[trigger]
            views(told.genres@).contains(name) ==> exists|row: usize| #[trigger]
                is_on_the_map(*catalog, row as int) && catalog.tracks@[row as int].genre@ == name,
        views(told.genres@).no_duplicates(),
{
    let rows = all_points(*catalog);
    let across = xs(*catalog, rows);
    let down = ys(*catalog, rows);
    let genres = genres_of(*catalog, rows);
    the_map_shows_what_is_on_it(*catalog);
    bounds_are_the_extremes(across);
    bounds_are_the_extremes(down);
    distinct_holds_each_once(genres);
    if rows.len() > 0 {
        assert(rows.contains(rows[0]));
        assert(is_on_the_map(*catalog, rows[0] as int));
    }
    assert forall|row: usize| #[trigger] is_on_the_map(*catalog, row as int) implies {
        let x = catalog.tracks@[row as int].x->0;
        let y = catalog.tracks@[row as int].y->0;
        &&& is_number(x) ==> !is_below(x, told.bounds.min_x) && !is_below(told.bounds.max_x, x)
        &&& is_number(y) ==> !is_below(y, told.bounds.min_y) && !is_below(told.bounds.max_y, y)
        &&& views(told.genres@).contains(catalog.tracks@[row as int].genre@)
    } by {
        assert(rows.contains(row));
        let k = choose|k: int| 0 <= k < rows.len() && rows[k] == row;
        assert(across[k] == catalog.tracks@[row as int].x->0);
        assert(down[k] == catalog.tracks@[row as int].y->0);
        assert(genres[k] == catalog.tracks@[row as int].genre@);
        assert(genres.contains(genres[k]));
    }
    assert forall|name: Seq<char>| #[trigger] views(told.genres@).contains(name) implies exists|
        row: usize,
    | #[trigger]
        is_on_the_map(*catalog, row as int) && catalog.tracks@[row as int].genre@ == name by {
        assert(genres.contains(name));
        let k = choose|k: int| 0 <= k < genres.len() && genres[k] == name;
        assert(rows.contains(rows[k]));
        assert(is_on_the_map(*catalog, rows[k] as int));
    }
}

/// The bytes of the map hold, of what is on it, the ids as they are given out,
/// eight bytes each, then across and down in turn, four each, then the places of
/// the genres, two each.
pub proof fn the_bytes_hold_the_map<F: Fn(i64) -> u64>(
    catalog: &Catalog,
    id_bits: F,
    bytes: Vec<u8>,
    i: int,
    b: nat,
) -> (bits: Seq<nat>)
    requires
        catalog.tracks@.len() <= usize::MAX,
        call_ensures(payload::<F>, (catalog, id_bits), bytes),
        0 <= i < all_points(*catalog).len(),
    ensures
        ({
            let n = all_points(*catalog).len() as int;
            let track = catalog.tracks@[all_points(*catalog)[i] as int];
            let place = genre_places(*catalog, all_points(*catalog))[i];
            &&& bytes@.len() == 18 * n
            &&& id_bits.ensures((track.track_id,), bits[i] as u64)
            &&& b < 8 ==> bytes@[8 * i + b] == (bits[i] / byte_place(b)) % 256
            &&& b < 4 ==> bytes@[8 * n + 8 * i + b] == (track.x->0 as nat / byte_place(b)) % 256
            &&& b < 4 ==> bytes@[8 * n + 8 * i + 4 + b] == (track.y->0 as nat / byte_place(b)) % 256
            &&& b < 2 ==> bytes@[16 * n + 2 * i + b] == (place / byte_place(b)) % 256
        }),
{
    let rows = all_points(*catalog);
    let n = rows.len() as int;
    let bits = choose|bits: Seq<nat>| #[trigger]
        id_patterns(*catalog, rows, id_bits, bits) && bytes@ == packed(bits, 8) + packed(
            pairs(*catalog, rows),
            4,
        ) + packed(genre_places(*catalog, rows), 2);
    let across = pairs(*catalog, rows);
    let places = genre_places(*catalog, rows);
    coordinates_come_in_turn(*catalog, rows, i);
    packed_takes_its_share(bits, 8);
    packed_takes_its_share(across, 4);
    packed_takes_its_share(places, 2);
    assert(bits[i] <= u64::MAX);
    if b < 8 {
        packed_numbers_read_back(bits, 8, i, b);
    }
    if b < 4 {
        packed_numbers_read_back(across, 4, 2 * i, b);
        packed_numbers_read_back(across, 4, 2 * i + 1, b);
    }
    if b < 2 {
        packed_numbers_read_back(places, 2, i, b);
    }
    bits
}

} // verus!
