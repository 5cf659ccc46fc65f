//! An order for a handful of points in which consecutive ones sit close
//! together: a greedy nearest-neighbour walk, then 2-opt until it stops
//! improving.
//!
//! An *open* path, not a round trip: a playlist ends rather than returning to
//! where it began, so the last point has no outgoing edge and turning the
//! final stretch around re-hangs one edge instead of two.

use vstd::prelude::*;

verus! {

/// An improvement has to be worth more than this: a millionth, in the units of
/// `paths::UNIT`. Rules out turning near-equal stretches back and forth.
pub const TOLERANCE: i64 = 268;

/// Rounds of 2-opt. Bounded rather than run to a fixed point, which keeps a
/// pathological queue from stalling whoever waits for it.
pub const ROUNDS: u32 = 32;

/// Distances between points, a row for each.
pub type Distances = Vec<Vec<i32>>;

pub open spec fn square(m: Seq<Vec<i32>>) -> bool {
    forall|a: int| 0 <= a < m.len() ==> (#[trigger] m[a])@.len() == m.len()
}

pub open spec fn dist(m: Seq<Vec<i32>>, a: usize, b: usize) -> int {
    m[a as int]@[b as int] as int
}

/// Distances are the same both ways.
pub open spec fn symmetric(m: Seq<Vec<i32>>) -> bool {
    forall|a: usize, b: usize|
        a < m.len() && b < m.len() ==> #[trigger] dist(m, a, b) == dist(m, b, a)
}

/// Every entry names a point.
pub open spec fn in_range(m: Seq<Vec<i32>>, t: Seq<usize>) -> bool {
    forall|k: int| 0 <= k < t.len() ==> #[trigger] t[k] < m.len()
}

// ------------------------------------------------------------------- greedy

/// Where in `left` the point nearest to `last` stands: the first of them,
/// where several are equally near.
pub open spec fn nearest(m: Seq<Vec<i32>>, last: usize, left: Seq<usize>) -> int
    decreases left.len(),
{
    if left.len() <= 1 {
        0
    } else {
        let sooner = nearest(m, last, left.drop_last());
        if dist(m, last, left.last()) < dist(m, last, left[sooner]) {
            left.len() - 1
        } else {
            sooner
        }
    }
}

/// Walks from the end of `walked` to the nearest point left, again and again.
pub open spec fn greedy_from(m: Seq<Vec<i32>>, walked: Seq<usize>, left: Seq<usize>) -> Seq<usize>
    decreases left.len(),
{
    if left.len() == 0 {
        walked
    } else {
        let p = nearest(m, walked.last(), left);
        if 0 <= p < left.len() {
            greedy_from(m, walked.push(left[p]), left.remove(p))
        } else {
            walked
        }
    }
}

/// The points after the first, in the order they came.
pub open spec fn others(n: nat) -> Seq<usize> {
    Seq::new((n - 1) as nat, |i: int| (i + 1) as usize)
}

pub open spec fn greedy(m: Seq<Vec<i32>>) -> Seq<usize> {
    greedy_from(m, seq![0usize], others(m.len()))
}

proof fn lemma_nearest_in_range(m: Seq<Vec<i32>>, last: usize, left: Seq<usize>)
    requires
        left.len() > 0,
    ensures
        0 <= nearest(m, last, left) < left.len(),
    decreases left.len(),
{
    if left.len() > 1 {
        lemma_nearest_in_range(m, last, left.drop_last());
    }
}

fn find_nearest(m: &Distances, last: usize, left: &Vec<usize>) -> (at: usize)
    requires
        square(m@),
        last < m@.len(),
        left@.len() > 0,
        in_range(m@, left@),
    ensures
        at == nearest(m@, last, left@),
        at < left@.len(),
{
    let mut at: usize = 0;
    let mut i: usize = 1;
    assert(m@[last as int]@.len() == m@.len());
    while i < left.len()
        invariant
            square(m@),
            last < m@.len(),
            m@[last as int]@.len() == m@.len(),
            in_range(m@, left@),
            1 <= i <= left@.len(),
            at < i,
            at == nearest(m@, last, left@.take(i as int)),
        decreases left@.len() - i,
    {
        proof {
            assert(left@.take(i + 1).drop_last() =~= left@.take(i as int));
            assert(left@.take(i + 1).last() == left@[i as int]);
            assert(left@.take(i + 1)[at as int] == left@[at as int]);
            assert(left@[i as int] < m@.len());
            assert(left@[at as int] < m@.len());
        }
        if m[last][left[i]] < m[last][left[at]] {
            at = i;
        }
        i = i + 1;
    }
    assert(left@.take(left@.len() as int) =~= left@);
    at
}

fn greedy_walk(m: &Distances) -> (walked: Vec<usize>)
    requires
        square(m@),
        m@.len() > 0,
    ensures
        walked@ == greedy(m@),
        in_range(m@, walked@),
{
    let n: usize = m.len();
    let mut walked: Vec<usize> = Vec::new();
    walked.push(0);
    let mut left: Vec<usize> = Vec::new();
    while left.len() < n - 1
        invariant
            n == m@.len(),
            n > 0,
            left@.len() <= n - 1,
            left@ == others(n as nat).take(left@.len() as int),
        decreases n - left@.len(),
    {
        let next: usize = left.len() + 1;
        left.push(next);
    }
    assert(left@ =~= others(n as nat));
    assert(walked@ =~= seq![0usize]);
    while left.len() > 0
        invariant
            square(m@),
            n == m@.len(),
            walked@.len() > 0,
            in_range(m@, walked@),
            in_range(m@, left@),
            greedy_from(m@, walked@, left@) == greedy(m@),
        decreases left@.len(),
    {
        let last: usize = walked[walked.len() - 1];
        let at: usize = find_nearest(m, last, &left);
        let ghost remaining = left@;
        let pick: usize = left.remove(at);
        walked.push(pick);
        assert(left@ =~= remaining.remove(at as int));
    }
    walked
}

// -------------------------------------------------------------------- 2-opt

/// `t` with the stretch from `i` to `j`, both included, turned around.
pub open spec fn turned(t: Seq<usize>, i: int, j: int) -> Seq<usize> {
    Seq::new(
        t.len(),
        |k: int|
            if i <= k <= j {
                t[i + j - k]
            } else {
                t[k]
            },
    )
}

/// What the edges at the ends of the stretch come to now.
pub open spec fn removed(m: Seq<Vec<i32>>, t: Seq<usize>, i: int, j: int) -> int {
    dist(m, t[i - 1], t[i]) + (if j + 1 < t.len() {
        dist(m, t[j], t[j + 1])
    } else {
        0
    })
}

/// What they come to once it is turned around.
pub open spec fn added(m: Seq<Vec<i32>>, t: Seq<usize>, i: int, j: int) -> int {
    dist(m, t[i - 1], t[j]) + (if j + 1 < t.len() {
        dist(m, t[i], t[j + 1])
    } else {
        0
    })
}

pub open spec fn worth(m: Seq<Vec<i32>>, t: Seq<usize>, i: int, j: int) -> bool {
    added(m, t, i, j) + TOLERANCE < removed(m, t, i, j)
}

pub open spec fn improved_at(m: Seq<Vec<i32>>, t: Seq<usize>, i: int, j: int) -> Seq<usize> {
    if worth(m, t, i, j) {
        turned(t, i, j)
    } else {
        t
    }
}

/// Tries every stretch that starts at `i` and ends at `j` or later.
pub open spec fn swept_row(m: Seq<Vec<i32>>, t: Seq<usize>, i: int, j: int) -> Seq<usize>
    decreases t.len() - j,
{
    if j >= t.len() {
        t
    } else {
        swept_row(m, improved_at(m, t, i, j), i, j + 1)
    }
}

/// Tries every stretch that starts at `i` or later.
pub open spec fn swept_from(m: Seq<Vec<i32>>, t: Seq<usize>, i: int) -> Seq<usize>
    decreases t.len() - i,
    via swept_from_ends
{
    if i >= t.len() - 1 {
        t
    } else {
        swept_from(m, swept_row(m, t, i, i + 1), i + 1)
    }
}

#[via_fn]
proof fn swept_from_ends(m: Seq<Vec<i32>>, t: Seq<usize>, i: int) {
    lemma_row_keeps_len(m, t, i, i + 1);
}

proof fn lemma_row_keeps_len(m: Seq<Vec<i32>>, t: Seq<usize>, i: int, j: int)
    ensures
        swept_row(m, t, i, j).len() == t.len(),
    decreases t.len() - j,
{
    if j < t.len() {
        lemma_row_keeps_len(m, improved_at(m, t, i, j), i, j + 1);
    }
}

/// Every stretch once, the first point staying where it is.
pub open spec fn swept(m: Seq<Vec<i32>>, t: Seq<usize>) -> Seq<usize> {
    swept_from(m, t, 1)
}

/// `rounds` sweeps, one after the other.
pub open spec fn refined(m: Seq<Vec<i32>>, t: Seq<usize>, rounds: nat) -> Seq<usize>
    decreases rounds,
{
    if rounds == 0 {
        t
    } else {
        refined(m, swept(m, t), (rounds - 1) as nat)
    }
}

/// A sweep that changes nothing leaves nothing to do for the rest.
proof fn lemma_refined_settles(m: Seq<Vec<i32>>, t: Seq<usize>, rounds: nat)
    requires
        swept(m, t) == t,
    ensures
        refined(m, t, rounds) == t,
    decreases rounds,
{
    if rounds > 0 {
        lemma_refined_settles(m, t, (rounds - 1) as nat);
    }
}

fn turn(t: &mut Vec<usize>, i: usize, j: usize)
    requires
        i <= j < old(t)@.len(),
    ensures
        final(t)@ == turned(old(t)@, i as int, j as int),
{
    let ghost start = t@;
    let mut lo: usize = i;
    let mut hi: usize = j;
    while lo < hi
        invariant
            i <= lo,
            hi <= j < t@.len(),
            lo <= hi + 1,
            lo - i == j - hi,
            t@.len() == start.len(),
            forall|k: int|
                0 <= k < t@.len() ==> #[trigger] t@[k] == (if i <= k < lo || hi < k <= j {
                    start[i + j - k]
                } else {
                    start[k]
                }),
        decreases hi + 1 - lo,
    {
        let a: usize = t[lo];
        let b: usize = t[hi];
        t.set(lo, b);
        t.set(hi, a);
        lo = lo + 1;
        hi = hi - 1;
    }
    assert(t@ =~= turned(start, i as int, j as int));
}

fn is_worth(m: &Distances, t: &Vec<usize>, i: usize, j: usize) -> (yes: bool)
    requires
        square(m@),
        in_range(m@, t@),
        1 <= i < j < t@.len(),
    ensures
        yes == worth(m@, t@, i as int, j as int),
{
    let prev: usize = t[i - 1];
    let head: usize = t[i];
    let tail: usize = t[j];
    assert(t@[i - 1] < m@.len() && t@[i as int] < m@.len() && t@[j as int] < m@.len());
    assert(m@[prev as int]@.len() == m@.len());
    assert(m@[head as int]@.len() == m@.len());
    assert(m@[tail as int]@.len() == m@.len());
    let mut now: i64 = m[prev][head] as i64;
    let mut then_on: i64 = m[prev][tail] as i64;
    if j < t.len() - 1 {
        let next: usize = t[j + 1];
        assert(t@[j + 1] < m@.len());
        now = now + m[tail][next] as i64;
        then_on = then_on + m[head][next] as i64;
    }
    then_on + TOLERANCE < now
}

fn sweep(m: &Distances, t: &mut Vec<usize>) -> (changed: bool)
    requires
        square(m@),
        in_range(m@, old(t)@),
        old(t)@.len() > 0,
    ensures
        final(t)@ == swept(m@, old(t)@),
        in_range(m@, final(t)@),
        final(t)@.len() == old(t)@.len(),
        !changed ==> final(t)@ == old(t)@,
{
    let n: usize = t.len();
    let ghost goal = swept(m@, t@);
    let ghost start = t@;
    let mut changed: bool = false;
    let mut i: usize = 1;
    while i < n - 1
        invariant
            square(m@),
            in_range(m@, t@),
            n == t@.len(),
            1 <= i,
            n > 0,
            start.len() == n,
            swept_from(m@, t@, i as int) == goal,
            !changed ==> t@ == start,
        decreases n - i,
    {
        let ghost row = swept_row(m@, t@, i as int, i + 1);
        let mut j: usize = i + 1;
        while j < n
            invariant
                square(m@),
                in_range(m@, t@),
                n == t@.len(),
                1 <= i < j <= n,
                start.len() == n,
                swept_row(m@, t@, i as int, j as int) == row,
                !changed ==> t@ == start,
            decreases n - j,
        {
            if is_worth(m, t, i, j) {
                let ghost before = t@;
                turn(t, i, j);
                proof {
                    assert forall|k: int| 0 <= k < t@.len() implies #[trigger] t@[k] < m@.len() by {
                        if i <= k <= j {
                            assert(before[i + j - k] < m@.len());
                        } else {
                            assert(before[k] < m@.len());
                        }
                    }
                }
                changed = true;
            }
            j = j + 1;
        }
        i = i + 1;
    }
    changed
}

/// Visits every point once, starting at the first.
pub fn tour(m: &Distances) -> (t: Vec<usize>)
    requires
        square(m@),
        m@.len() > 0,
    ensures
        t@ == refined(m@, greedy(m@), ROUNDS as nat),
        in_range(m@, t@),
{
    let n: usize = m.len();
    let mut t = greedy_walk(m);
    proof {
        assert(n == m@.len());
        lemma_greedy_shape(m@);
    }
    let mut left: u32 = ROUNDS;
    let mut changed: bool = true;
    while changed && left > 0
        invariant
            square(m@),
            t@.len() > 0,
            in_range(m@, t@),
            left <= ROUNDS,
            refined(m@, t@, left as nat) == refined(m@, greedy(m@), ROUNDS as nat),
            !changed ==> swept(m@, t@) == t@,
        decreases left,
    {
        changed = sweep(m, &mut t);
        left = left - 1;
    }
    proof {
        if left > 0 {
            lemma_refined_settles(m@, t@, left as nat);
        }
    }
    t
}

// --------------------------------------------------------------------- laws

/// Lists every one of `n` points once, the first of them first.
pub open spec fn is_tour(t: Seq<usize>, n: nat) -> bool {
    &&& t.len() == n
    &&& t.len() > 0 ==> t[0] == 0
    &&& t.no_duplicates()
    &&& forall|k: int| 0 <= k < t.len() ==> #[trigger] t[k] < n
}

proof fn lemma_greedy_from_shape(m: Seq<Vec<i32>>, walked: Seq<usize>, left: Seq<usize>)
    requires
        walked.len() > 0,
        walked[0] == 0,
        walked.len() + left.len() == m.len(),
        (walked + left).no_duplicates(),
        forall|k: int| 0 <= k < walked.len() ==> #[trigger] walked[k] < m.len(),
        forall|k: int| 0 <= k < left.len() ==> #[trigger] left[k] < m.len(),
    ensures
        is_tour(greedy_from(m, walked, left), m.len()),
    decreases left.len(),
{
    if left.len() == 0 {
        assert(walked + left =~= walked);
    } else {
        let p = nearest(m, walked.last(), left);
        lemma_nearest_in_range(m, walked.last(), left);
        let w2 = walked.push(left[p]);
        let l2 = left.remove(p);
        let all = walked + left;
        let all2 = w2 + l2;
        assert forall|a: int, b: int| 0 <= a < all2.len() && 0 <= b < all2.len() && a != b implies all2[a]
            != all2[b] by {
            let pa = moved_from(walked.len() as int, p, a);
            let pb = moved_from(walked.len() as int, p, b);
            assert(all2[a] == all[pa]);
            assert(all2[b] == all[pb]);
        }
        lemma_greedy_from_shape(m, w2, l2);
    }
}

/// Where an entry stood before the `p`th of the points left was moved to the
/// end of the `w` walked ones.
spec fn moved_from(w: int, p: int, a: int) -> int {
    if a < w {
        a
    } else if a == w {
        w + p
    } else if a - 1 - w < p {
        a - 1
    } else {
        a
    }
}

proof fn lemma_greedy_shape(m: Seq<Vec<i32>>)
    requires
        0 < m.len() <= usize::MAX,
    ensures
        is_tour(greedy(m), m.len()),
{
    let walked = seq![0usize];
    let left = others(m.len());
    let all = walked + left;
    assert forall|a: int, b: int| 0 <= a < all.len() && 0 <= b < all.len() && a != b implies all[a]
        != all[b] by {
        assert(all[a] == a as usize);
        assert(all[b] == b as usize);
    }
    lemma_greedy_from_shape(m, walked, left);
}

proof fn lemma_turned_shape(t: Seq<usize>, n: nat, i: int, j: int)
    requires
        is_tour(t, n),
        1 <= i <= j < t.len(),
    ensures
        is_tour(turned(t, i, j), n),
{
    let u = turned(t, i, j);
    assert forall|a: int, b: int| 0 <= a < u.len() && 0 <= b < u.len() && a != b implies u[a]
        != u[b] by {
        let pa = if i <= a <= j {
            i + j - a
        } else {
            a
        };
        let pb = if i <= b <= j {
            i + j - b
        } else {
            b
        };
        assert(u[a] == t[pa] && u[b] == t[pb]);
    }
    assert forall|k: int| 0 <= k < u.len() implies #[trigger] u[k] < n by {
        let pk = if i <= k <= j {
            i + j - k
        } else {
            k
        };
        assert(u[k] == t[pk]);
    }
}

/// What the stretch of the path from `lo` to `hi` comes to.
pub open spec fn stretch(m: Seq<Vec<i32>>, t: Seq<usize>, lo: int, hi: int) -> int
    decreases hi - lo,
{
    if hi <= lo {
        0
    } else {
        stretch(m, t, lo, hi - 1) + dist(m, t[hi - 1], t[hi])
    }
}

/// What the whole path comes to.
pub open spec fn path_length(m: Seq<Vec<i32>>, t: Seq<usize>) -> int {
    stretch(m, t, 0, t.len() - 1)
}

proof fn lemma_stretch_splits(m: Seq<Vec<i32>>, t: Seq<usize>, lo: int, mid: int, hi: int)
    requires
        lo <= mid <= hi,
    ensures
        stretch(m, t, lo, hi) == stretch(m, t, lo, mid) + stretch(m, t, mid, hi),
    decreases hi - mid,
{
    if mid < hi {
        lemma_stretch_splits(m, t, lo, mid, hi - 1);
    }
}

proof fn lemma_stretch_same(m: Seq<Vec<i32>>, t: Seq<usize>, u: Seq<usize>, lo: int, hi: int)
    requires
        forall|k: int| lo <= k <= hi ==> t[k] == u[k],
    ensures
        stretch(m, t, lo, hi) == stretch(m, u, lo, hi),
    decreases hi - lo,
{
    if lo < hi {
        lemma_stretch_same(m, t, u, lo, hi - 1);
    }
}

/// A stretch is as long read backwards: the first part of the turned stretch
/// is the last part of the stretch as it was.
proof fn lemma_stretch_turned(m: Seq<Vec<i32>>, t: Seq<usize>, i: int, j: int, k: int)
    requires
        symmetric(m),
        0 <= i <= k <= j < t.len(),
        in_range(m, t),
    ensures
        stretch(m, turned(t, i, j), i, k) == stretch(m, t, i + j - k, j),
    decreases k - i,
{
    if i < k {
        lemma_stretch_turned(m, t, i, j, k - 1);
        let u = turned(t, i, j);
        assert(u[k - 1] == t[i + j - k + 1]);
        assert(u[k] == t[i + j - k]);
        assert(t[i + j - k] < m.len() && t[i + j - k + 1] < m.len());
        assert(dist(m, u[k - 1], u[k]) == dist(m, t[i + j - k], t[i + j - k + 1]));
        lemma_stretch_splits(m, t, i + j - k, i + j - k + 1, j);
        assert(stretch(m, t, i + j - k, i + j - k + 1) == dist(
            m,
            t[i + j - k],
            t[i + j - k + 1],
        )) by {
            assert(stretch(m, t, i + j - k, i + j - k) == 0);
        }
    }
}

/// Turning a stretch around changes the path by exactly the edges at its
/// ends.
pub proof fn turning_rehangs_the_ends(m: Seq<Vec<i32>>, t: Seq<usize>, i: int, j: int)
    requires
        symmetric(m),
        in_range(m, t),
        1 <= i <= j < t.len(),
    ensures
        path_length(m, turned(t, i, j)) == path_length(m, t) - removed(m, t, i, j) + added(
            m,
            t,
            i,
            j,
        ),
{
    let u = turned(t, i, j);
    let n = t.len();
    lemma_stretch_splits(m, t, 0, i - 1, n - 1);
    lemma_stretch_splits(m, u, 0, i - 1, n - 1);
    lemma_stretch_same(m, t, u, 0, i - 1);
    lemma_stretch_splits(m, t, i - 1, i, n - 1);
    lemma_stretch_splits(m, u, i - 1, i, n - 1);
    assert(stretch(m, t, i - 1, i - 1) == 0);
    assert(stretch(m, u, i - 1, i - 1) == 0);
    assert(u[i] == t[j] && u[i - 1] == t[i - 1]);
    lemma_stretch_splits(m, t, i, j, n - 1);
    lemma_stretch_splits(m, u, i, j, n - 1);
    lemma_stretch_turned(m, t, i, j, j);
    if j + 1 < n {
        lemma_stretch_splits(m, t, j, j + 1, n - 1);
        lemma_stretch_splits(m, u, j, j + 1, n - 1);
        assert(stretch(m, t, j, j) == 0);
        assert(stretch(m, u, j, j) == 0);
        assert(u[j] == t[i] && u[j + 1] == t[j + 1]);
        lemma_stretch_same(m, t, u, j + 1, n - 1);
    }
}

spec fn kept(m: Seq<Vec<i32>>, t: Seq<usize>, u: Seq<usize>) -> bool {
    &&& is_tour(u, m.len())
    &&& symmetric(m) ==> path_length(m, u) <= path_length(m, t)
}

proof fn lemma_row_kept(m: Seq<Vec<i32>>, t: Seq<usize>, i: int, j: int)
    requires
        is_tour(t, m.len()),
        1 <= i < j,
    ensures
        kept(m, t, swept_row(m, t, i, j)),
    decreases t.len() - j,
{
    if j < t.len() {
        let u = improved_at(m, t, i, j);
        if worth(m, t, i, j) {
            lemma_turned_shape(t, m.len(), i, j);
            if symmetric(m) {
                turning_rehangs_the_ends(m, t, i, j);
            }
        }
        lemma_row_kept(m, u, i, j + 1);
    }
}

proof fn lemma_sweep_kept(m: Seq<Vec<i32>>, t: Seq<usize>, i: int)
    requires
        is_tour(t, m.len()),
        1 <= i,
    ensures
        kept(m, t, swept_from(m, t, i)),
    decreases t.len() - i,
{
    if i < t.len() - 1 {
        lemma_row_kept(m, t, i, i + 1);
        lemma_sweep_kept(m, swept_row(m, t, i, i + 1), i + 1);
    }
}

proof fn lemma_refined_kept(m: Seq<Vec<i32>>, t: Seq<usize>, rounds: nat)
    requires
        is_tour(t, m.len()),
    ensures
        kept(m, t, refined(m, t, rounds)),
    decreases rounds,
{
    if rounds > 0 {
        lemma_sweep_kept(m, t, 1);
        lemma_refined_kept(m, swept(m, t), (rounds - 1) as nat);
    }
}

/// However many rounds are run, the result visits every point once and keeps
/// the first one first.
pub proof fn refining_keeps_every_point(m: Seq<Vec<i32>>, rounds: nat)
    requires
        0 < m.len() <= usize::MAX,
    ensures
        is_tour(refined(m, greedy(m), rounds), m.len()),
{
    lemma_greedy_shape(m);
    lemma_refined_kept(m, greedy(m), rounds);
}

/// No round makes the path longer.
pub proof fn refining_never_lengthens(m: Seq<Vec<i32>>, rounds: nat)
    requires
        0 < m.len() <= usize::MAX,
        symmetric(m),
    ensures
        path_length(m, refined(m, greedy(m), rounds)) <= path_length(m, greedy(m)),
{
    lemma_greedy_shape(m);
    lemma_refined_kept(m, greedy(m), rounds);
}

/// Either nothing from `j` on was worth turning, or the path got shorter by more
/// than the tolerance.
proof fn lemma_row_decides(m: Seq<Vec<i32>>, t: Seq<usize>, i: int, j: int)
    requires
        symmetric(m),
        is_tour(t, m.len()),
        1 <= i < j,
    ensures
        path_length(m, swept_row(m, t, i, j)) + TOLERANCE < path_length(m, t) || (swept_row(m, t, i, j) == t
            && forall|h: int| j <= h < t.len() ==> !#[trigger] worth(m, t, i, h)),
    decreases t.len() - j,
{
    if j < t.len() {
        let u = improved_at(m, t, i, j);
        if worth(m, t, i, j) {
            lemma_turned_shape(t, m.len(), i, j);
            turning_rehangs_the_ends(m, t, i, j);
            lemma_row_kept(m, u, i, j + 1);
        } else {
            lemma_row_decides(m, t, i, j + 1);
        }
    }
}

proof fn lemma_sweep_decides(m: Seq<Vec<i32>>, t: Seq<usize>, i: int)
    requires
        symmetric(m),
        is_tour(t, m.len()),
        1 <= i,
    ensures
        path_length(m, swept_from(m, t, i)) + TOLERANCE < path_length(m, t) || (swept_from(m, t, i)
            == t && forall|g: int, h: int|
            i <= g < h < t.len() ==> !#[trigger] worth(m, t, g, h)),
    decreases t.len() - i,
{
    if i < t.len() - 1 {
        lemma_row_decides(m, t, i, i + 1);
        let row = swept_row(m, t, i, i + 1);
        lemma_row_kept(m, t, i, i + 1);
        lemma_sweep_kept(m, row, i + 1);
        if row == t {
            lemma_sweep_decides(m, t, i + 1);
        }
    }
}

/// A path a whole sweep leaves alone has no stretch worth turning around.
pub proof fn a_settled_path_has_nothing_to_turn(m: Seq<Vec<i32>>, t: Seq<usize>, i: int, j: int)
    requires
        symmetric(m),
        is_tour(t, m.len()),
        swept(m, t) == t,
        1 <= i < j < t.len(),
    ensures
        !worth(m, t, i, j),
{
    lemma_sweep_decides(m, t, 1);
}

// --------------------------------------------- what an order has to live up to

/// What the first `n` hops along `t` come to.
pub open spec fn trip(m: Seq<Vec<i32>>, t: Seq<usize>, n: int) -> int
    decreases n,
{
    if n <= 0 {
        0
    } else {
        trip(m, t, n - 1) + m[t[n - 1] as int]@[t[n] as int]
    }
}

/// What all the hops along `t` come to.
pub open spec fn whole_trip(m: Seq<Vec<i32>>, t: Seq<usize>) -> int {
    trip(m, t, t.len() - 1)
}

/// `t` goes to each of the points once, and starts from the first.
pub open spec fn goes_everywhere(m: Seq<Vec<i32>>, t: Seq<usize>) -> bool {
    &&& t.len() == m.len()
    &&& t[0] == 0
    &&& forall|a: int, b: int| 0 <= a < b < t.len() ==> #[trigger] t[a] != #[trigger] t[b]
    &&& forall|a: int| 0 <= a < t.len() ==> #[trigger] t[a] < m.len()
}

/// Every hop of `g` is to the nearest of the points that it has not been to yet,
/// and to the first of those where several are as near.
pub open spec fn goes_nearest(m: Seq<Vec<i32>>, g: Seq<usize>) -> bool {
    forall|p: int, v: usize|
        #![trigger g[p], g.take(p).contains(v)]
        1 <= p < g.len() && v < m.len() && !g.take(p).contains(v) ==> {
            let here = m[g[p - 1] as int]@[g[p] as int];
            let there = m[g[p - 1] as int]@[v as int];
            here < there || (here == there && g[p] <= v)
        }
}

/// `u` is `t` with what lies from `i` to `j` the other way round.
pub open spec fn other_way_round(t: Seq<usize>, i: int, j: int, u: Seq<usize>) -> bool {
    &&& 1 <= i < j < t.len()
    &&& u.len() == t.len()
    &&& forall|k: int| i <= k <= j ==> #[trigger] u[k] == t[i + j - k]
    &&& forall|k: int| 0 <= k < i || j < k < t.len() ==> #[trigger] u[k] == t[k]
}

/// Some stretch of `t` the other way round makes it shorter, by more than a
/// millionth.
pub open spec fn could_be_shorter(m: Seq<Vec<i32>>, t: Seq<usize>) -> bool {
    exists|i: int, j: int, u: Seq<usize>| #[trigger]
        other_way_round(t, i, j, u) && whole_trip(m, u) + crate::paths::UNIT / 1_000_000
            < whole_trip(m, t)
}

/// `t` is what comes of turning around stretches of the nearest-first walk `g`
/// for as long as that makes it shorter, for at most thirty-two rounds: it is no
/// longer, it is shorter where `g` could be, and it could not be shorter itself
/// unless all the rounds were needed.
pub open spec fn worked_over(m: Seq<Vec<i32>>, g: Seq<usize>, t: Seq<usize>) -> bool {
    &&& goes_everywhere(m, g)
    &&& goes_nearest(m, g)
    &&& goes_everywhere(m, t)
    &&& whole_trip(m, t) <= whole_trip(m, g)
    &&& could_be_shorter(m, g) ==> whole_trip(m, t) < whole_trip(m, g)
    &&& !could_be_shorter(m, g) ==> t == g
    &&& could_be_shorter(m, t) ==> whole_trip(m, t) + 32 * (crate::paths::UNIT / 1_000_000)
        <= whole_trip(m, g)
}

proof fn lemma_trip_is_stretch(m: Seq<Vec<i32>>, t: Seq<usize>, n: int)
    ensures
        trip(m, t, n) == stretch(m, t, 0, n),
    decreases n,
{
    if n > 0 {
        lemma_trip_is_stretch(m, t, n - 1);
    }
}

proof fn lemma_nearest_leads(m: Seq<Vec<i32>>, last: usize, left: Seq<usize>, i: int)
    requires
        0 <= i < left.len(),
    ensures
        0 <= nearest(m, last, left) < left.len(),
        m[last as int]@[left[nearest(m, last, left)] as int] <= m[last as int]@[left[i] as int],
        m[last as int]@[left[nearest(m, last, left)] as int] == m[last as int]@[left[i] as int]
            ==> nearest(m, last, left) <= i,
    decreases left.len(),
{
    lemma_nearest_in_range(m, last, left);
    if left.len() > 1 {
        let fewer = left.drop_last();
        lemma_nearest_in_range(m, last, fewer);
        if i < fewer.len() {
            lemma_nearest_leads(m, last, fewer, i);
        }
    }
}

proof fn lemma_greedy_keeps_walked(m: Seq<Vec<i32>>, walked: Seq<usize>, left: Seq<usize>)
    ensures
        greedy_from(m, walked, left).len() >= walked.len(),
        greedy_from(m, walked, left).take(walked.len() as int) == walked,
    decreases left.len(),
{
    let g = greedy_from(m, walked, left);
    if left.len() > 0 {
        let p = nearest(m, walked.last(), left);
        if 0 <= p < left.len() {
            let more = walked.push(left[p]);
            lemma_greedy_keeps_walked(m, more, left.remove(p));
            assert(g.take(walked.len() as int) =~= g.take(more.len() as int).take(walked.len() as int));
            assert(more.take(walked.len() as int) =~= walked);
        }
    }
    assert(walked.take(walked.len() as int) =~= walked);
}

proof fn lemma_greedy_goes_nearest(
    m: Seq<Vec<i32>>,
    walked: Seq<usize>,
    left: Seq<usize>,
    p: int,
    v: usize,
)
    requires
        walked.len() > 0,
        forall|a: int, b: int| 0 <= a < b < left.len() ==> #[trigger] left[a] < #[trigger] left[b],
        walked.len() <= p < greedy_from(m, walked, left).len(),
        left.contains(v),
        !greedy_from(m, walked, left).take(p).contains(v),
    ensures
        ({
            let g = greedy_from(m, walked, left);
            let here = m[g[p - 1] as int]@[g[p] as int];
            let there = m[g[p - 1] as int]@[v as int];
            here < there || (here == there && g[p] <= v)
        }),
    decreases left.len(),
{
    let g = greedy_from(m, walked, left);
    let n = nearest(m, walked.last(), left);
    lemma_nearest_in_range(m, walked.last(), left);
    let more = walked.push(left[n]);
    let rest = left.remove(n);
    lemma_greedy_keeps_walked(m, more, rest);
    assert(g.take(more.len() as int)[walked.len() as int] == left[n]);
    assert(g.take(more.len() as int)[walked.len() - 1] == walked.last());
    let at = choose|at: int| 0 <= at < left.len() && left[at] == v;
    if p == walked.len() {
        lemma_nearest_leads(m, walked.last(), left, at);
        if n < at {
            assert(left[n] < left[at]);
        }
    } else {
        assert(at != n) by {
            if at == n {
                assert(g.take(p)[walked.len() as int] == v);
            }
        }
        assert(rest.contains(v)) by {
            if at < n {
                assert(rest[at] == v);
            } else {
                assert(rest[at - 1] == v);
            }
        }
        assert forall|a: int, b: int| 0 <= a < b < rest.len() implies #[trigger] rest[a]
            < #[trigger] rest[b] by {
            let x = if a < n {
                a
            } else {
                a + 1
            };
            let y = if b < n {
                b
            } else {
                b + 1
            };
            assert(rest[a] == left[x] && rest[b] == left[y]);
        }
        lemma_greedy_goes_nearest(m, more, rest, p, v);
    }
}

proof fn lemma_greedy_is_nearest_first(m: Seq<Vec<i32>>)
    requires
        0 < m.len() <= usize::MAX,
    ensures
        goes_everywhere(m, greedy(m)),
        goes_nearest(m, greedy(m)),
{
    lemma_greedy_shape(m);
    let g = greedy(m);
    let walked = seq![0usize];
    let left = others(m.len());
    lemma_greedy_keeps_walked(m, walked, left);
    assert forall|p: int, v: usize|
        #![trigger g[p], g.take(p).contains(v)]
        1 <= p < g.len() && v < m.len() && !g.take(p).contains(v) implies ({
        let here = m[g[p - 1] as int]@[g[p] as int];
        let there = m[g[p - 1] as int]@[v as int];
        here < there || (here == there && g[p] <= v)
    }) by {
        assert(v != 0) by {
            assert(g.take(p)[0] == 0);
        }
        assert(left[v - 1] == v);
        lemma_greedy_goes_nearest(m, walked, left, p, v);
    }
}

/// What could be shorter has a stretch that is worth turning, and the other way
/// round.
proof fn lemma_worth_is_shorter(m: Seq<Vec<i32>>, t: Seq<usize>)
    requires
        symmetric(m),
        is_tour(t, m.len()),
    ensures
        could_be_shorter(m, t) <==> exists|i: int, j: int|
            1 <= i < j < t.len() && #[trigger] worth(m, t, i, j),
{
    lemma_trip_is_stretch(m, t, t.len() - 1);
    if could_be_shorter(m, t) {
        let (i, j, u) = choose|i: int, j: int, u: Seq<usize>| #[trigger]
            other_way_round(t, i, j, u) && whole_trip(m, u) + crate::paths::UNIT / 1_000_000
                < whole_trip(m, t);
        assert(u =~= turned(t, i, j));
        lemma_trip_is_stretch(m, u, u.len() - 1);
        turning_rehangs_the_ends(m, t, i, j);
        assert(worth(m, t, i, j));
    }
    if exists|i: int, j: int| 1 <= i < j < t.len() && #[trigger] worth(m, t, i, j) {
        let (i, j) = choose|i: int, j: int| 1 <= i < j < t.len() && #[trigger] worth(m, t, i, j);
        let u = turned(t, i, j);
        lemma_trip_is_stretch(m, u, u.len() - 1);
        turning_rehangs_the_ends(m, t, i, j);
        assert(other_way_round(t, i, j, u));
    }
}

/// After so many rounds either nothing is left to turn or each of them was worth
/// it.
proof fn lemma_rounds_pay(m: Seq<Vec<i32>>, t: Seq<usize>, rounds: nat)
    requires
        symmetric(m),
        is_tour(t, m.len()),
    ensures
        ({
            let u = refined(m, t, rounds);
            ||| forall|g: int, h: int| 1 <= g < h < u.len() ==> !#[trigger] worth(m, u, g, h)
            ||| path_length(m, u) + rounds * TOLERANCE <= path_length(m, t)
        }),
    decreases rounds,
{
    if rounds > 0 {
        lemma_sweep_decides(m, t, 1);
        let once = swept(m, t);
        lemma_sweep_kept(m, t, 1);
        if path_length(m, once) + TOLERANCE < path_length(m, t) {
            lemma_rounds_pay(m, once, (rounds - 1) as nat);
            assert(rounds * TOLERANCE == (rounds - 1) * TOLERANCE + TOLERANCE) by (nonlinear_arith);
        } else {
            lemma_refined_settles(m, t, rounds);
        }
    } else {
        assert(rounds * TOLERANCE == 0);
    }
}

/// The order that comes out is the nearest-first walk worked over: every point
/// once and the first one first, no longer than that walk, shorter than it where
/// turning a stretch around makes it so, and then not to be made shorter that way
/// unless thirty-two rounds were not enough. In each round every stretch that
/// leaves the first point alone gets its turn, and is turned around where that
/// makes the whole shorter as it is by then.
pub proof fn a_tour_is_worked_over(m: Seq<Vec<i32>>, t: Seq<usize>) -> (g: Seq<usize>)
    requires
        0 < m.len() <= usize::MAX,
        forall|a: int, b: int|
            0 <= a < m.len() && 0 <= b < m.len() ==> #[trigger] m[a]@[b] == m[b]@[a],
        t == refined(m, greedy(m), ROUNDS as nat),
    ensures
        worked_over(m, g, t),
        comes_in_rounds(m, g, t),
{
    let g = greedy(m);
    assert forall|a: usize, b: usize| a < m.len() && b < m.len() implies #[trigger] dist(m, a, b)
        == dist(m, b, a) by {
        assert(m[a as int]@[b as int] == m[b as int]@[a as int]);
    }
    lemma_greedy_is_nearest_first(m);
    lemma_greedy_shape(m);
    lemma_refined_kept(m, g, ROUNDS as nat);
    lemma_trip_is_stretch(m, t, t.len() - 1);
    lemma_trip_is_stretch(m, g, g.len() - 1);
    lemma_worth_is_shorter(m, g);
    lemma_worth_is_shorter(m, t);
    lemma_rounds_pay(m, g, ROUNDS as nat);
    lemma_sweep_decides(m, g, 1);
    lemma_sweep_kept(m, g, 1);
    if could_be_shorter(m, g) {
        lemma_refined_kept(m, swept(m, g), (ROUNDS - 1) as nat);
    } else {
        assert(swept(m, g) == g) by {
            lemma_unworthy_stays(m, g, 1);
        }
        lemma_refined_settles(m, g, ROUNDS as nat);
    }
    let orders = lemma_rounds(m, g, ROUNDS as nat);
    assert(are_rounds(m, orders));
    g
}

proof fn lemma_unworthy_row_stays(m: Seq<Vec<i32>>, t: Seq<usize>, i: int, j: int)
    requires
        forall|h: int| j <= h < t.len() ==> !#[trigger] worth(m, t, i, h),
    ensures
        swept_row(m, t, i, j) == t,
    decreases t.len() - j,
{
    if j < t.len() {
        lemma_unworthy_row_stays(m, t, i, j + 1);
    }
}

proof fn lemma_unworthy_stays(m: Seq<Vec<i32>>, t: Seq<usize>, i: int)
    requires
        1 <= i,
        forall|g: int, h: int| i <= g < h < t.len() ==> !#[trigger] worth(m, t, g, h),
    ensures
        swept_from(m, t, i) == t,
    decreases t.len() - i,
{
    if i < t.len() - 1 {
        lemma_unworthy_row_stays(m, t, i, i + 1);
        lemma_unworthy_stays(m, t, i + 1);
    }
}

// ------------------------------------------------------- how it is worked over

/// The stretch `s` is tried at `from` or after it.
pub open spec fn is_no_sooner(from: (int, int), s: (int, int)) -> bool {
    s.0 > from.0 || (s.0 == from.0 && s.1 >= from.1)
}

/// `stretches` are all those of `n` points from `from` on, each once: those that
/// start sooner first, and of those that start together the shorter first.
pub open spec fn are_in_turn(n: int, from: (int, int), stretches: Seq<(int, int)>) -> bool {
    &&& forall|k: int|
        0 <= k < stretches.len() ==> is_no_sooner(from, #[trigger] stretches[k]) && stretches[k].0
            < stretches[k].1 < n
    &&& forall|k: int, l: int|
        0 <= k < l < stretches.len() ==> is_no_sooner(
            #[trigger] stretches[k],
            #[trigger] stretches[l],
        ) && stretches[k] != stretches[l]
    &&& forall|i: int, j: int|
        is_no_sooner(from, (i, j)) && i < j < n ==> #[trigger] stretches.contains((i, j))
}

/// `u` is `t` with the stretch the other way round where that makes it shorter,
/// by more than a millionth, and `t` where it does not.
pub open spec fn turns_if_shorter(
    m: Seq<Vec<i32>>,
    t: Seq<usize>,
    s: (int, int),
    u: Seq<usize>,
) -> bool {
    exists|v: Seq<usize>| #[trigger]
        other_way_round(t, s.0, s.1, v) && u == (if whole_trip(m, v) + crate::paths::UNIT
            / 1_000_000 < whole_trip(m, t) {
            v
        } else {
            t
        })
}

/// `states` are the orders on the way from `t` to `u`, one after each stretch.
pub open spec fn leads(
    m: Seq<Vec<i32>>,
    t: Seq<usize>,
    stretches: Seq<(int, int)>,
    states: Seq<Seq<usize>>,
    u: Seq<usize>,
) -> bool {
    &&& states.len() == stretches.len() + 1
    &&& states[0] == t
    &&& states[stretches.len() as int] == u
    &&& forall|k: int|
        0 <= k < stretches.len() ==> turns_if_shorter(
            m,
            states[k],
            #[trigger] stretches[k],
            states[k + 1],
        )
}

/// `u` is `t` after a round: every stretch tried once, in turn.
pub open spec fn is_a_round(
    m: Seq<Vec<i32>>,
    t: Seq<usize>,
    from: (int, int),
    u: Seq<usize>,
) -> bool {
    exists|stretches: Seq<(int, int)>, states: Seq<Seq<usize>>| #[trigger]
        leads(m, t, stretches, states, u) && are_in_turn(t.len() as int, from, stretches)
}

/// `orders` are what the order is before each of thirty-two rounds and after the
/// last.
pub open spec fn are_rounds(m: Seq<Vec<i32>>, orders: Seq<Seq<usize>>) -> bool {
    &&& orders.len() == 33
    &&& forall|r: int| 0 <= r < 32 ==> is_a_round(m, #[trigger] orders[r], (1, 2), orders[r + 1])
}

/// `t` is what `g` is after thirty-two rounds.
pub open spec fn comes_in_rounds(m: Seq<Vec<i32>>, g: Seq<usize>, t: Seq<usize>) -> bool {
    exists|orders: Seq<Seq<usize>>| #[trigger]
        are_rounds(m, orders) && orders[0] == g && orders[32] == t
}

proof fn lemma_a_turn(m: Seq<Vec<i32>>, t: Seq<usize>, i: int, j: int)
    requires
        symmetric(m),
        is_tour(t, m.len()),
        1 <= i < j < t.len(),
    ensures
        is_tour(improved_at(m, t, i, j), m.len()),
        turns_if_shorter(m, t, (i, j), improved_at(m, t, i, j)),
{
    let v = turned(t, i, j);
    lemma_turned_shape(t, m.len(), i, j);
    turning_rehangs_the_ends(m, t, i, j);
    lemma_trip_is_stretch(m, t, t.len() - 1);
    lemma_trip_is_stretch(m, v, v.len() - 1);
    let s = (i, j);
    assert(other_way_round(t, s.0, s.1, v));
    assert(improved_at(m, t, i, j) == (if whole_trip(m, v) + crate::paths::UNIT / 1_000_000
        < whole_trip(m, t) {
        v
    } else {
        t
    }));
}

proof fn lemma_a_round(m: Seq<Vec<i32>>, t: Seq<usize>, i: int, j: int)
    requires
        symmetric(m),
        is_tour(t, m.len()),
        1 <= i < j <= t.len(),
    ensures
        is_a_round(m, t, (i, j), swept_from(m, swept_row(m, t, i, j), i + 1)),
    decreases t.len() - i, t.len() - j,
{
    let n = t.len() as int;
    let end = swept_from(m, swept_row(m, t, i, j), i + 1);
    if j >= n {
        if i + 1 >= n - 1 {
            let stretches = Seq::<(int, int)>::empty();
            let states = seq![t];
            assert(leads(m, t, stretches, states, end));
            assert(are_in_turn(n, (i, j), stretches));
        } else {
            lemma_a_round(m, t, i + 1, i + 2);
            let (stretches, states) = choose|stretches: Seq<(int, int)>, states: Seq<Seq<usize>>|
                #[trigger]
                leads(m, t, stretches, states, end) && are_in_turn(n, (i + 1, i + 2), stretches);
            assert(are_in_turn(n, (i, j), stretches)) by {
                assert forall|a: int, b: int|
                    is_no_sooner((i, j), (a, b)) && a < b < n implies #[trigger] stretches.contains(
                    (a, b),
                ) by {
                    assert(is_no_sooner((i + 1, i + 2), (a, b)));
                }
            }
        }
    } else {
        let once = improved_at(m, t, i, j);
        lemma_a_turn(m, t, i, j);
        lemma_a_round(m, once, i, j + 1);
        let (later, then_states) = choose|stretches: Seq<(int, int)>, states: Seq<Seq<usize>>|
            #[trigger]
            leads(m, once, stretches, states, end) && are_in_turn(n, (i, j + 1), stretches);
        let stretches = seq![(i, j)] + later;
        let states = seq![t] + then_states;
        assert forall|k: int| 0 <= k < stretches.len() implies turns_if_shorter(
            m,
            states[k],
            #[trigger] stretches[k],
            states[k + 1],
        ) by {
            if k > 0 {
                assert(stretches[k] == later[k - 1]);
                assert(states[k] == then_states[k - 1]);
                assert(states[k + 1] == then_states[k]);
            } else {
                assert(states[1] == then_states[0]);
            }
        }
        assert(leads(m, t, stretches, states, end));
        assert(are_in_turn(n, (i, j), stretches)) by {
            assert forall|k: int| 0 <= k < stretches.len() implies is_no_sooner(
                (i, j),
                #[trigger] stretches[k],
            ) && stretches[k].0 < stretches[k].1 < n by {
                if k > 0 {
                    assert(stretches[k] == later[k - 1]);
                }
            }
            assert forall|k: int, l: int| 0 <= k < l < stretches.len() implies is_no_sooner(
                #[trigger] stretches[k],
                #[trigger] stretches[l],
            ) && stretches[k] != stretches[l] by {
                assert(stretches[l] == later[l - 1]);
                if k > 0 {
                    assert(stretches[k] == later[k - 1]);
                }
            }
            assert forall|a: int, b: int|
                is_no_sooner((i, j), (a, b)) && a < b < n implies #[trigger] stretches.contains(
                (a, b),
            ) by {
                if (a, b) == (i, j) {
                    assert(stretches[0] == (a, b));
                } else {
                    assert(later.contains((a, b)));
                    let k = choose|k: int| 0 <= k < later.len() && later[k] == (a, b);
                    assert(stretches[k + 1] == (a, b));
                }
            }
        }
    }
}

proof fn lemma_rounds(m: Seq<Vec<i32>>, t: Seq<usize>, rounds: nat) -> (orders: Seq<Seq<usize>>)
    requires
        symmetric(m),
        is_tour(t, m.len()),
    ensures
        orders.len() == rounds + 1,
        orders[0] == t,
        orders[rounds as int] == refined(m, t, rounds),
        forall|r: int|
            0 <= r < rounds ==> is_a_round(m, #[trigger] orders[r], (1, 2), orders[r + 1]),
    decreases rounds,
{
    if rounds == 0 {
        seq![t]
    } else {
        let once = swept(m, t);
        lemma_sweep_kept(m, t, 1);
        if t.len() > 2 {
            lemma_a_round(m, t, 1, 2);
        } else {
            let stretches = Seq::<(int, int)>::empty();
            assert(leads(m, t, stretches, seq![t], once));
            assert(are_in_turn(t.len() as int, (1, 2), stretches));
        }
        let later = lemma_rounds(m, once, (rounds - 1) as nat);
        let orders = seq![t] + later;
        assert forall|r: int| 0 <= r < rounds implies is_a_round(
            m,
            #[trigger] orders[r],
            (1, 2),
            orders[r + 1],
        ) by {
            assert(orders[r + 1] == later[r]);
            if r > 0 {
                assert(orders[r] == later[r - 1]);
            }
        }
        orders
    }
}

} // verus!
