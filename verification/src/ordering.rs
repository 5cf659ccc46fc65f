//! Stable ordering of positions by a key, by merging.

use vstd::prelude::*;

verus! {

/// Values that can be put in an order: any two compare, and the comparison
/// carries across a third. Two different values may rank equal.
pub trait Ranked: Sized {
    /// `self` belongs no later than `other`.
    spec fn no_later(self, other: Self) -> bool;

    proof fn any_two_compare(a: Self, b: Self)
        ensures
            a.no_later(b) || b.no_later(a),
    ;

    proof fn carries_across(a: Self, b: Self, c: Self)
        requires
            a.no_later(b),
            b.no_later(c),
        ensures
            a.no_later(c),
    ;

    fn is_no_later(&self, other: &Self) -> (yes: bool)
        ensures
            yes == self.no_later(*other),
    ;
}

/// Position `a` comes before position `b`: by key, and by position where the
/// keys rank equal.
pub open spec fn before<K: Ranked>(keys: Seq<K>, a: int, b: int) -> bool {
    keys[a].no_later(keys[b]) && (!keys[b].no_later(keys[a]) || a < b)
}

/// `order` lists each position of `lo..hi` once, every one before the next.
pub open spec fn orders_range<K: Ranked>(
    keys: Seq<K>,
    order: Seq<usize>,
    lo: int,
    hi: int,
) -> bool {
    &&& order.len() == hi - lo
    &&& forall|i: int| 0 <= i < order.len() ==> lo <= #[trigger] order[i] < hi
    &&& forall|x: int| lo <= x < hi ==> #[trigger] order.contains(x as usize)
    &&& forall|i: int, j: int|
        0 <= i < j < order.len() ==> before(keys, #[trigger] order[i] as int, #[trigger] order[j] as int)
}

/// `order` lists every position of `keys` once, in order.
pub open spec fn orders_all<K: Ranked>(keys: Seq<K>, order: Seq<usize>) -> bool {
    orders_range(keys, order, 0, keys.len() as int)
}

pub proof fn lemma_before_carries<K: Ranked>(keys: Seq<K>, a: int, b: int, c: int)
    requires
        before(keys, a, b),
        before(keys, b, c),
    ensures
        before(keys, a, c),
{
    K::carries_across(keys[a], keys[b], keys[c]);
    if keys[c].no_later(keys[a]) {
        K::carries_across(keys[c], keys[a], keys[b]);
        K::carries_across(keys[b], keys[c], keys[a]);
    }
}

/// Of two different positions one comes before the other, and not both.
pub proof fn lemma_before_decides<K: Ranked>(keys: Seq<K>, a: int, b: int)
    requires
        a != b,
    ensures
        before(keys, a, b) != before(keys, b, a),
{
    K::any_two_compare(keys[a], keys[b]);
}

fn merge<K: Ranked>(
    keys: &[K],
    left: &Vec<usize>,
    right: &Vec<usize>,
    lo: usize,
    mid: usize,
    hi: usize,
) -> (out: Vec<usize>)
    requires
        lo <= mid <= hi <= keys@.len(),
        orders_range(keys@, left@, lo as int, mid as int),
        orders_range(keys@, right@, mid as int, hi as int),
    ensures
        orders_range(keys@, out@, lo as int, hi as int),
{
    let mut out: Vec<usize> = Vec::with_capacity(hi - lo);
    let mut i: usize = 0;
    let mut j: usize = 0;
    while i < left.len() || j < right.len()
        invariant
            lo <= mid <= hi <= keys@.len(),
            orders_range(keys@, left@, lo as int, mid as int),
            orders_range(keys@, right@, mid as int, hi as int),
            i <= left@.len(),
            j <= right@.len(),
            out@.len() == i + j,
            forall|p: int| 0 <= p < out@.len() ==> lo <= #[trigger] out@[p] < hi,
            forall|p: int, q: int|
                0 <= p < q < out@.len() ==> before(
                    keys@,
                    #[trigger] out@[p] as int,
                    #[trigger] out@[q] as int,
                ),
            forall|p: int, q: int|
                0 <= p < out@.len() && i <= q < left@.len() ==> before(
                    keys@,
                    #[trigger] out@[p] as int,
                    #[trigger] left@[q] as int,
                ),
            forall|p: int, q: int|
                0 <= p < out@.len() && j <= q < right@.len() ==> before(
                    keys@,
                    #[trigger] out@[p] as int,
                    #[trigger] right@[q] as int,
                ),
            forall|q: int| 0 <= q < i ==> out@.contains(#[trigger] left@[q]),
            forall|q: int| 0 <= q < j ==> out@.contains(#[trigger] right@[q]),
        decreases left@.len() - i + right@.len() - j,
    {
        let take_left: bool = j >= right.len() || (i < left.len()
            && keys[left[i]].is_no_later(&keys[right[j]]));
        let ghost before_push = out@;
        if take_left {
            let x: usize = left[i];
            proof {
                assert forall|q: int| j <= q < right@.len() implies before(
                    keys@,
                    x as int,
                    #[trigger] right@[q] as int,
                ) by {
                    assert(before(keys@, x as int, right@[j as int] as int));
                    if q > j {
                        lemma_before_carries(
                            keys@,
                            x as int,
                            right@[j as int] as int,
                            right@[q] as int,
                        );
                    }
                }
            }
            out.push(x);
            i = i + 1;
        } else {
            let x: usize = right[j];
            proof {
                if i < left@.len() {
                    K::any_two_compare(keys@[left@[i as int] as int], keys@[x as int]);
                }
                assert forall|q: int| i <= q < left@.len() implies before(
                    keys@,
                    x as int,
                    #[trigger] left@[q] as int,
                ) by {
                    assert(before(keys@, x as int, left@[i as int] as int));
                    if q > i {
                        lemma_before_carries(
                            keys@,
                            x as int,
                            left@[i as int] as int,
                            left@[q] as int,
                        );
                    }
                }
            }
            out.push(x);
            j = j + 1;
        }
        proof {
            assert(out@.drop_last() =~= before_push);
            assert forall|v: usize| before_push.contains(v) implies out@.contains(v) by {
                let at = choose|p: int| 0 <= p < before_push.len() && before_push[p] == v;
                assert(out@[at] == v);
            }
            assert(out@[out@.len() - 1] == out@.last());
            assert(out@.contains(out@.last()));
        }
    }
    proof {
        assert forall|x: int| lo <= x < hi implies #[trigger] out@.contains(x as usize) by {
            if x < mid {
                assert(left@.contains(x as usize));
                let q = choose|q: int| 0 <= q < left@.len() && left@[q] == x as usize;
                assert(out@.contains(left@[q]));
            } else {
                assert(right@.contains(x as usize));
                let q = choose|q: int| 0 <= q < right@.len() && right@[q] == x as usize;
                assert(out@.contains(right@[q]));
            }
        }
    }
    out
}

fn order_range<K: Ranked>(keys: &[K], lo: usize, hi: usize) -> (out: Vec<usize>)
    requires
        lo <= hi <= keys@.len(),
    ensures
        orders_range(keys@, out@, lo as int, hi as int),
    decreases hi - lo,
{
    if hi - lo <= 1 {
        let mut out: Vec<usize> = Vec::new();
        if lo < hi {
            out.push(lo);
            assert(out@[0] == lo);
        }
        out
    } else {
        let mid: usize = lo + (hi - lo) / 2;
        let left = order_range(keys, lo, mid);
        let right = order_range(keys, mid, hi);
        merge(keys, &left, &right, lo, mid, hi)
    }
}

/// The one listing of the positions of `keys` in order; see
/// `an_order_is_the_only_one`.
pub open spec fn ranking<K: Ranked>(keys: Seq<K>) -> Seq<usize> {
    choose|order: Seq<usize>| orders_all(keys, order)
}

/// `top` lists the `k` foremost positions of `keys` (all of them, where there
/// are fewer), in order, and everything left out comes after all of them.
pub open spec fn is_top<K: Ranked>(keys: Seq<K>, k: nat, top: Seq<usize>) -> bool {
    &&& top.len() == (if k <= keys.len() {
        k
    } else {
        keys.len()
    })
    &&& forall|i: int| 0 <= i < top.len() ==> #[trigger] top[i] < keys.len()
    &&& forall|i: int, j: int|
        0 <= i < j < top.len() ==> before(keys, #[trigger] top[i] as int, #[trigger] top[j] as int)
    &&& forall|i: int, x: int|
        0 <= i < top.len() && 0 <= x < keys.len() && !top.contains(x as usize) ==> #[trigger] before(
            keys,
            top[i] as int,
            x,
        )
}

/// The foremost positions are the start of the full order: selecting gives
/// exactly what sorting and cutting short would.
pub proof fn the_top_is_a_prefix_of_the_order<K: Ranked>(
    keys: Seq<K>,
    k: nat,
    top: Seq<usize>,
    order: Seq<usize>,
)
    requires
        keys.len() <= usize::MAX,
        is_top(keys, k, top),
        orders_all(keys, order),
    ensures
        top == order.take(top.len() as int),
{
    assert forall|i: int| 0 <= i < top.len() implies top[i] == order[i] by {
        lemma_top_agrees(keys, k, top, order, i);
    }
    assert(top =~= order.take(top.len() as int));
}

proof fn lemma_top_agrees<K: Ranked>(
    keys: Seq<K>,
    k: nat,
    top: Seq<usize>,
    order: Seq<usize>,
    i: int,
)
    requires
        keys.len() <= usize::MAX,
        is_top(keys, k, top),
        orders_all(keys, order),
        0 <= i < top.len(),
    ensures
        top[i] == order[i],
    decreases i,
{
    assert forall|h: int| 0 <= h < i implies top[h] == order[h] by {
        lemma_top_agrees(keys, k, top, order, h);
    }
    let x = top[i];
    let y = order[i];
    if x != y {
        assert(order.contains(x as int as usize));
        let p = choose|p: int| 0 <= p < order.len() && order[p] == x;
        if p < i {
            assert(top[p] == x);
            assert(before(keys, top[p] as int, top[i] as int));
            assert(false);
        }
        assert(before(keys, order[i] as int, order[p] as int));
        if top.contains(y) {
            let q = choose|q: int| 0 <= q < top.len() && top[q] == y;
            if q < i {
                assert(order[q] == y);
                assert(before(keys, order[q] as int, order[i] as int));
                assert(false);
            }
            assert(before(keys, top[i] as int, top[q] as int));
        } else {
            assert(!top.contains(y as int as usize));
            assert(before(keys, top[i] as int, y as int));
        }
        lemma_before_decides(keys, x as int, y as int);
    }
}

/// Any two listings of the positions in order are the same one.
pub proof fn an_order_is_the_only_one<K: Ranked>(keys: Seq<K>, order: Seq<usize>)
    requires
        keys.len() <= usize::MAX,
        orders_all(keys, order),
    ensures
        order == ranking(keys),
{
    let full = ranking(keys);
    assert(orders_all(keys, full));
    assert(is_top(keys, keys.len(), order));
    the_top_is_a_prefix_of_the_order(keys, keys.len(), order, full);
    assert(full.take(full.len() as int) =~= full);
}

/// The positions of `keys` in order. Keys that rank equal keep the order
/// they came in.
pub fn stable_order<K: Ranked>(keys: &[K]) -> (order: Vec<usize>)
    ensures
        orders_all(keys@, order@),
        order@ == ranking(keys@),
{
    let order = order_range(keys, 0, keys.len());
    proof {
        an_order_is_the_only_one(keys@, order@);
    }
    order
}

/// Where in `best` the position `x` belongs.
fn place_in<K: Ranked>(keys: &[K], best: &Vec<usize>, x: usize) -> (at: usize)
    requires
        x < keys@.len(),
        forall|i: int| 0 <= i < best@.len() ==> #[trigger] best@[i] < x,
    ensures
        at <= best@.len(),
        forall|i: int| at <= i < best@.len() ==> before(keys@, x as int, #[trigger] best@[i] as int),
        at > 0 ==> before(keys@, best@[at - 1] as int, x as int),
{
    let mut at: usize = best.len();
    while at > 0 && !keys[best[at - 1]].is_no_later(&keys[x])
        invariant
            x < keys@.len(),
            forall|i: int| 0 <= i < best@.len() ==> #[trigger] best@[i] < x,
            at <= best@.len(),
            forall|i: int|
                at <= i < best@.len() ==> before(keys@, x as int, #[trigger] best@[i] as int),
        decreases at,
    {
        proof {
            K::any_two_compare(keys@[best@[at - 1] as int], keys@[x as int]);
        }
        at = at - 1;
    }
    at
}

/// The `k` foremost positions of `keys`, in order.
pub fn foremost<K: Ranked>(keys: &[K], k: usize) -> (top: Vec<usize>)
    ensures
        is_top(keys@, k as nat, top@),
        orders_all(keys@, ranking(keys@)),
        top@ == ranking(keys@).take(top@.len() as int),
{
    let mut best: Vec<usize> = Vec::new();
    let mut x: usize = 0;
    while x < keys.len()
        invariant
            x <= keys@.len(),
            is_top(keys@.take(x as int), k as nat, best@),
        decreases keys@.len() - x,
    {
        proof {
            lemma_top_of_prefix(keys@, k as nat, best@, x as int);
        }
        let at: usize = place_in(keys, &best, x);
        let ghost earlier = best@;
        if at < k {
            best.insert(at, x);
            if best.len() > k {
                let gone: Option<usize> = best.pop();
                assert(best@ =~= earlier.insert(at as int, x).drop_last());
            } else {
                assert(best@ =~= earlier.insert(at as int, x));
            }
        }
        proof {
            if at < k {
                lemma_top_grows(keys@, k as nat, earlier, x as int, at as int, best@);
            } else {
                lemma_no_place(keys@, k as nat, earlier, x as int);
            }
        }
        x = x + 1;
    }
    proof {
        assert(keys@.take(keys@.len() as int) =~= keys@);
        let order = ranking(keys@);
        lemma_an_order_exists(keys@);
        the_top_is_a_prefix_of_the_order(keys@, k as nat, best@, order);
    }
    best
}

/// `before` on a prefix of the keys is `before` on all of them.
proof fn lemma_top_of_prefix<K: Ranked>(keys: Seq<K>, k: nat, top: Seq<usize>, x: int)
    requires
        0 <= x <= keys.len() <= usize::MAX,
        is_top(keys.take(x), k, top),
    ensures
        forall|i: int| 0 <= i < top.len() ==> #[trigger] top[i] < x,
        forall|i: int, j: int|
            0 <= i < j < top.len() ==> before(
                keys,
                #[trigger] top[i] as int,
                #[trigger] top[j] as int,
            ),
        forall|i: int, y: int|
            0 <= i < top.len() && 0 <= y < x && !top.contains(y as usize) ==> #[trigger] before(
                keys,
                top[i] as int,
                y,
            ),
{
    let part = keys.take(x);
    assert forall|i: int, j: int| 0 <= i < j < top.len() implies before(
        keys,
        #[trigger] top[i] as int,
        #[trigger] top[j] as int,
    ) by {
        assert(before(part, top[i] as int, top[j] as int));
    }
    assert forall|i: int, y: int|
        0 <= i < top.len() && 0 <= y < x && !top.contains(y as usize) implies #[trigger] before(
        keys,
        top[i] as int,
        y,
    ) by {
        assert(before(part, top[i] as int, y));
    }
}

/// Putting `x` at its place among the foremost keeps them in order, and keeps
/// what was left out behind them.
proof fn lemma_place_taken<K: Ranked>(keys: Seq<K>, k: nat, top: Seq<usize>, x: int, at: int)
    requires
        0 <= x < keys.len() <= usize::MAX,
        is_top(keys.take(x), k, top),
        0 <= at <= top.len(),
        at < k,
        forall|i: int| at <= i < top.len() ==> before(keys, x, #[trigger] top[i] as int),
        at > 0 ==> before(keys, top[at - 1] as int, x),
    ensures
        ({
            let full = top.insert(at, x as usize);
            &&& forall|i: int| 0 <= i < full.len() ==> #[trigger] full[i] <= x
            &&& forall|i: int, j: int|
                0 <= i < j < full.len() ==> before(
                    keys,
                    #[trigger] full[i] as int,
                    #[trigger] full[j] as int,
                )
            &&& forall|i: int, y: int|
                0 <= i < full.len() && 0 <= y < x && !top.contains(y as usize)
                    ==> #[trigger] before(keys, full[i] as int, y)
        }),
{
    lemma_top_of_prefix(keys, k, top, x);
    // What stands ahead of the new position comes before it.
    assert forall|i: int| 0 <= i < at implies before(keys, #[trigger] top[i] as int, x) by {
        if i < at - 1 {
            lemma_before_carries(keys, top[i] as int, top[at - 1] as int, x);
        }
    }
    let full = top.insert(at, x as usize);
    assert forall|i: int| 0 <= i < full.len() implies #[trigger] full[i] <= x by {
        if i < at {
            assert(full[i] == top[i]);
        } else if i > at {
            assert(full[i] == top[i - 1]);
        }
    }
    assert forall|i: int, j: int| 0 <= i < j < full.len() implies before(
        keys,
        #[trigger] full[i] as int,
        #[trigger] full[j] as int,
    ) by {
        if i < at && j > at {
            assert(full[i] == top[i] && full[j] == top[j - 1]);
        } else if i == at {
            assert(full[j] == top[j - 1]);
        } else if j < at {
            assert(full[i] == top[i] && full[j] == top[j]);
        } else if j == at {
            assert(full[i] == top[i]);
        } else {
            assert(full[i] == top[i - 1] && full[j] == top[j - 1]);
        }
    }
    assert forall|i: int, y: int|
        0 <= i < full.len() && 0 <= y < x && !top.contains(y as usize) implies #[trigger] before(
        keys,
        full[i] as int,
        y,
    ) by {
        if i < at {
            assert(full[i] == top[i]);
            assert(before(keys, top[i] as int, y));
        } else if i > at {
            assert(full[i] == top[i - 1]);
            assert(before(keys, top[i - 1] as int, y));
        } else {
            // Something was left out, so the list was full.
            lemma_left_out_means_full(keys.take(x), k, top, y);
            assert(before(keys, top[at] as int, y));
            lemma_before_carries(keys, x, top[at] as int, y);
        }
    }
}

/// No room for `x`: the foremost stay as they are.
proof fn lemma_no_place<K: Ranked>(keys: Seq<K>, k: nat, top: Seq<usize>, x: int)
    requires
        0 <= x < keys.len() <= usize::MAX,
        is_top(keys.take(x), k, top),
        top.len() == k,
        k > 0 ==> before(keys, top[k - 1] as int, x),
    ensures
        is_top(keys.take(x + 1), k, top),
{
    let part = keys.take(x + 1);
    lemma_top_of_prefix(keys, k, top, x);
    assert forall|i: int, j: int| 0 <= i < j < top.len() implies before(
        part,
        #[trigger] top[i] as int,
        #[trigger] top[j] as int,
    ) by {
        assert(before(keys, top[i] as int, top[j] as int));
    }
    assert forall|i: int, y: int|
        0 <= i < top.len() && 0 <= y < part.len() && !top.contains(
            y as usize,
        ) implies #[trigger] before(part, top[i] as int, y) by {
        if y == x {
            if i < k - 1 {
                assert(before(keys, top[i] as int, top[k - 1] as int));
                lemma_before_carries(keys, top[i] as int, top[k - 1] as int, x);
            }
            assert(before(keys, top[i] as int, x));
        } else {
            assert(before(keys, top[i] as int, y));
        }
    }
}

/// `x` takes its place, and the last of the foremost gives way where there
/// would be more than `k`.
proof fn lemma_top_grows<K: Ranked>(
    keys: Seq<K>,
    k: nat,
    top: Seq<usize>,
    x: int,
    at: int,
    grown: Seq<usize>,
)
    requires
        0 <= x < keys.len() <= usize::MAX,
        is_top(keys.take(x), k, top),
        0 <= at <= top.len(),
        at < k,
        forall|i: int| at <= i < top.len() ==> before(keys, x, #[trigger] top[i] as int),
        at > 0 ==> before(keys, top[at - 1] as int, x),
        grown == (if top.len() + 1 > k {
            top.insert(at, x as usize).drop_last()
        } else {
            top.insert(at, x as usize)
        }),
    ensures
        is_top(keys.take(x + 1), k, grown),
{
    let part = keys.take(x + 1);
    lemma_place_taken(keys, k, top, x, at);
    let full = top.insert(at, x as usize);
    assert(full[at] == x as usize);
    assert(forall|i: int| 0 <= i < grown.len() ==> #[trigger] grown[i] == full[i]);
    assert forall|i: int, j: int| 0 <= i < j < grown.len() implies before(
        part,
        #[trigger] grown[i] as int,
        #[trigger] grown[j] as int,
    ) by {
        assert(before(keys, full[i] as int, full[j] as int));
    }
    assert forall|i: int, y: int|
        0 <= i < grown.len() && 0 <= y < part.len() && !grown.contains(
            y as usize,
        ) implies #[trigger] before(part, grown[i] as int, y) by {
        assert(before(keys, full[i] as int, y)) by {
            assert(grown =~= full.take(grown.len() as int));
            lemma_pushed_off(keys, top, x, at, grown, i, y);
        }
    }
}

/// What is not in the grown list comes after everything in it.
proof fn lemma_pushed_off<K: Ranked>(
    keys: Seq<K>,
    top: Seq<usize>,
    x: int,
    at: int,
    grown: Seq<usize>,
    i: int,
    y: int,
)
    requires
        0 <= x < keys.len() <= usize::MAX,
        0 <= at <= top.len(),
        at < grown.len(),
        grown == top.insert(at, x as usize).take(grown.len() as int),
        grown.len() <= top.len() + 1,
        0 <= i < grown.len(),
        0 <= y <= x,
        !grown.contains(y as usize),
        forall|i: int, j: int|
            0 <= i < j < top.len() + 1 ==> before(
                keys,
                #[trigger] top.insert(at, x as usize)[i] as int,
                #[trigger] top.insert(at, x as usize)[j] as int,
            ),
        y < x && !top.contains(y as usize) ==> before(
            keys,
            top.insert(at, x as usize)[i] as int,
            y,
        ),
    ensures
        before(keys, top.insert(at, x as usize)[i] as int, y),
{
    let full = top.insert(at, x as usize);
    if y == x {
        assert(grown[at] == x as usize);
    } else if top.contains(y as usize) {
        let q = choose|q: int| 0 <= q < top.len() && top[q] == y as usize;
        let moved = if q < at {
            q
        } else {
            q + 1
        };
        assert(full[moved] == y as usize);
        if moved < grown.len() {
            assert(grown[moved] == y as usize);
        }
        assert(before(keys, full[i] as int, full[moved] as int));
    }
}

/// A position outside the foremost `k` means there are `k` of them.
pub(crate) proof fn lemma_left_out_means_full<K: Ranked>(keys: Seq<K>, k: nat, top: Seq<usize>, y: int)
    requires
        keys.len() <= usize::MAX,
        is_top(keys, k, top),
        0 <= y < keys.len(),
        !top.contains(y as usize),
    ensures
        top.len() == k,
{
    if top.len() < k {
        assert(top.len() == keys.len());
        // As many distinct positions as there are: none can be missing.
        assert(top.no_duplicates()) by {
            assert forall|i: int, j: int|
                0 <= i < top.len() && 0 <= j < top.len() && i != j implies top[i] != top[j] by {
                if i < j {
                    assert(before(keys, top[i] as int, top[j] as int));
                } else {
                    assert(before(keys, top[j] as int, top[i] as int));
                }
            }
        }
        let ints = top.map_values(|p: usize| p as int);
        assert(ints.no_duplicates());
        let found = ints.to_set();
        let all = vstd::set_lib::set_int_range(0, keys.len() as int);
        vstd::set_lib::lemma_int_range(0, keys.len() as int);
        ints.unique_seq_to_set();
        assert(found.subset_of(all.remove(y))) by {
            assert forall|p: int| found.contains(p) implies all.remove(y).contains(p) by {
                let i = choose|i: int| 0 <= i < ints.len() && ints[i] == p;
                assert(top[i] as int == p);
                if p == y {
                    assert(top[i] == y as usize);
                }
            }
        }
        vstd::set_lib::lemma_len_subset(found, all.remove(y));
        assert(false);
    }
}

pub(crate) proof fn lemma_an_order_exists<K: Ranked>(keys: Seq<K>)
    requires
        keys.len() <= usize::MAX,
    ensures
        orders_all(keys, ranking(keys)),
{
    let order = lemma_ordered_prefix(keys, keys.len() as int);
    assert(orders_all(keys, order));
}

/// Ordering the first `x` positions by inserting them one after another.
proof fn lemma_ordered_prefix<K: Ranked>(keys: Seq<K>, x: int) -> (order: Seq<usize>)
    requires
        0 <= x <= keys.len() <= usize::MAX,
    ensures
        orders_range(keys, order, 0, x),
    decreases x,
{
    if x == 0 {
        Seq::empty()
    } else {
        let shorter = lemma_ordered_prefix(keys, x - 1);
        lemma_inserted(keys, shorter, x - 1, shorter.len() as int)
    }
}

/// Finds the place for `x` among `order[..at]`, everything from `at` on being
/// known to come after it.
proof fn lemma_inserted<K: Ranked>(keys: Seq<K>, order: Seq<usize>, x: int, at: int) -> (grown: Seq<
    usize,
>)
    requires
        0 <= x < keys.len() <= usize::MAX,
        orders_range(keys, order, 0, x),
        0 <= at <= order.len(),
        forall|i: int| at <= i < order.len() ==> before(keys, x, #[trigger] order[i] as int),
    ensures
        orders_range(keys, grown, 0, x + 1),
    decreases at,
{
    if at > 0 && !before(keys, order[at - 1] as int, x) {
        lemma_before_decides(keys, order[at - 1] as int, x);
        lemma_inserted(keys, order, x, at - 1)
    } else {
        let grown = order.insert(at, x as usize);
        assert forall|i: int| 0 <= i < at implies before(keys, #[trigger] order[i] as int, x) by {
            if i < at - 1 {
                lemma_before_carries(keys, order[i] as int, order[at - 1] as int, x);
            }
        }
        assert forall|i: int, j: int| 0 <= i < j < grown.len() implies before(
            keys,
            #[trigger] grown[i] as int,
            #[trigger] grown[j] as int,
        ) by {
            let oi = if i < at {
                i
            } else {
                i - 1
            };
            let oj = if j < at {
                j
            } else {
                j - 1
            };
            if i != at {
                assert(grown[i] == order[oi]);
            }
            if j != at {
                assert(grown[j] == order[oj]);
            }
        }
        assert forall|i: int| 0 <= i < grown.len() implies 0 <= #[trigger] grown[i] < x + 1 by {
            if i < at {
                assert(grown[i] == order[i]);
            } else if i > at {
                assert(grown[i] == order[i - 1]);
            }
        }
        assert forall|y: int| 0 <= y < x + 1 implies #[trigger] grown.contains(y as usize) by {
            if y == x {
                assert(grown[at] == x as usize);
            } else {
                assert(order.contains(y as usize));
                let q = choose|q: int| 0 <= q < order.len() && order[q] == y as usize;
                if q < at {
                    assert(grown[q] == y as usize);
                } else {
                    assert(grown[q + 1] == y as usize);
                }
            }
        }
        grown
    }
}

// ---------------------------------------------------------- some of the order

/// The positions of `order` that are `fit`, in that order.
pub open spec fn among(order: Seq<usize>, fit: spec_fn(int) -> bool) -> Seq<usize>
    decreases order.len(),
{
    if order.len() == 0 {
        Seq::empty()
    } else {
        let sooner = among(order.drop_last(), fit);
        if fit(order.last() as int) {
            sooner.push(order.last())
        } else {
            sooner
        }
    }
}

/// The `k` foremost positions of `keys` that are `fit`, in order; all of them,
/// where there are fewer.
pub open spec fn foremost_fit<K: Ranked>(keys: Seq<K>, fit: spec_fn(int) -> bool, k: nat) -> Seq<
    usize,
> {
    let found = among(ranking(keys), fit);
    found.take(
        if k <= found.len() {
            k as int
        } else {
            found.len() as int
        },
    )
}

/// The positions up to `n` that are `fit`.
pub open spec fn fitting(n: nat, fit: spec_fn(int) -> bool) -> Set<usize> {
    Set::new(|x: usize| x < n && fit(x as int))
}

/// `chosen` holds `k` positions of `keys` that are `fit` (all of them, where
/// there are fewer), in order, and every other one that is comes after them.
pub open spec fn leads_the_fit<K: Ranked>(
    keys: Seq<K>,
    fit: spec_fn(int) -> bool,
    k: nat,
    chosen: Seq<usize>,
) -> bool {
    &&& fitting(keys.len(), fit).finite()
    &&& chosen.len() == (if k <= fitting(keys.len(), fit).len() {
        k
    } else {
        fitting(keys.len(), fit).len()
    })
    &&& chosen.no_duplicates()
    &&& forall|i: int|
        0 <= i < chosen.len() ==> (#[trigger] chosen[i]) < keys.len() && fit(chosen[i] as int)
    &&& forall|i: int, j: int|
        0 <= i < j < chosen.len() ==> before(
            keys,
            #[trigger] chosen[i] as int,
            #[trigger] chosen[j] as int,
        )
    &&& forall|i: int, x: int|
        0 <= i < chosen.len() && 0 <= x < keys.len() && fit(x) && !chosen.contains(x as usize)
            ==> #[trigger] before(keys, chosen[i] as int, x)
}

proof fn lemma_among<K: Ranked>(keys: Seq<K>, order: Seq<usize>, fit: spec_fn(int) -> bool)
    requires
        forall|i: int, j: int|
            0 <= i < j < order.len() ==> before(
                keys,
                #[trigger] order[i] as int,
                #[trigger] order[j] as int,
            ),
    ensures
        forall|x: usize| #[trigger]
            among(order, fit).contains(x) <==> order.contains(x) && fit(x as int),
        forall|i: int, j: int|
            0 <= i < j < among(order, fit).len() ==> before(
                keys,
                #[trigger] among(order, fit)[i] as int,
                #[trigger] among(order, fit)[j] as int,
            ),
    decreases order.len(),
{
    let found = among(order, fit);
    if order.len() > 0 {
        let rest = order.drop_last();
        let sooner = among(rest, fit);
        lemma_among(keys, rest, fit);
        assert forall|x: usize| #[trigger] found.contains(x) <==> order.contains(x) && fit(
            x as int,
        ) by {
            if found.contains(x) {
                let i = choose|i: int| 0 <= i < found.len() && found[i] == x;
                if i < sooner.len() {
                    assert(sooner[i] == x);
                    assert(sooner.contains(x));
                    let p = choose|p: int| 0 <= p < rest.len() && rest[p] == x;
                    assert(order[p] == x);
                } else {
                    assert(order[order.len() - 1] == x);
                }
            }
            if order.contains(x) && fit(x as int) {
                let p = choose|p: int| 0 <= p < order.len() && order[p] == x;
                if p < rest.len() {
                    assert(rest[p] == x);
                    assert(sooner.contains(x));
                    let i = choose|i: int| 0 <= i < sooner.len() && sooner[i] == x;
                    assert(found[i] == x);
                } else {
                    assert(found[found.len() - 1] == x);
                }
            }
        }
        assert forall|i: int, j: int| 0 <= i < j < found.len() implies before(
            keys,
            #[trigger] found[i] as int,
            #[trigger] found[j] as int,
        ) by {
            assert(found[i] == sooner[i]);
            if j < sooner.len() {
                assert(found[j] == sooner[j]);
            } else {
                assert(sooner.contains(sooner[i]));
                let p = choose|p: int| 0 <= p < rest.len() && rest[p] == sooner[i];
                assert(order[p] == found[i]);
                assert(order[order.len() - 1] == found[j]);
            }
        }
    }
}

/// The foremost positions that are fit are in order, are as many as were asked
/// for or as there are, and come before every other one that is fit.
pub proof fn the_foremost_fit_lead<K: Ranked>(keys: Seq<K>, fit: spec_fn(int) -> bool, k: nat)
    requires
        keys.len() <= usize::MAX,
    ensures
        leads_the_fit(keys, fit, k, foremost_fit(keys, fit, k)),
{
    lemma_an_order_exists(keys);
    let order = ranking(keys);
    let found = among(order, fit);
    let chosen = foremost_fit(keys, fit, k);
    lemma_among(keys, order, fit);
    assert(found.no_duplicates()) by {
        assert forall|i: int, j: int|
            0 <= i < found.len() && 0 <= j < found.len() && i != j implies found[i] != found[j] by {
            if i < j {
                assert(before(keys, found[i] as int, found[j] as int));
            } else {
                assert(before(keys, found[j] as int, found[i] as int));
            }
        }
    }
    let all = fitting(keys.len(), fit);
    assert(found.to_set() =~= all) by {
        assert forall|x: usize| found.to_set().contains(x) <==> all.contains(x) by {
            if found.contains(x) {
                let p = choose|p: int| 0 <= p < order.len() && order[p] == x;
                assert(0 <= order[p] < keys.len());
            }
            if all.contains(x) {
                assert(order.contains(x as int as usize));
            }
        }
    }
    found.unique_seq_to_set();
    assert(all.len() == found.len());
    assert forall|i: int| 0 <= i < chosen.len() implies (#[trigger] chosen[i]) < keys.len() && fit(
        chosen[i] as int,
    ) by {
        assert(found[i] == chosen[i]);
        assert(found.contains(found[i]));
        assert(all.contains(chosen[i]));
    }
    assert forall|i: int, j: int| 0 <= i < j < chosen.len() implies before(
        keys,
        #[trigger] chosen[i] as int,
        #[trigger] chosen[j] as int,
    ) by {
        assert(found[i] == chosen[i] && found[j] == chosen[j]);
    }
    assert forall|i: int, x: int|
        0 <= i < chosen.len() && 0 <= x < keys.len() && fit(x) && !chosen.contains(
            x as usize,
        ) implies #[trigger] before(keys, chosen[i] as int, x) by {
        assert(order.contains(x as usize));
        assert(found.contains(x as usize));
        let p = choose|p: int| 0 <= p < found.len() && found[p] == x as usize;
        if p < chosen.len() {
            assert(chosen[p] == x as usize);
        }
        assert(found[i] == chosen[i]);
        assert(before(keys, found[i] as int, found[p] as int));
    }
}

/// Lists the `k` foremost positions of `keys` that are `open`.
pub(crate) fn pick_foremost<K: Ranked, F: Fn(usize) -> bool>(
    keys: &[K],
    k: usize,
    open: F,
    Ghost(fit): Ghost<spec_fn(int) -> bool>,
) -> (chosen: Vec<usize>)
    requires
        forall|x: usize| x < keys@.len() ==> #[trigger] open.requires((x,)),
        forall|x: usize, yes: bool|
            x < keys@.len() && #[trigger] open.ensures((x,), yes) ==> yes == fit(x as int),
    ensures
        chosen@ == foremost_fit(keys@, fit, k as nat),
        leads_the_fit(keys@, fit, k as nat, chosen@),
{
    let order = stable_order(keys);
    let mut chosen: Vec<usize> = Vec::new();
    let mut i: usize = 0;
    assert(order@.take(0) =~= Seq::empty());
    while i < order.len() && chosen.len() < k
        invariant
            forall|x: usize| x < keys@.len() ==> #[trigger] open.requires((x,)),
            forall|x: usize, yes: bool|
                x < keys@.len() && #[trigger] open.ensures((x,), yes) ==> yes == fit(x as int),
            orders_all(keys@, order@),
            i <= order@.len(),
            chosen@ == among(order@.take(i as int), fit),
            chosen@.len() <= k,
        decreases order@.len() - i,
    {
        let x: usize = order[i];
        assert(x == order@[i as int]);
        assert(order@.take(i + 1).drop_last() =~= order@.take(i as int));
        if open(x) {
            chosen.push(x);
        }
        i = i + 1;
    }
    proof {
        lemma_among_grows(order@, fit, i as int);
        assert(order@.take(order@.len() as int) =~= order@);
        assert(chosen@ =~= foremost_fit(keys@, fit, k as nat));
        the_foremost_fit_lead(keys@, fit, k as nat);
    }
    chosen
}

/// What is found in the start of an order is the start of what is found.
proof fn lemma_among_grows(order: Seq<usize>, fit: spec_fn(int) -> bool, i: int)
    requires
        0 <= i <= order.len(),
    ensures
        among(order.take(i), fit).len() <= among(order, fit).len(),
        among(order.take(i), fit) == among(order, fit).take(among(order.take(i), fit).len() as int),
    decreases order.len(),
{
    let start = among(order.take(i), fit);
    let found = among(order, fit);
    if i == order.len() {
        assert(order.take(i) =~= order);
        assert(found.take(found.len() as int) =~= found);
    } else {
        let rest = order.drop_last();
        lemma_among_grows(rest, fit, i);
        assert(rest.take(i) =~= order.take(i));
        assert(start =~= found.take(start.len() as int));
    }
}

} // verus!
