//! The cheapest route through a graph of neighbours.

use crate::frontier::{no_dearer, Frontier};
use vstd::prelude::*;

verus! {

/// What a hop between two tracks by the same artist costs on top: a twentieth,
/// in the units of `paths::UNIT`.
pub const SAME_ARTIST_PENALTY: i32 = 13_421_773;

/// Bounds the size of any one hop.
const HOP_BOUND: i128 = 0x1_0000_0000;

/// Each node with its neighbours and the distance to each.
pub type Graph = Vec<Vec<(usize, i32)>>;

/// Every neighbour is a node, and every node has an artist.
pub open spec fn sound_graph(graph: Seq<Vec<(usize, i32)>>, artists: Seq<i64>) -> bool {
    &&& artists.len() >= graph.len()
    &&& forall|u: int, e: int|
        #![trigger graph[u]@[e]]
        0 <= u < graph.len() && 0 <= e < graph[u]@.len() ==> graph[u]@[e].0 < graph.len()
}

/// What leaving `u` by its `e`th edge costs. Staying with the same artist is
/// dearer.
pub open spec fn hop(graph: Seq<Vec<(usize, i32)>>, artists: Seq<i64>, u: int, e: int) -> int {
    graph[u]@[e].1 + (if artists[graph[u]@[e].0 as int] == artists[u] {
        SAME_ARTIST_PENALTY as int
    } else {
        0
    })
}

/// The `e`th edge of `u` leads to `v`.
pub open spec fn leads(graph: Seq<Vec<(usize, i32)>>, u: int, e: int, v: usize) -> bool {
    0 <= u < graph.len() && 0 <= e < graph[u]@.len() && graph[u]@[e].0 == v
}

/// `nodes` is a walk along edges of the graph, and `cost` what it comes to.
pub open spec fn walks(
    graph: Seq<Vec<(usize, i32)>>,
    artists: Seq<i64>,
    nodes: Seq<usize>,
    cost: int,
) -> bool
    decreases nodes.len(),
{
    if nodes.len() <= 1 {
        nodes.len() == 1 && cost == 0
    } else {
        let u = nodes[nodes.len() - 2] as int;
        exists|e: int| #[trigger]
            leads(graph, u, e, nodes.last()) && walks(
                graph,
                artists,
                nodes.drop_last(),
                cost - hop(graph, artists, u, e),
            )
    }
}

/// `nodes` is a walk from `start` to `goal`.
pub open spec fn connects(
    graph: Seq<Vec<(usize, i32)>>,
    artists: Seq<i64>,
    nodes: Seq<usize>,
    start: usize,
    goal: usize,
    cost: int,
) -> bool {
    &&& walks(graph, artists, nodes, cost)
    &&& nodes[0] == start
    &&& nodes.last() == goal
}

/// As `walks`, along edges none of which pays.
pub open spec fn walks_unpaid(
    graph: Seq<Vec<(usize, i32)>>,
    artists: Seq<i64>,
    nodes: Seq<usize>,
    cost: int,
) -> bool
    decreases nodes.len(),
{
    if nodes.len() <= 1 {
        nodes.len() == 1 && cost == 0
    } else {
        let u = nodes[nodes.len() - 2] as int;
        exists|e: int| #[trigger]
            leads(graph, u, e, nodes.last()) && hop(graph, artists, u, e) >= 0 && walks_unpaid(
                graph,
                artists,
                nodes.drop_last(),
                cost - hop(graph, artists, u, e),
            )
    }
}

/// No walk between these ends costs less, unless some hop of it pays.
pub open spec fn none_undercuts(
    graph: Seq<Vec<(usize, i32)>>,
    artists: Seq<i64>,
    start: usize,
    goal: usize,
    cost: int,
) -> bool {
    forall|other: Seq<usize>, c: int| #[trigger]
        walks_unpaid(graph, artists, other, c) && other[0] == start && other.last() == goal ==> cost
            <= c
}

/// What it comes to to leave the `h`th of the settled nodes by its `e`th edge.
pub open spec fn offer(
    graph: Seq<Vec<(usize, i32)>>,
    artists: Seq<i64>,
    settled: Seq<usize>,
    costs: Seq<int>,
    h: int,
    e: int,
) -> int {
    costs[h] + hop(graph, artists, settled[h] as int, e)
}

/// The `i`th node is the one to settle after those before it: of all the nodes
/// they lead to that are not settled yet, it is the cheapest to get to, and the
/// first of those where several are.
pub open spec fn settles_next(
    graph: Seq<Vec<(usize, i32)>>,
    artists: Seq<i64>,
    settled: Seq<usize>,
    costs: Seq<int>,
    i: int,
) -> bool {
    &&& exists|h: int, e: int|
        0 <= h < i && #[trigger] leads(graph, settled[h] as int, e, settled[i]) && costs[i] == offer(
            graph,
            artists,
            settled,
            costs,
            h,
            e,
        )
    &&& forall|h: int, e: int, v: usize|
        #![trigger leads(graph, settled[h] as int, e, v)]
        0 <= h < i && leads(graph, settled[h] as int, e, v) && !settled.take(i).contains(v) ==> {
            let c = offer(graph, artists, settled, costs, h, e);
            costs[i] < c || (costs[i] == c && settled[i] <= v)
        }
}

/// `settled` are nodes settled one after the other, beginning with `start`, and
/// `costs` what getting to each of them comes to.
pub open spec fn settles(
    graph: Seq<Vec<(usize, i32)>>,
    artists: Seq<i64>,
    start: usize,
    settled: Seq<usize>,
    costs: Seq<int>,
) -> bool {
    &&& settled.len() > 0
    &&& costs.len() == settled.len()
    &&& settled[0] == start
    &&& costs[0] == 0
    &&& settled.no_duplicates()
    &&& forall|i: int|
        1 <= i < settled.len() ==> #[trigger] settles_next(graph, artists, settled, costs, i)
}

/// The `i`th of the settled nodes was come to from the `h`th: the first that
/// leads to it at what getting there comes to.
pub open spec fn comes_from(
    graph: Seq<Vec<(usize, i32)>>,
    artists: Seq<i64>,
    settled: Seq<usize>,
    costs: Seq<int>,
    i: int,
    h: int,
) -> bool {
    &&& 0 <= h < i < settled.len()
    &&& exists|e: int| #[trigger]
        leads(graph, settled[h] as int, e, settled[i]) && costs[i] == offer(
            graph,
            artists,
            settled,
            costs,
            h,
            e,
        )
    &&& forall|g: int, e: int|
        #![trigger leads(graph, settled[g] as int, e, settled[i])]
        0 <= g < h && leads(graph, settled[g] as int, e, settled[i]) ==> costs[i] < offer(
            graph,
            artists,
            settled,
            costs,
            g,
            e,
        )
}

/// `from` is where `to` was come to from.
pub open spec fn steps(
    graph: Seq<Vec<(usize, i32)>>,
    artists: Seq<i64>,
    settled: Seq<usize>,
    costs: Seq<int>,
    from: usize,
    to: usize,
) -> bool {
    exists|i: int, h: int| #[trigger]
        comes_from(graph, artists, settled, costs, i, h) && settled[i] == to && settled[h] == from
}

/// With these nodes settled, the goal last, `nodes` is the way it was come to,
/// at a cost that no walk undercuts of which no hop pays.
pub open spec fn is_way(
    graph: Seq<Vec<(usize, i32)>>,
    artists: Seq<i64>,
    nodes: Seq<usize>,
    start: usize,
    goal: usize,
    settled: Seq<usize>,
    costs: Seq<int>,
) -> bool {
    &&& settles(graph, artists, start, settled, costs)
    &&& settled.last() == goal
    &&& connects(graph, artists, nodes, start, goal, costs.last())
    &&& forall|p: int|
        1 <= p < nodes.len() ==> steps(
            graph,
            artists,
            settled,
            costs,
            nodes[p - 1],
            #[trigger] nodes[p],
        )
    &&& none_undercuts(graph, artists, start, goal, costs.last())
}

/// `nodes` is the way the goal is come to by settling nodes until it is. There
/// is only one such way: see `a_route_is_the_only_one`.
pub open spec fn is_route(
    graph: Seq<Vec<(usize, i32)>>,
    artists: Seq<i64>,
    nodes: Seq<usize>,
    start: usize,
    goal: usize,
) -> bool {
    exists|settled: Seq<usize>, costs: Seq<int>| #[trigger]
        is_way(graph, artists, nodes, start, goal, settled, costs)
}

// ------------------------------------------------------- the search, as seen
// from outside: what is known of each node, and which nodes are done with.

struct Search {
    best: Vec<Option<i128>>,
    previous: Vec<Option<usize>>,
    visited: Vec<bool>,
    queue: Frontier,
    /// The nodes done with, in the order they were.
    settled: Ghost<Seq<usize>>,
}

impl Search {
    spec fn knows(self, v: int) -> bool {
        self.best@[v] is Some
    }

    spec fn cost(self, v: int) -> int {
        self.best@[v]->0 as int
    }

    /// The step before `v` is a settled node with an edge to it that accounts
    /// for its cost.
    spec fn step_accounts(
        self,
        graph: Seq<Vec<(usize, i32)>>,
        artists: Seq<i64>,
        v: int,
    ) -> bool {
        &&& self.previous@[v] matches Some(u)
        &&& u < graph.len()
        &&& self.visited@[u as int]
        &&& self.knows(u as int)
        &&& exists|e: int| #[trigger]
            leads(graph, u as int, e, v as usize) && self.cost(v) == self.cost(u as int) + hop(
                graph,
                artists,
                u as int,
                e,
            )
    }

    spec fn shape(self, graph: Seq<Vec<(usize, i32)>>) -> bool {
        &&& self.queue.wf()
        &&& graph.len() <= usize::MAX
        &&& self.best@.len() == graph.len()
        &&& self.previous@.len() == graph.len()
        &&& self.visited@.len() == graph.len()
        &&& self.settled@.no_duplicates()
        &&& forall|i: int| 0 <= i < self.settled@.len() ==> #[trigger] self.settled@[i] < graph.len()
        &&& forall|v: int|
            0 <= v < graph.len() ==> (#[trigger] self.visited@[v] <==> self.settled@.contains(
                v as usize,
            ))
    }

    /// What holds between one node and the next.
    spec fn holds(
        self,
        graph: Seq<Vec<(usize, i32)>>,
        artists: Seq<i64>,
        start: usize,
    ) -> bool {
        &&& self.shape(graph)
        &&& start < graph.len()
        &&& self.knows(start as int) && self.cost(start as int) == 0
        // The first node done with is the start.
        &&& self.settled@.len() > 0 ==> self.settled@[0] == start
        // Only known nodes are done with, or waiting.
        &&& forall|v: int|
            0 <= v < graph.len() && #[trigger] self.visited@[v] ==> self.knows(v)
        &&& forall|v: int|
            0 <= v < graph.len() && self.knows(v) && !self.visited@[v]
                ==> self.queue@.contains((#[trigger] self.best@[v]->0, v as usize))
        &&& forall|entry: (i128, usize)| #[trigger]
            self.queue@.contains(entry) ==> entry.1 < graph.len() && self.knows(entry.1 as int)
                && self.cost(entry.1 as int) <= entry.0
        // Before anything is done with, only the start is known.
        &&& self.settled@.len() == 0 ==> forall|v: int|
            0 <= v < graph.len() && v != start ==> (#[trigger] self.best@[v]) is None
        // Costs add up along the steps taken.
        &&& forall|v: int|
            0 <= v < graph.len() && v != start && #[trigger] self.knows(v) ==> self.step_accounts(
                graph,
                artists,
                v,
            )
        // A node is done with after the one before it.
        &&& forall|i: int|
            1 <= i < self.settled@.len() ==> exists|h: int|
                0 <= h < i && self.previous@[#[trigger] self.settled@[i] as int] == Some(
                    #[trigger] self.settled@[h],
                )
        // No number grows out of hand.
        &&& forall|v: int|
            0 <= v < graph.len() && #[trigger] self.knows(v) ==> -(self.settled@.len() * HOP_BOUND)
                <= self.cost(v) <= self.settled@.len() * HOP_BOUND
    }

    /// The first `upto` edges of `u` have been looked at: each leads to a node
    /// that is done with, or known to cost no more than going through `u`.
    spec fn relaxed(
        self,
        graph: Seq<Vec<(usize, i32)>>,
        artists: Seq<i64>,
        u: int,
        upto: int,
    ) -> bool {
        forall|e: int|
            0 <= e < upto ==> {
                let v = (#[trigger] graph[u]@[e]).0 as int;
                self.visited@[v] || (self.knows(v) && self.cost(v) <= self.cost(u) + hop(
                    graph,
                    artists,
                    u,
                    e,
                ))
            }
    }

    /// Every settled node but `except` has had all its edges looked at.
    spec fn all_relaxed(
        self,
        graph: Seq<Vec<(usize, i32)>>,
        artists: Seq<i64>,
        except: Option<usize>,
    ) -> bool {
        forall|u: int|
            0 <= u < graph.len() && #[trigger] self.visited@[u] && except != Some(u as usize)
                ==> self.relaxed(graph, artists, u, graph[u]@.len() as int)
    }

    /// What getting to each of the settled nodes comes to.
    spec fn costs(self) -> Seq<int> {
        Seq::new(self.settled@.len(), |i: int| self.cost(self.settled@[i] as int))
    }

    /// Getting to `v` through any of the first `k` nodes done with is dearer
    /// than what is recorded for it.
    spec fn none_sooner(
        self,
        graph: Seq<Vec<(usize, i32)>>,
        artists: Seq<i64>,
        v: usize,
        k: int,
    ) -> bool {
        forall|h: int, e: int|
            #![trigger leads(graph, self.settled@[h] as int, e, v)]
            0 <= h < k && leads(graph, self.settled@[h] as int, e, v) ==> self.cost(v as int)
                < self.cost(self.settled@[h] as int) + hop(
                graph,
                artists,
                self.settled@[h] as int,
                e,
            )
    }

    /// The step before `v` is the first node done with that leads to it at what
    /// is recorded for it.
    spec fn found_first(
        self,
        graph: Seq<Vec<(usize, i32)>>,
        artists: Seq<i64>,
        v: int,
    ) -> bool {
        exists|k: int|
            0 <= k < self.settled@.len() && self.previous@[v] == Some(#[trigger] self.settled@[k])
                && self.none_sooner(graph, artists, v as usize, k)
    }

    /// Every node was done with, and each but the first was got to from the one
    /// before it.
    spec fn traces(self, path: Seq<usize>) -> bool {
        &&& forall|p: int| 0 <= p < path.len() ==> self.settled@.contains(#[trigger] path[p])
        &&& forall|p: int|
            1 <= p < path.len() ==> self.previous@[#[trigger] path[p] as int] == Some(path[p - 1])
    }

    spec fn orderly(
        self,
        graph: Seq<Vec<(usize, i32)>>,
        artists: Seq<i64>,
        start: usize,
    ) -> bool {
        &&& self.settled@.len() > 0 ==> settles(
            graph,
            artists,
            start,
            self.settled@,
            self.costs(),
        )
        &&& forall|v: int|
            0 <= v < graph.len() && v != start && #[trigger] self.knows(v) ==> self.found_first(
                graph,
                artists,
                v,
            )
    }
}

/// Distinct numbers below `n` are no more than `n`.
proof fn lemma_distinct_below(s: Seq<usize>, n: int)
    requires
        s.no_duplicates(),
        n >= 0,
        forall|i: int| 0 <= i < s.len() ==> #[trigger] s[i] < n,
    ensures
        s.len() <= n,
{
    let ints = s.map_values(|x: usize| x as int);
    assert(ints.no_duplicates());
    ints.unique_seq_to_set();
    vstd::set_lib::lemma_int_range(0, n);
    let all = vstd::set_lib::set_int_range(0, n);
    assert forall|x: int| ints.to_set().contains(x) implies all.contains(x) by {
        let i = choose|i: int| 0 <= i < ints.len() && ints[i] == x;
        assert(s[i] as int == x);
    }
    vstd::set_lib::lemma_len_subset(ints.to_set(), all);
}

proof fn lemma_step(
    search: Search,
    graph: Seq<Vec<(usize, i32)>>,
    artists: Seq<i64>,
    v: usize,
    u: usize,
    e: int,
)
    requires
        search.previous@[v as int] == Some(u),
        u < graph.len(),
        search.visited@[u as int],
        search.knows(u as int),
        leads(graph, u as int, e, v),
        search.cost(v as int) == search.cost(u as int) + hop(graph, artists, u as int, e),
    ensures
        search.step_accounts(graph, artists, v as int),
{
    assert(leads(graph, u as int, e, v as int as usize));
}

/// With nothing waiting, every walk from the start stays among settled nodes.
proof fn lemma_nothing_beyond(
    search: Search,
    graph: Seq<Vec<(usize, i32)>>,
    artists: Seq<i64>,
    start: usize,
    nodes: Seq<usize>,
    c: int,
)
    requires
        sound_graph(graph, artists),
        search.holds(graph, artists, start),
        search.all_relaxed(graph, artists, None),
        search.queue@.len() == 0,
        walks(graph, artists, nodes, c),
        nodes[0] == start,
    ensures
        nodes.last() < graph.len(),
        search.visited@[nodes.last() as int],
    decreases nodes.len(),
{
    let last = nodes.last();
    if nodes.len() >= 2 {
        let u = nodes[nodes.len() - 2] as int;
        let e = choose|e: int| #[trigger]
            leads(graph, u, e, last) && walks(
                graph,
                artists,
                nodes.drop_last(),
                c - hop(graph, artists, u, e),
            );
        lemma_nothing_beyond(
            search,
            graph,
            artists,
            start,
            nodes.drop_last(),
            c - hop(graph, artists, u, e),
        );
        assert(search.relaxed(graph, artists, u, graph[u]@.len() as int));
        assert(graph[u]@[e].0 == last);
    }
    if !search.visited@[last as int] {
        assert(search.knows(last as int));
        assert(search.queue@.contains((search.best@[last as int]->0, last)));
        assert(search.queue@.count((search.best@[last as int]->0, last)) > 0);
        assert(search.queue@.len() > 0) by {
            if search.queue@.len() == 0 {
                assert(search.queue@ =~= vstd::multiset::Multiset::empty());
            }
        }
    }
}

impl Search {
    fn begin(graph: &Graph, artists: &[i64], start: usize) -> (search: Self)
        requires
            start < graph@.len(),
        ensures
            search.holds(graph@, artists@, start),
            search.orderly(graph@, artists@, start),
            search.settled@.len() == 0,
            forall|v: int| 0 <= v < graph@.len() ==> !#[trigger] search.visited@[v],
    {
        let n: usize = graph.len();
        let mut best: Vec<Option<i128>> = Vec::new();
        let mut previous: Vec<Option<usize>> = Vec::new();
        let mut visited: Vec<bool> = Vec::new();
        while visited.len() < n
            invariant
                n == graph@.len(),
                best@.len() == visited@.len(),
                previous@.len() == visited@.len(),
                visited@.len() <= n,
                forall|v: int| 0 <= v < visited@.len() ==> (#[trigger] best@[v]) is None,
                forall|v: int| 0 <= v < visited@.len() ==> !#[trigger] visited@[v],
            decreases n - visited@.len(),
        {
            best.push(None);
            previous.push(None);
            visited.push(false);
        }
        best.set(start, Some(0));
        let mut queue = Frontier::new();
        queue.push((0, start));
        Search { best, previous, visited, queue, settled: Ghost(Seq::empty()) }
    }

    /// Looks at one edge of a node just done with.
    fn relax(&mut self, graph: &Graph, artists: &[i64], start: usize, node: usize, e: usize)
        requires
            sound_graph(graph@, artists@),
            old(self).holds(graph@, artists@, start),
            node < graph@.len(),
            old(self).visited@[node as int],
            e < graph@[node as int]@.len(),
            -((old(self).settled@.len() - 1) * HOP_BOUND) <= old(self).cost(node as int) <= (
            old(self).settled@.len() - 1) * HOP_BOUND,
            old(self).all_relaxed(graph@, artists@, Some(node)),
            old(self).relaxed(graph@, artists@, node as int, e as int),
            old(self).settled@.len() > 0,
            old(self).settled@.last() == node,
            old(self).orderly(graph@, artists@, start),
        ensures
            final(self).orderly(graph@, artists@, start),
            final(self).holds(graph@, artists@, start),
            final(self).settled == old(self).settled,
            final(self).visited == old(self).visited,
            forall|v: int|
                0 <= v < graph@.len() && final(self).visited@[v] ==> #[trigger] final(self).best@[v]
                    == old(self).best@[v],
            final(self).all_relaxed(graph@, artists@, Some(node)),
            final(self).relaxed(graph@, artists@, node as int, e + 1),
    {
        proof {
            lemma_distinct_below(self.settled@, graph@.len() as int);
            assert(graph@[node as int]@[e as int].0 < graph@.len());
            assert(self.settled@.len() > 0) by {
                assert(self.settled@.contains(node));
            }
            assert(self.visited@[start as int]) by {
                assert(self.settled@[0] == start);
                assert(self.settled@.contains(start));
            }
        }
        let (neighbour, edge): (usize, i32) = graph[node][e];
        if self.visited[neighbour] {
            return;
        }
        let penalty: i32 = if artists[neighbour] == artists[node] {
            SAME_ARTIST_PENALTY
        } else {
            0
        };
        let cost: i128 = match self.best[node] {
            Some(cost) => cost,
            None => 0,
        };
        let new_cost: i128 = cost + edge as i128 + penalty as i128;
        let better: bool = match self.best[neighbour] {
            Some(known) => new_cost < known,
            None => true,
        };
        if better {
            let ghost before = *self;
            self.best.set(neighbour, Some(new_cost));
            self.previous.set(neighbour, Some(node));
            self.queue.push((new_cost, neighbour));
            proof {
                assert(before.knows(node as int));
                assert(self.previous@[neighbour as int] == Some(node));
                assert(leads(graph@, node as int, e as int, neighbour as int as usize));
                assert(self.cost(neighbour as int) == self.cost(node as int) + hop(
                    graph@,
                    artists@,
                    node as int,
                    e as int,
                ));
                lemma_step(*self, graph@, artists@, neighbour, node, e as int);
                assert forall|v: int|
                    0 <= v < graph@.len() && v != start && #[trigger] self.knows(
                        v,
                    ) implies self.step_accounts(graph@, artists@, v) by {
                    if v != neighbour {
                        assert(before.knows(v));
                        assert(before.step_accounts(graph@, artists@, v));
                        let u = before.previous@[v]->0;
                        assert(u != neighbour);
                    }
                }
                assert forall|i: int| 1 <= i < self.settled@.len() implies exists|h: int|
                    0 <= h < i && self.previous@[#[trigger] self.settled@[i] as int] == Some(
                        #[trigger] self.settled@[h],
                    ) by {
                    let v = self.settled@[i];
                    assert(self.settled@.contains(v));
                    assert(before.visited@[v as int]);
                    assert(v != neighbour);
                    let h = choose|h: int|
                        0 <= h < i && before.previous@[before.settled@[i] as int] == Some(
                            #[trigger] before.settled@[h],
                        );
                    assert(self.previous@[self.settled@[i] as int] == Some(self.settled@[h]));
                }
                assert forall|entry: (i128, usize)| #[trigger] self.queue@.contains(
                    entry,
                ) implies entry.1 < graph@.len() && self.knows(entry.1 as int) && self.cost(
                    entry.1 as int,
                ) <= entry.0 by {
                    if entry != (new_cost, neighbour) {
                        assert(before.queue@.contains(entry));
                    }
                }
                assert forall|v: int|
                    0 <= v < graph@.len() && self.knows(v) && !self.visited@[v] implies self.queue@.contains(
                (#[trigger] self.best@[v]->0, v as usize)) by {
                    if v != neighbour {
                        assert(before.knows(v));
                        assert(before.queue@.contains((before.best@[v]->0, v as usize)));
                    }
                }
                assert forall|v: int| 0 <= v < graph@.len() && #[trigger] self.knows(v) implies -(
                self.settled@.len() * HOP_BOUND) <= self.cost(v) <= self.settled@.len()
                    * HOP_BOUND by {
                    if v != neighbour {
                        assert(before.knows(v));
                    }
                }
                assert forall|u: int|
                    0 <= u < graph@.len() && #[trigger] self.visited@[u] && Some(node) != Some(
                        u as usize,
                    ) implies self.relaxed(graph@, artists@, u, graph@[u]@.len() as int) by {
                    assert(before.relaxed(graph@, artists@, u, graph@[u]@.len() as int));
                    assert(before.visited@[u]);
                    assert(before.knows(u));
                }
                lemma_relaxing_keeps_order(
                    before,
                    *self,
                    graph@,
                    artists@,
                    start,
                    node,
                    e as int,
                    neighbour,
                    new_cost,
                );
            }
        }
    }
}

proof fn lemma_relaxing_keeps_order(
    before: Search,
    after: Search,
    graph: Seq<Vec<(usize, i32)>>,
    artists: Seq<i64>,
    start: usize,
    node: usize,
    e: int,
    neighbour: usize,
    new_cost: i128,
)
    requires
        sound_graph(graph, artists),
        before.holds(graph, artists, start),
        before.orderly(graph, artists, start),
        before.settled@.len() > 0,
        before.settled@.last() == node,
        before.all_relaxed(graph, artists, Some(node)),
        leads(graph, node as int, e, neighbour),
        neighbour < graph.len(),
        !before.visited@[neighbour as int],
        new_cost == before.cost(node as int) + hop(graph, artists, node as int, e),
        before.knows(neighbour as int) ==> new_cost < before.cost(neighbour as int),
        after.best@ == before.best@.update(neighbour as int, Some(new_cost)),
        after.previous@ == before.previous@.update(neighbour as int, Some(node)),
        after.queue@ == before.queue@.insert((new_cost, neighbour)),
        after.settled == before.settled,
        after.visited == before.visited,
    ensures
        after.orderly(graph, artists, start),
{
    let settled = before.settled@;
    let n = settled.len() as int;
    assert forall|i: int| 0 <= i < n implies #[trigger] settled[i] < graph.len()
        && settled[i] != neighbour && before.visited@[settled[i] as int] && after.cost(
        settled[i] as int,
    ) == before.cost(settled[i] as int) by {
        assert(settled.contains(settled[i]));
        assert(before.visited@[settled[i] as int]);
    }
    assert(settled[n - 1] == node);
    assert(after.costs() =~= before.costs());
    assert forall|v: int|
        0 <= v < graph.len() && v != start && #[trigger] after.knows(v) implies after.found_first(
        graph,
        artists,
        v,
    ) by {
        if v == neighbour {
            assert forall|h: int, f: int|
                #![trigger leads(graph, settled[h] as int, f, neighbour)]
                0 <= h < n - 1 && leads(graph, settled[h] as int, f, neighbour) implies after.cost(v)
                < after.cost(settled[h] as int) + hop(graph, artists, settled[h] as int, f) by {
                let u = settled[h];
                assert(u != settled[n - 1]);
                assert(Some(node) != Some(u as int as usize));
                assert(before.visited@[u as int]);
                assert(before.relaxed(graph, artists, u as int, graph[u as int]@.len() as int));
                assert(graph[u as int]@[f].0 == neighbour);
            }
            assert(after.none_sooner(graph, artists, neighbour, n - 1));
            assert(after.previous@[v] == Some(after.settled@[n - 1]));
        } else {
            assert(before.knows(v));
            assert(before.found_first(graph, artists, v));
            let k = choose|k: int|
                0 <= k < before.settled@.len() && before.previous@[v] == Some(
                    #[trigger] before.settled@[k],
                ) && before.none_sooner(graph, artists, v as usize, k);
            assert forall|h: int, f: int|
                #![trigger leads(graph, settled[h] as int, f, v as usize)]
                0 <= h < k && leads(graph, settled[h] as int, f, v as usize) implies after.cost(v)
                < after.cost(settled[h] as int) + hop(graph, artists, settled[h] as int, f) by {
                assert(leads(graph, before.settled@[h] as int, f, v as usize));
            }
            assert(after.none_sooner(graph, artists, v as usize, k));
            assert(after.previous@[v] == Some(after.settled@[k]));
        }
    }
}

proof fn lemma_skipping_keeps_order(
    before: Search,
    after: Search,
    graph: Seq<Vec<(usize, i32)>>,
    artists: Seq<i64>,
    start: usize,
)
    requires
        before.orderly(graph, artists, start),
        after.best == before.best,
        after.previous == before.previous,
        after.settled == before.settled,
    ensures
        after.orderly(graph, artists, start),
{
    assert(after.costs() =~= before.costs());
    assert forall|v: int|
        0 <= v < graph.len() && v != start && #[trigger] after.knows(v) implies after.found_first(
        graph,
        artists,
        v,
    ) by {
        assert(before.knows(v));
        assert(before.found_first(graph, artists, v));
        let k = choose|k: int|
            0 <= k < before.settled@.len() && before.previous@[v] == Some(
                #[trigger] before.settled@[k],
            ) && before.none_sooner(graph, artists, v as usize, k);
        assert(after.none_sooner(graph, artists, v as usize, k));
        assert(after.previous@[v] == Some(after.settled@[k]));
    }
}

proof fn lemma_settling_keeps_order(
    before: Search,
    after: Search,
    graph: Seq<Vec<(usize, i32)>>,
    artists: Seq<i64>,
    start: usize,
    entry: (i128, usize),
)
    requires
        sound_graph(graph, artists),
        before.holds(graph, artists, start),
        before.all_relaxed(graph, artists, None),
        before.orderly(graph, artists, start),
        entry.1 < graph.len(),
        forall|other: (i128, usize)| before.queue@.contains(other) ==> no_dearer(entry, other),
        before.knows(entry.1 as int),
        before.cost(entry.1 as int) == entry.0,
        !before.visited@[entry.1 as int],
        after.best == before.best,
        after.previous == before.previous,
        after.settled@ == before.settled@.push(entry.1),
        after.settled@.no_duplicates(),
    ensures
        after.orderly(graph, artists, start),
{
    let n = before.settled@.len() as int;
    let settled = after.settled@;
    let costs = after.costs();
    assert(costs =~= before.costs().push(entry.0 as int));
    assert(settled[n] == entry.1);
    if n == 0 {
        assert(entry.1 == start) by {
            if entry.1 != start {
                assert(before.best@[entry.1 as int] is None);
            }
        }
    } else {
        assert forall|i: int| 1 <= i < settled.len() implies #[trigger] settles_next(
            graph,
            artists,
            settled,
            costs,
            i,
        ) by {
            if i < n {
                assert(settles_next(graph, artists, before.settled@, before.costs(), i));
                assert(settled.take(n) =~= before.settled@);
                assert(costs.take(n) =~= before.costs());
                lemma_settles_alike(graph, artists, before.settled@, before.costs(), settled, costs, i);
            } else {
                lemma_next_is_least(before, graph, artists, start, entry);
            }
        }
    }
    assert forall|v: int|
        0 <= v < graph.len() && v != start && #[trigger] after.knows(v) implies after.found_first(
        graph,
        artists,
        v,
    ) by {
        assert(before.knows(v));
        assert(before.found_first(graph, artists, v));
        let k = choose|k: int|
            0 <= k < before.settled@.len() && before.previous@[v] == Some(
                #[trigger] before.settled@[k],
            ) && before.none_sooner(graph, artists, v as usize, k);
        assert forall|h: int, f: int|
            #![trigger leads(graph, after.settled@[h] as int, f, v as usize)]
            0 <= h < k && leads(graph, after.settled@[h] as int, f, v as usize) implies after.cost(v)
            < after.cost(after.settled@[h] as int) + hop(
            graph,
            artists,
            after.settled@[h] as int,
            f,
        ) by {
            assert(after.settled@[h] == before.settled@[h]);
            assert(leads(graph, before.settled@[h] as int, f, v as usize));
        }
        assert(after.none_sooner(graph, artists, v as usize, k));
        assert(after.settled@[k] == before.settled@[k]);
    }
}

/// Which node is settled next follows from those before it.
proof fn lemma_settles_alike(
    graph: Seq<Vec<(usize, i32)>>,
    artists: Seq<i64>,
    settled: Seq<usize>,
    costs: Seq<int>,
    more: Seq<usize>,
    more_costs: Seq<int>,
    i: int,
)
    requires
        0 <= i < settled.len() <= more.len(),
        costs.len() == settled.len(),
        more_costs.len() == more.len(),
        more.take(settled.len() as int) == settled,
        more_costs.take(settled.len() as int) == costs,
        settles_next(graph, artists, settled, costs, i),
    ensures
        settles_next(graph, artists, more, more_costs, i),
{
    assert forall|h: int| 0 <= h <= i implies #[trigger] more[h] == settled[h] && more_costs[h]
        == costs[h] by {
        assert(more.take(settled.len() as int)[h] == more[h]);
        assert(more_costs.take(settled.len() as int)[h] == more_costs[h]);
    }
    assert(more.take(i) =~= settled.take(i));
    let (h, e) = choose|h: int, e: int|
        0 <= h < i && #[trigger] leads(graph, settled[h] as int, e, settled[i]) && costs[i] == offer(
            graph,
            artists,
            settled,
            costs,
            h,
            e,
        );
    assert(more[h] == settled[h]);
    assert(leads(graph, more[h] as int, e, more[i]));
    assert forall|h: int, e: int, v: usize|
        #![trigger leads(graph, more[h] as int, e, v)]
        0 <= h < i && leads(graph, more[h] as int, e, v) && !more.take(i).contains(v) implies ({
        let c = offer(graph, artists, more, more_costs, h, e);
        more_costs[i] < c || (more_costs[i] == c && more[i] <= v)
    }) by {
        assert(more[h] == settled[h]);
        assert(leads(graph, settled[h] as int, e, v));
    }
}

/// The cheapest entry waiting is the node to settle next.
proof fn lemma_next_is_least(
    search: Search,
    graph: Seq<Vec<(usize, i32)>>,
    artists: Seq<i64>,
    start: usize,
    entry: (i128, usize),
)
    requires
        sound_graph(graph, artists),
        search.holds(graph, artists, start),
        search.all_relaxed(graph, artists, None),
        search.settled@.len() > 0,
        entry.1 < graph.len(),
        forall|other: (i128, usize)| search.queue@.contains(other) ==> no_dearer(entry, other),
        search.knows(entry.1 as int),
        search.cost(entry.1 as int) == entry.0,
        !search.visited@[entry.1 as int],
    ensures
        settles_next(
            graph,
            artists,
            search.settled@.push(entry.1),
            search.costs().push(entry.0 as int),
            search.settled@.len() as int,
        ),
{
    let n = search.settled@.len() as int;
    let settled = search.settled@.push(entry.1);
    let costs = search.costs().push(entry.0 as int);
    assert(settled.take(n) =~= search.settled@);
    assert(search.visited@[start as int]) by {
        assert(search.settled@[0] == start);
        assert(search.settled@.contains(start));
    }
    assert(search.step_accounts(graph, artists, entry.1 as int));
    let u = search.previous@[entry.1 as int]->0;
    assert(search.visited@[u as int]);
    assert(search.settled@.contains(u));
    let g = choose|g: int| 0 <= g < n && search.settled@[g] == u;
    let f = choose|f: int| #[trigger]
        leads(graph, u as int, f, entry.1 as int as usize) && search.cost(entry.1 as int)
            == search.cost(u as int) + hop(graph, artists, u as int, f);
    assert(settled[g] == u);
    assert(leads(graph, settled[g] as int, f, settled[n]));
    assert forall|h: int, e: int, v: usize|
        #![trigger leads(graph, settled[h] as int, e, v)]
        0 <= h < n && leads(graph, settled[h] as int, e, v) && !settled.take(n).contains(v) implies ({
        let c = offer(graph, artists, settled, costs, h, e);
        costs[n] < c || (costs[n] == c && settled[n] <= v)
    }) by {
        let w = settled[h];
        assert(w == search.settled@[h]);
        assert(search.settled@.contains(w));
        assert(search.visited@[w as int]);
        assert(search.relaxed(graph, artists, w as int, graph[w as int]@.len() as int));
        assert(graph[w as int]@[e].0 == v);
        assert(v < graph.len());
        assert(!search.visited@[v as int]);
        assert(search.knows(v as int));
        assert(search.queue@.contains((search.best@[v as int]->0, v as int as usize)));
        assert(no_dearer(entry, (search.best@[v as int]->0, v)));
    }
}

impl Search {
    /// The node to do next, marked as done with: the cheapest one waiting.
    fn advance(&mut self, graph: &Graph, artists: &[i64], start: usize) -> (next: Option<usize>)
        requires
            sound_graph(graph@, artists@),
            old(self).holds(graph@, artists@, start),
            old(self).all_relaxed(graph@, artists@, None),
            old(self).queue@.len() > 0,
            old(self).orderly(graph@, artists@, start),
        ensures
            final(self).holds(graph@, artists@, start),
            final(self).orderly(graph@, artists@, start),
            next is None ==> {
                &&& final(self).settled == old(self).settled
                &&& final(self).visited == old(self).visited
                &&& final(self).queue@.len() < old(self).queue@.len()
                &&& final(self).all_relaxed(graph@, artists@, None)
            },
            next matches Some(node) ==> {
                &&& node < graph@.len()
                &&& final(self).settled@ == old(self).settled@.push(node)
                &&& final(self).visited@ == old(self).visited@.update(node as int, true)
                &&& -((final(self).settled@.len() - 1) * HOP_BOUND) <= final(self).cost(node as int)
                    <= (final(self).settled@.len() - 1) * HOP_BOUND
                &&& final(self).all_relaxed(graph@, artists@, Some(node))
            },
    {
        let ghost before = *self;
        let popped: Option<(i128, usize)> = self.queue.pop();
        let (cost, node): (i128, usize) = match popped {
            Some(entry) => entry,
            None => return None,
        };
        let ghost entry = (cost, node);
        assert(before.queue@.contains(entry));
        if self.visited[node] {
            proof {
                assert forall|v: int|
                    0 <= v < graph@.len() && self.knows(v) && !self.visited@[v] implies self.queue@.contains(
                (#[trigger] self.best@[v]->0, v as usize)) by {
                    assert(before.knows(v));
                    assert(!before.visited@[v]);
                    assert(before.queue@.contains((before.best@[v]->0, v as usize)));
                }
                assert forall|other: (i128, usize)| #[trigger] self.queue@.contains(
                    other,
                ) implies other.1 < graph@.len() && self.knows(other.1 as int) && self.cost(
                    other.1 as int,
                ) <= other.0 by {
                    assert(before.queue@.contains(other));
                }
                assert forall|v: int|
                    0 <= v < graph@.len() && v != start && #[trigger] self.knows(
                        v,
                    ) implies self.step_accounts(graph@, artists@, v) by {
                    assert(before.knows(v));
                    assert(before.step_accounts(graph@, artists@, v));
                }
                assert forall|v: int| 0 <= v < graph@.len() && #[trigger] self.knows(v) implies -(
                self.settled@.len() * HOP_BOUND) <= self.cost(v) <= self.settled@.len()
                    * HOP_BOUND by {
                    assert(before.knows(v));
                }
                assert forall|u: int|
                    0 <= u < graph@.len() && #[trigger] self.visited@[u] implies self.relaxed(
                    graph@,
                    artists@,
                    u,
                    graph@[u]@.len() as int,
                ) by {
                    assert(before.visited@[u]);
                    assert(before.relaxed(graph@, artists@, u, graph@[u]@.len() as int));
                }
                lemma_skipping_keeps_order(before, *self, graph@, artists@, start);
            }
            return None;
        }
        proof {
            // The entry taken is the one its node is waiting under.
            assert(before.knows(node as int));
            assert(!before.visited@[node as int]);
            assert(before.queue@.contains((before.best@[node as int]->0, node as int as usize)));
            assert(no_dearer(entry, (before.best@[node as int]->0, node)));
            assert(before.cost(node as int) == cost);
        }
        self.visited.set(node, true);
        self.settled = Ghost(self.settled@.push(node));
        proof {
            let settled = self.settled@;
            assert(!before.settled@.contains(node));
            assert(settled.no_duplicates());
            assert forall|v: int| 0 <= v < graph@.len() implies (#[trigger] self.visited@[v]
                <==> settled.contains(v as usize)) by {
                if v == node {
                    assert(settled[settled.len() - 1] == node);
                } else {
                    if before.settled@.contains(v as usize) {
                        let i = choose|i: int|
                            0 <= i < before.settled@.len() && before.settled@[i] == v as usize;
                        assert(settled[i] == v as usize);
                    }
                }
            }
            if before.settled@.len() > 0 {
                assert(before.settled@.contains(start)) by {
                    assert(before.settled@[0] == start);
                }
                assert(before.visited@[start as int]);
                assert(node != start);
            }
            assert forall|v: int|
                0 <= v < graph@.len() && self.knows(v) && !self.visited@[v] implies self.queue@.contains(
            (#[trigger] self.best@[v]->0, v as usize)) by {
                assert(before.knows(v));
                assert(!before.visited@[v]);
                assert(before.queue@.contains((before.best@[v]->0, v as usize)));
            }
            assert forall|other: (i128, usize)| #[trigger] self.queue@.contains(
                other,
            ) implies other.1 < graph@.len() && self.knows(other.1 as int) && self.cost(
                other.1 as int,
            ) <= other.0 by {
                assert(before.queue@.contains(other));
            }
            assert forall|v: int|
                0 <= v < graph@.len() && v != start && #[trigger] self.knows(
                    v,
                ) implies self.step_accounts(graph@, artists@, v) by {
                assert(before.knows(v));
                assert(before.step_accounts(graph@, artists@, v));
            }
            assert forall|v: int| 0 <= v < graph@.len() && #[trigger] self.knows(v) implies -(
            self.settled@.len() * HOP_BOUND) <= self.cost(v) <= self.settled@.len()
                * HOP_BOUND by {
                assert(before.knows(v));
            }
            assert forall|i: int| 1 <= i < settled.len() implies exists|h: int|
                0 <= h < i && self.previous@[#[trigger] settled[i] as int] == Some(
                    #[trigger] settled[h],
                ) by {
                if i < before.settled@.len() {
                    assert(settled[i] == before.settled@[i]);
                    let h = choose|h: int|
                        0 <= h < i && before.previous@[before.settled@[i] as int] == Some(
                            #[trigger] before.settled@[h],
                        );
                    assert(settled[h] == before.settled@[h]);
                } else {
                    assert(before.knows(node as int));
                    assert(before.step_accounts(graph@, artists@, node as int));
                    let u = before.previous@[node as int]->0;
                    assert(before.visited@[u as int]);
                    assert(before.settled@.contains(u));
                    let h = choose|h: int|
                        0 <= h < before.settled@.len() && before.settled@[h] == u;
                    assert(settled[h] == u);
                }
            }
            assert forall|u: int|
                0 <= u < graph@.len() && #[trigger] self.visited@[u] && Some(node) != Some(
                    u as usize,
                ) implies self.relaxed(graph@, artists@, u, graph@[u]@.len() as int) by {
                assert(before.visited@[u]);
                assert(before.relaxed(graph@, artists@, u, graph@[u]@.len() as int));
            }
            assert(before.knows(node as int));
            assert forall|v: int| 0 <= v < graph@.len() && #[trigger] self.visited@[v] implies self.knows(
                v,
            ) by {
                if v != node {
                    assert(before.visited@[v]);
                }
            }
            assert(self.shape(graph@));
            assert(settled[0] == start) by {
                if before.settled@.len() == 0 {
                    assert(before.best@[node as int] is Some);
                }
            }
            assert(self.holds(graph@, artists@, start));
            lemma_settling_keeps_order(before, *self, graph@, artists@, start, entry);
        }
        Some(node)
    }
}

/// Spreads out from `start`, cheapest first, until `goal` is reached or there
/// is nowhere left to go.
fn spread(graph: &Graph, artists: &[i64], start: usize, goal: usize) -> (search: Search)
    requires
        sound_graph(graph@, artists@),
        start < graph@.len(),
        goal < graph@.len(),
    ensures
        search.holds(graph@, artists@, start),
        search.orderly(graph@, artists@, start),
        !search.visited@[goal as int] ==> search.queue@.len() == 0 && search.all_relaxed(
            graph@,
            artists@,
            None,
        ),
        search.visited@[goal as int] ==> search.settled@.len() > 0 && search.settled@.last() == goal
            && search.all_relaxed(graph@, artists@, Some(goal)),
{
    let mut search = Search::begin(graph, artists, start);
    let mut waiting: bool = true;
    while waiting && !search.visited[goal]
        invariant
            sound_graph(graph@, artists@),
            start < graph@.len(),
            goal < graph@.len(),
            search.holds(graph@, artists@, start),
            search.orderly(graph@, artists@, start),
            !search.visited@[goal as int] ==> search.all_relaxed(graph@, artists@, None),
            search.visited@[goal as int] ==> search.settled@.len() > 0 && search.settled@.last()
                == goal && search.all_relaxed(graph@, artists@, Some(goal)),
            !waiting ==> search.queue@.len() == 0,
        decreases
                graph@.len() - search.settled@.len(),
                search.queue@.len(),
                (if waiting {
                    1int
                } else {
                    0int
                }),
    {
        if search.queue.is_empty() {
            waiting = false;
            continue;
        }
        let ghost before = search;
        let next: Option<usize> = search.advance(graph, artists, start);
        proof {
            lemma_distinct_below(search.settled@, graph@.len() as int);
        }
        if let Some(node) = next {
            if node != goal {
                let mut e: usize = 0;
                while e < graph[node].len()
                    invariant
                        sound_graph(graph@, artists@),
                        node < graph@.len(),
                        e <= graph@[node as int]@.len(),
                        search.holds(graph@, artists@, start),
                        before.visited@.len() == graph@.len(),
                        search.settled@ == before.settled@.push(node),
                        search.visited@ == before.visited@.update(node as int, true),
                        -((search.settled@.len() - 1) * HOP_BOUND) <= search.cost(node as int) <= (
                        search.settled@.len() - 1) * HOP_BOUND,
                        search.all_relaxed(graph@, artists@, Some(node)),
                        search.relaxed(graph@, artists@, node as int, e as int),
                        search.orderly(graph@, artists@, start),
                    decreases graph@[node as int]@.len() - e,
                {
                    let ghost earlier = search;
                    search.relax(graph, artists, start, node, e);
                    proof {
                        assert(search.best@[node as int] == earlier.best@[node as int]);
                    }
                    e = e + 1;
                }
                proof {
                    assert forall|u: int|
                        0 <= u < graph@.len() && #[trigger] search.visited@[u] implies search.relaxed(
                        graph@,
                        artists@,
                        u,
                        graph@[u]@.len() as int,
                    ) by {
                        if u != node {
                            assert(Some(node) != Some(u as usize));
                        }
                    }
                }
            }
        }
    }
    search
}

/// The way back from a settled node to the start, turned round.
fn trace_back(search: &Search, graph: &Graph, artists: &[i64], start: usize, goal: usize) -> (path:
    Vec<usize>)
    requires
        search.holds(graph@, artists@, start),
        goal < graph@.len(),
        search.visited@[goal as int],
    ensures
        connects(graph@, artists@, path@, start, goal, search.cost(goal as int)),
        path@.no_duplicates(),
        search.traces(path@),
{
    let mut back: Vec<usize> = Vec::new();
    back.push(goal);
    let mut last: usize = goal;
    let ghost mut rest: Seq<usize> = Seq::empty();
    let ghost mut place: int = choose|i: int|
        0 <= i < search.settled@.len() && search.settled@[i] == goal;
    proof {
        assert(search.settled@.contains(goal));
        assert(search.knows(goal as int));
        assert(back@.reverse() =~= seq![last] + rest);
        assert forall|sooner: Seq<usize>|
            sooner.len() > 0 && sooner.last() == last && #[trigger] walks(
                graph@,
                artists@,
                sooner,
                search.cost(last as int),
            ) implies walks(graph@, artists@, sooner + rest, search.cost(goal as int)) by {
            assert(sooner + rest =~= sooner);
        }
    }
    while last != start
        invariant
            search.holds(graph@, artists@, start),
            goal < graph@.len(),
            last < graph@.len(),
            search.knows(last as int),
            0 <= place < search.settled@.len(),
            search.settled@[place] == last,
            back@.len() > 0,
            back@[0] == goal,
            back@.reverse() == seq![last] + rest,
            back@.no_duplicates(),
            forall|a: int|
                0 <= a < back@.len() - 1 ==> search.previous@[#[trigger] back@[a] as int] == Some(
                    back@[a + 1],
                ),
            forall|a: int|
                0 <= a < back@.len() ==> exists|q: int|
                    place <= q < search.settled@.len() && #[trigger] search.settled@[q]
                        == #[trigger] back@[a],
            forall|sooner: Seq<usize>|
                sooner.len() > 0 && sooner.last() == last && #[trigger] walks(
                    graph@,
                    artists@,
                    sooner,
                    search.cost(last as int),
                ) ==> walks(graph@, artists@, sooner + rest, search.cost(goal as int)),
        decreases place,
    {
        let ghost was = last;
        let ghost behind = rest;
        proof {
            if place == 0 {
                assert(search.settled@[0] == start);
                assert(false);
            }
            assert(search.step_accounts(graph@, artists@, last as int));
        }
        let ghost h = choose|h: int|
            0 <= h < place && search.previous@[search.settled@[place] as int] == Some(
                #[trigger] search.settled@[h],
            );
        assert(search.previous@[search.settled@[place] as int] == Some(search.settled@[h]));
        let step: usize = match search.previous[last] {
            Some(u) => u,
            None => start,
        };
        proof {
            assert forall|a: int| 0 <= a < back@.len() implies back@[a] != step by {
                let q = choose|q: int|
                    place <= q < search.settled@.len() && #[trigger] search.settled@[q] == back@[a];
                assert(search.settled@[q] != search.settled@[h]);
            }
        }
        let ghost shorter = back@;
        back.push(step);
        last = step;
        proof {
            assert forall|a: int| 0 <= a < back@.len() implies exists|q: int|
                h <= q < search.settled@.len() && #[trigger] search.settled@[q]
                    == #[trigger] back@[a] by {
                if a < shorter.len() {
                    assert(back@[a] == shorter[a]);
                    let q = choose|q: int|
                        place <= q < search.settled@.len() && #[trigger] search.settled@[q]
                            == shorter[a];
                    assert(search.settled@[q] == back@[a]);
                } else {
                    assert(search.settled@[h] == back@[a]);
                }
            }
            assert(shorter.reverse()[0] == was);
            assert(shorter[shorter.len() - 1] == was);
            assert forall|a: int| 0 <= a < back@.len() - 1 implies search.previous@[#[trigger] back@[a] as int]
                == Some(back@[a + 1]) by {
                assert(back@[a] == shorter[a]);
                if a + 1 < shorter.len() {
                    assert(back@[a + 1] == shorter[a + 1]);
                }
            }
            place = h;
            rest = seq![was] + behind;
            assert(back@.reverse() =~= seq![last] + rest);
            let e = choose|e: int| #[trigger]
                leads(graph@, last as int, e, was) && search.cost(was as int) == search.cost(
                    last as int,
                ) + hop(graph@, artists@, last as int, e);
            assert forall|sooner: Seq<usize>|
                sooner.len() > 0 && sooner.last() == last && #[trigger] walks(
                    graph@,
                    artists@,
                    sooner,
                    search.cost(last as int),
                ) implies walks(graph@, artists@, sooner + rest, search.cost(goal as int)) by {
                let longer = sooner.push(was);
                assert(longer.drop_last() =~= sooner);
                assert(longer[longer.len() - 2] == last);
                assert(leads(graph@, last as int, e, longer.last()));
                assert(walks(graph@, artists@, longer, search.cost(was as int)));
                assert(longer + behind =~= sooner + rest);
            }
        }
    }
    let ghost forward = back@.reverse();
    proof {
        let origin = seq![start];
        assert(walks(graph@, artists@, origin, 0));
        assert(walks(graph@, artists@, origin + rest, search.cost(goal as int)));
        assert(origin + rest =~= forward);
        assert(forward[0] == (seq![last] + rest)[0]);
        assert(forward.last() == back@[0]);
    }
    let mut path: Vec<usize> = Vec::new();
    let mut left: usize = back.len();
    while left > 0
        invariant
            left <= back@.len(),
            path@ == back@.reverse().take(back@.len() - left),
        decreases left,
    {
        left = left - 1;
        path.push(back[left]);
    }
    assert(path@ =~= forward);
    assert forall|a: int, b: int| 0 <= a < path@.len() && 0 <= b < path@.len() && a != b implies path@[a]
        != path@[b] by {
        assert(path@[a] == back@[back@.len() - 1 - a] && path@[b] == back@[back@.len() - 1 - b]);
    }
    assert forall|a: int| 0 <= a < path@.len() implies search.settled@.contains(
        #[trigger] path@[a],
    ) by {
        assert(path@[a] == back@[back@.len() - 1 - a]);
        let q = choose|q: int|
            place <= q < search.settled@.len() && #[trigger] search.settled@[q] == back@[back@.len()
                - 1 - a];
        assert(search.settled@.contains(search.settled@[q]));
    }
    assert forall|a: int| 1 <= a < path@.len() implies search.previous@[#[trigger] path@[a] as int]
        == Some(path@[a - 1]) by {
        let b = back@.len() - 1 - a;
        assert(path@[a] == back@[b] && path@[a - 1] == back@[b + 1]);
    }
    path
}

/// Each node of the way back was come to from the one before it.
proof fn lemma_the_way_back_steps(
    search: Search,
    graph: Seq<Vec<(usize, i32)>>,
    artists: Seq<i64>,
    start: usize,
    path: Seq<usize>,
    p: int,
)
    requires
        search.holds(graph, artists, start),
        search.orderly(graph, artists, start),
        search.traces(path),
        path.no_duplicates(),
        path[0] == start,
        1 <= p < path.len(),
    ensures
        steps(graph, artists, search.settled@, search.costs(), path[p - 1], path[p]),
{
    let v = path[p];
    let settled = search.settled@;
    assert(settled.contains(v));
    let i = choose|i: int| 0 <= i < settled.len() && settled[i] == v;
    assert(settled[i] < graph.len());
    assert(search.visited@[v as int]);
    assert(v != start);
    assert(search.knows(v as int));
    assert(i >= 1) by {
        assert(settled[0] == start);
    }
    let h = choose|h: int|
        0 <= h < i && search.previous@[settled[i] as int] == Some(#[trigger] settled[h]);
    assert(search.previous@[v as int] == Some(path[p - 1]));
    assert(search.found_first(graph, artists, v as int));
    let k = choose|k: int|
        0 <= k < settled.len() && search.previous@[v as int] == Some(
            #[trigger] search.settled@[k],
        ) && search.none_sooner(graph, artists, v as int as usize, k);
    assert(settled[h] == settled[k]);
    assert(h == k);
    assert(search.step_accounts(graph, artists, v as int));
    let e = choose|e: int| #[trigger]
        leads(graph, settled[h] as int, e, v as int as usize) && search.cost(v as int)
            == search.cost(settled[h] as int) + hop(graph, artists, settled[h] as int, e);
    assert(leads(graph, settled[h] as int, e, settled[i]));
    assert forall|g: int, f: int|
        #![trigger leads(graph, settled[g] as int, f, settled[i])]
        0 <= g < h && leads(graph, settled[g] as int, f, settled[i]) implies search.costs()[i]
        < offer(graph, artists, settled, search.costs(), g, f) by {
        assert(leads(graph, search.settled@[g] as int, f, v as int as usize));
    }
    assert(comes_from(graph, artists, settled, search.costs(), i, h));
}

proof fn lemma_unpaid_walk_costs(
    graph: Seq<Vec<(usize, i32)>>,
    artists: Seq<i64>,
    nodes: Seq<usize>,
    c: int,
)
    requires
        walks_unpaid(graph, artists, nodes, c),
    ensures
        c >= 0,
    decreases nodes.len(),
{
    if nodes.len() >= 2 {
        let u = nodes[nodes.len() - 2] as int;
        let e = choose|e: int| #[trigger]
            leads(graph, u, e, nodes.last()) && hop(graph, artists, u, e) >= 0 && walks_unpaid(
                graph,
                artists,
                nodes.drop_last(),
                c - hop(graph, artists, u, e),
            );
        lemma_unpaid_walk_costs(graph, artists, nodes.drop_last(), c - hop(graph, artists, u, e));
    }
}

/// A walk of which no hop pays, to a node that is not among the first `i`
/// settled, costs no less than the next one to be.
pub(crate) proof fn lemma_crossing(
    graph: Seq<Vec<(usize, i32)>>,
    artists: Seq<i64>,
    start: usize,
    settled: Seq<usize>,
    costs: Seq<int>,
    i: int,
    nodes: Seq<usize>,
    c: int,
)
    requires
        settles(graph, artists, start, settled, costs),
        1 <= i < settled.len(),
        walks_unpaid(graph, artists, nodes, c),
        nodes[0] == start,
        !settled.take(i).contains(nodes.last()),
    ensures
        costs[i] <= c,
    decreases nodes.len(),
{
    assert(settled.take(i)[0] == start);
    assert(settled.take(i).contains(start));
    assert(nodes.len() >= 2);
    let last = nodes.last();
    let u = nodes[nodes.len() - 2];
    let e = choose|e: int| #[trigger]
        leads(graph, u as int, e, last) && hop(graph, artists, u as int, e) >= 0 && walks_unpaid(
            graph,
            artists,
            nodes.drop_last(),
            c - hop(graph, artists, u as int, e),
        );
    let sooner = nodes.drop_last();
    let less = c - hop(graph, artists, u as int, e);
    assert(sooner.last() == u);
    if settled.take(i).contains(u) {
        let h = choose|h: int| 0 <= h < settled.take(i).len() && settled.take(i)[h] == u;
        assert(settled[h] == u);
        if h == 0 {
            lemma_unpaid_walk_costs(graph, artists, sooner, less);
        } else {
            assert(!settled.take(h).contains(u)) by {
                if settled.take(h).contains(u) {
                    let g = choose|g: int| 0 <= g < settled.take(h).len() && settled.take(h)[g] == u;
                    assert(settled[g] == settled[h]);
                }
            }
            lemma_crossing(graph, artists, start, settled, costs, h, sooner, less);
        }
        assert(settles_next(graph, artists, settled, costs, i));
        assert(leads(graph, settled[h] as int, e, last));
    } else {
        lemma_crossing(graph, artists, start, settled, costs, i, sooner, less);
    }
}

/// No walk to a settled node undercuts it, unless some hop of it pays.
pub proof fn no_settled_node_is_undercut(
    graph: Seq<Vec<(usize, i32)>>,
    artists: Seq<i64>,
    start: usize,
    settled: Seq<usize>,
    costs: Seq<int>,
    i: int,
)
    requires
        settles(graph, artists, start, settled, costs),
        0 <= i < settled.len(),
    ensures
        none_undercuts(graph, artists, start, settled[i], costs[i]),
{
    assert forall|other: Seq<usize>, c: int| #[trigger]
        walks_unpaid(graph, artists, other, c) && other[0] == start && other.last()
            == settled[i] implies costs[i] <= c by {
        if i == 0 {
            lemma_unpaid_walk_costs(graph, artists, other, c);
        } else {
            assert(!settled.take(i).contains(settled[i])) by {
                if settled.take(i).contains(settled[i]) {
                    let g = choose|g: int|
                        0 <= g < settled.take(i).len() && settled.take(i)[g] == settled[i];
                    assert(settled[g] == settled[i]);
                }
            }
            lemma_crossing(graph, artists, start, settled, costs, i, other, c);
        }
    }
}

pub open spec fn no_hop_pays(graph: Seq<Vec<(usize, i32)>>, artists: Seq<i64>) -> bool {
    forall|u: int, e: int|
        0 <= u < graph.len() && 0 <= e < graph[u]@.len() ==> #[trigger] hop(graph, artists, u, e) >= 0
}

pub(crate) proof fn lemma_nothing_is_paid(
    graph: Seq<Vec<(usize, i32)>>,
    artists: Seq<i64>,
    nodes: Seq<usize>,
    c: int,
)
    requires
        no_hop_pays(graph, artists),
        walks(graph, artists, nodes, c),
    ensures
        walks_unpaid(graph, artists, nodes, c),
    decreases nodes.len(),
{
    if nodes.len() >= 2 {
        let u = nodes[nodes.len() - 2] as int;
        let e = choose|e: int| #[trigger]
            leads(graph, u, e, nodes.last()) && walks(
                graph,
                artists,
                nodes.drop_last(),
                c - hop(graph, artists, u, e),
            );
        lemma_nothing_is_paid(graph, artists, nodes.drop_last(), c - hop(graph, artists, u, e));
        assert(hop(graph, artists, u, e) >= 0);
    }
}

/// Where no hop pays, a route is as cheap as any walk between its ends.
pub proof fn a_route_is_cheapest_where_no_hop_pays(
    graph: Seq<Vec<(usize, i32)>>,
    artists: Seq<i64>,
    nodes: Seq<usize>,
    start: usize,
    goal: usize,
    other: Seq<usize>,
    c: int,
) -> (cost: int)
    requires
        no_hop_pays(graph, artists),
        is_route(graph, artists, nodes, start, goal),
        connects(graph, artists, other, start, goal, c),
    ensures
        connects(graph, artists, nodes, start, goal, cost),
        cost <= c,
{
    let (settled, costs) = choose|settled: Seq<usize>, costs: Seq<int>| #[trigger]
        is_way(graph, artists, nodes, start, goal, settled, costs);
    lemma_nothing_is_paid(graph, artists, other, c);
    costs.last()
}

/// Nodes can be settled in only one order.
proof fn lemma_one_order(
    graph: Seq<Vec<(usize, i32)>>,
    artists: Seq<i64>,
    start: usize,
    settled: Seq<usize>,
    costs: Seq<int>,
    again: Seq<usize>,
    costs_again: Seq<int>,
    i: int,
)
    requires
        settles(graph, artists, start, settled, costs),
        settles(graph, artists, start, again, costs_again),
        0 <= i < settled.len(),
        i < again.len(),
    ensures
        settled[i] == again[i],
        costs[i] == costs_again[i],
    decreases i,
{
    if i > 0 {
        assert forall|h: int| 0 <= h < i implies #[trigger] settled[h] == again[h] && costs[h]
            == costs_again[h] by {
            lemma_one_order(graph, artists, start, settled, costs, again, costs_again, h);
        }
        assert(settled.take(i) =~= again.take(i));
        assert(settles_next(graph, artists, settled, costs, i));
        assert(settles_next(graph, artists, again, costs_again, i));
        lemma_not_sooner(settled, i);
        lemma_not_sooner(again, i);
        let (h, e) = choose|h: int, e: int|
            0 <= h < i && #[trigger] leads(graph, settled[h] as int, e, settled[i]) && costs[i]
                == offer(graph, artists, settled, costs, h, e);
        assert(settled[h] == again[h]);
        assert(leads(graph, again[h] as int, e, settled[i]));
        let (g, f) = choose|g: int, f: int|
            0 <= g < i && #[trigger] leads(graph, again[g] as int, f, again[i]) && costs_again[i]
                == offer(graph, artists, again, costs_again, g, f);
        assert(settled[g] == again[g]);
        assert(leads(graph, settled[g] as int, f, again[i]));
    }
}

proof fn lemma_not_sooner(settled: Seq<usize>, i: int)
    requires
        settled.no_duplicates(),
        0 <= i < settled.len(),
    ensures
        !settled.take(i).contains(settled[i]),
{
    if settled.take(i).contains(settled[i]) {
        let g = choose|g: int| 0 <= g < settled.take(i).len() && settled.take(i)[g] == settled[i];
        assert(settled[g] == settled[i]);
    }
}

/// A node was come to from only one place.
proof fn lemma_one_step(
    graph: Seq<Vec<(usize, i32)>>,
    artists: Seq<i64>,
    settled: Seq<usize>,
    costs: Seq<int>,
    from: usize,
    other: usize,
    to: usize,
)
    requires
        settled.no_duplicates(),
        steps(graph, artists, settled, costs, from, to),
        steps(graph, artists, settled, costs, other, to),
    ensures
        from == other,
{
    let (i, h) = choose|i: int, h: int| #[trigger]
        comes_from(graph, artists, settled, costs, i, h) && settled[i] == to && settled[h] == from;
    let (j, g) = choose|j: int, g: int| #[trigger]
        comes_from(graph, artists, settled, costs, j, g) && settled[j] == to && settled[g]
            == other;
    assert(i == j);
    let e = choose|e: int| #[trigger]
        leads(graph, settled[h] as int, e, settled[i]) && costs[i] == offer(
            graph,
            artists,
            settled,
            costs,
            h,
            e,
        );
    let f = choose|f: int| #[trigger]
        leads(graph, settled[g] as int, f, settled[j]) && costs[j] == offer(
            graph,
            artists,
            settled,
            costs,
            g,
            f,
        );
    assert(leads(graph, settled[g] as int, f, settled[i]));
    assert(leads(graph, settled[h] as int, e, settled[j]));
}

/// Two ways back from the same node are the same way.
proof fn lemma_one_way(
    graph: Seq<Vec<(usize, i32)>>,
    artists: Seq<i64>,
    start: usize,
    settled: Seq<usize>,
    costs: Seq<int>,
    nodes: Seq<usize>,
    other: Seq<usize>,
)
    requires
        settles(graph, artists, start, settled, costs),
        nodes.len() > 0,
        other.len() > 0,
        nodes[0] == start,
        other[0] == start,
        nodes.last() == other.last(),
        forall|p: int|
            1 <= p < nodes.len() ==> steps(
                graph,
                artists,
                settled,
                costs,
                nodes[p - 1],
                #[trigger] nodes[p],
            ),
        forall|p: int|
            1 <= p < other.len() ==> steps(
                graph,
                artists,
                settled,
                costs,
                other[p - 1],
                #[trigger] other[p],
            ),
    ensures
        nodes == other,
    decreases nodes.len(),
{
    let n = nodes.len() - 1;
    let m = other.len() - 1;
    if n > 0 {
        lemma_nothing_before_the_start(graph, artists, start, settled, costs, nodes[n - 1], nodes[n]);
    }
    if m > 0 {
        lemma_nothing_before_the_start(graph, artists, start, settled, costs, other[m - 1], other[m]);
    }
    if n == 0 || m == 0 {
        assert(nodes =~= other);
    } else {
        lemma_one_step(graph, artists, settled, costs, nodes[n - 1], other[m - 1], nodes[n]);
        let shorter = nodes.drop_last();
        let other_shorter = other.drop_last();
        assert forall|p: int| 1 <= p < shorter.len() implies steps(
            graph,
            artists,
            settled,
            costs,
            shorter[p - 1],
            #[trigger] shorter[p],
        ) by {
            assert(shorter[p] == nodes[p]);
        }
        assert forall|p: int| 1 <= p < other_shorter.len() implies steps(
            graph,
            artists,
            settled,
            costs,
            other_shorter[p - 1],
            #[trigger] other_shorter[p],
        ) by {
            assert(other_shorter[p] == other[p]);
        }
        lemma_one_way(graph, artists, start, settled, costs, shorter, other_shorter);
        assert(nodes =~= shorter.push(nodes.last()));
        assert(other =~= other_shorter.push(other.last()));
    }
}

proof fn lemma_nothing_before_the_start(
    graph: Seq<Vec<(usize, i32)>>,
    artists: Seq<i64>,
    start: usize,
    settled: Seq<usize>,
    costs: Seq<int>,
    from: usize,
    to: usize,
)
    requires
        settles(graph, artists, start, settled, costs),
        steps(graph, artists, settled, costs, from, to),
    ensures
        to != start,
{
    let (i, h) = choose|i: int, h: int| #[trigger]
        comes_from(graph, artists, settled, costs, i, h) && settled[i] == to && settled[h] == from;
    assert(settled[0] == start);
}

/// There is only one route between two nodes, whatever its hops cost: the route
/// does not depend on how it is found.
pub proof fn a_route_is_the_only_one(
    graph: Seq<Vec<(usize, i32)>>,
    artists: Seq<i64>,
    start: usize,
    goal: usize,
    nodes: Seq<usize>,
    other: Seq<usize>,
)
    requires
        is_route(graph, artists, nodes, start, goal),
        is_route(graph, artists, other, start, goal),
    ensures
        nodes == other,
{
    let (settled, costs) = choose|settled: Seq<usize>, costs: Seq<int>| #[trigger]
        is_way(graph, artists, nodes, start, goal, settled, costs);
    let (again, costs_again) = choose|again: Seq<usize>, costs_again: Seq<int>| #[trigger]
        is_way(graph, artists, other, start, goal, again, costs_again);
    let n = settled.len() - 1;
    let m = again.len() - 1;
    assert forall|i: int| 0 <= i <= n && i <= m implies #[trigger] settled[i] == again[i] && costs[i]
        == costs_again[i] by {
        lemma_one_order(graph, artists, start, settled, costs, again, costs_again, i);
    }
    assert(n == m) by {
        if n < m {
            assert(again[n] == settled[n]);
            assert(again[n] == again[m]);
        }
        if m < n {
            assert(settled[m] == again[m]);
            assert(settled[m] == settled[n]);
        }
    }
    assert(settled =~= again);
    assert(costs =~= costs_again) by {
        assert forall|i: int| 0 <= i < costs.len() implies costs[i] == costs_again[i] by {
            assert(settled[i] == again[i]);
        }
    }
    lemma_one_way(graph, artists, start, settled, costs, nodes, other);
}

/// The route from `start` to `goal` by Dijkstra's method, or nothing where none
/// leads there.
///
/// Nodes are settled cheapest first, and the lower number first where several
/// are as cheap; each is come to from the first settled node that leads to it at
/// that cost. Where a hop pays, a walk along it may be cheaper than the route.
pub fn cheapest_route(graph: &Graph, artists: &[i64], start: usize, goal: usize) -> (route: Option<
    Vec<usize>,
>)
    requires
        sound_graph(graph@, artists@),
        start < graph@.len(),
        goal < graph@.len(),
    ensures
        route is Some <==> exists|nodes: Seq<usize>, cost: int| #[trigger]
            connects(graph@, artists@, nodes, start, goal, cost),
        route matches Some(path) ==> is_route(graph@, artists@, path@, start, goal)
            && path@.no_duplicates(),
{
    let search = spread(graph, artists, start, goal);
    if !search.visited[goal] {
        proof {
            assert forall|nodes: Seq<usize>, cost: int| !#[trigger] connects(
                graph@,
                artists@,
                nodes,
                start,
                goal,
                cost,
            ) by {
                if connects(graph@, artists@, nodes, start, goal, cost) {
                    lemma_nothing_beyond(search, graph@, artists@, start, nodes, cost);
                }
            }
        }
        return None;
    }
    let path = trace_back(&search, graph, artists, start, goal);
    let ghost total = search.cost(goal as int);
    proof {
        let settled = search.settled@;
        let costs = search.costs();
        assert(settled[settled.len() - 1] == goal);
        assert(costs[costs.len() - 1] == total);
        assert forall|p: int| 1 <= p < path@.len() implies steps(
            graph@,
            artists@,
            settled,
            costs,
            path@[p - 1],
            #[trigger] path@[p],
        ) by {
            lemma_the_way_back_steps(search, graph@, artists@, start, path@, p);
        }
        no_settled_node_is_undercut(graph@, artists@, start, settled, costs, settled.len() - 1);
        assert(is_way(graph@, artists@, path@, start, goal, settled, costs));
        assert(is_route(graph@, artists@, path@, start, goal));
    }
    Some(path)
}

} // verus!
