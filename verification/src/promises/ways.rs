//! Which of several ways that come to the same is taken.

use crate::promises::navigation::{comes_to, hops, lemma_what_comes_to_walks};
use crate::route::{
    comes_from, hop, is_route, is_way, leads, lemma_crossing, lemma_nothing_is_paid, no_hop_pays,
    no_settled_node_is_undercut, offer, settles, settles_next, steps, walks_unpaid,
};
use vstd::prelude::*;

verus! {

/// Every edge has a length.
pub open spec fn is_apart(graph: Seq<Vec<(usize, i32)>>) -> bool {
    forall|u: int, e: int|
        #![trigger graph[u]@[e]]
        0 <= u < graph.len() && 0 <= e < graph[u]@.len() ==> graph[u]@[e].1 > 0
}

/// Whatever else gets to the `p`th node for as little comes by a node that takes
/// more to get to than the one before it here, or as much and has a higher row,
/// or is that node.
pub open spec fn comes_by_the_nearest(
    graph: Seq<Vec<(usize, i32)>>,
    artists: Seq<i64>,
    nodes: Seq<usize>,
    paid: Seq<int>,
    p: int,
) -> bool {
    forall|others: Seq<usize>, taken: Seq<int>, spent: Seq<int>| #[trigger]
        comes_to(graph, artists, others, taken, spent) && others.len() >= 2 && others[0] == nodes[0]
            && others.last() == nodes[p] && spent.last() == paid[p] ==> {
            let by = others[others.len() - 2];
            let until = spent[others.len() - 2];
            paid[p - 1] < until || (paid[p - 1] == until && nodes[p - 1] <= by)
        }
}

proof fn lemma_hop_has_length(graph: Seq<Vec<(usize, i32)>>, artists: Seq<i64>, u: int, e: int)
    requires
        is_apart(graph),
        0 <= u < graph.len(),
        0 <= e < graph[u]@.len(),
    ensures
        hop(graph, artists, u, e) > 0,
{
    assert(graph[u]@[e].1 > 0);
}

/// What is settled sooner takes less to get to, or as much and has a lower row.
proof fn lemma_settled_in_order(
    graph: Seq<Vec<(usize, i32)>>,
    artists: Seq<i64>,
    start: usize,
    settled: Seq<usize>,
    costs: Seq<int>,
    h: int,
    g: int,
)
    requires
        is_apart(graph),
        settles(graph, artists, start, settled, costs),
        0 <= h < g < settled.len(),
    ensures
        costs[h] < costs[g] || (costs[h] == costs[g] && settled[h] < settled[g]),
    decreases g,
{
    assert(settles_next(graph, artists, settled, costs, g));
    let (k, e) = choose|k: int, e: int|
        0 <= k < g && #[trigger] leads(graph, settled[k] as int, e, settled[g]) && costs[g] == offer(
            graph,
            artists,
            settled,
            costs,
            k,
            e,
        );
    lemma_hop_has_length(graph, artists, settled[k] as int, e);
    assert(costs[k] < costs[g]);
    if k > h {
        lemma_settled_in_order(graph, artists, start, settled, costs, h, k);
    } else if k < h {
        assert(settles_next(graph, artists, settled, costs, h));
        assert(!settled.take(h).contains(settled[g])) by {
            if settled.take(h).contains(settled[g]) {
                let x = choose|x: int| 0 <= x < settled.take(h).len() && settled.take(h)[x] == settled[g];
                assert(settled[x] == settled[g]);
            }
        }
        assert(leads(graph, settled[k] as int, e, settled[g]));
        assert(settled[h] != settled[g]);
    }
}

proof fn lemma_the_nearest_is_come_by(
    graph: Seq<Vec<(usize, i32)>>,
    artists: Seq<i64>,
    start: usize,
    settled: Seq<usize>,
    costs: Seq<int>,
    i: int,
    h: int,
    others: Seq<usize>,
    taken: Seq<int>,
    spent: Seq<int>,
)
    requires
        is_apart(graph),
        settles(graph, artists, start, settled, costs),
        comes_from(graph, artists, settled, costs, i, h),
        comes_to(graph, artists, others, taken, spent),
        others.len() >= 2,
        others[0] == start,
        others.last() == settled[i],
        spent.last() == costs[i],
    ensures
        ({
            let by = others[others.len() - 2];
            let until = spent[others.len() - 2];
            costs[h] < until || (costs[h] == until && settled[h] <= by)
        }),
{
    let n = others.len() - 2;
    let by = others[n];
    let until = spent[n];
    let e = taken[n];
    let sooner = others.drop_last();
    let less = taken.drop_last();
    let so_far = spent.drop_last();
    assert(hops(graph, artists, others, taken, spent, n));
    assert(leads(graph, by as int, e, settled[i]));
    assert(costs[i] == until + hop(graph, artists, by as int, e));
    lemma_hop_has_length(graph, artists, by as int, e);
    assert(comes_to(graph, artists, sooner, less, so_far)) by {
        assert forall|p: int| 0 <= p < less.len() implies #[trigger] hops(
            graph,
            artists,
            sooner,
            less,
            so_far,
            p,
        ) by {
            assert(hops(graph, artists, others, taken, spent, p));
            assert(less[p] == taken[p] && sooner[p] == others[p] && sooner[p + 1] == others[p + 1]);
        }
    }
    lemma_what_comes_to_walks(graph, artists, sooner, less, so_far);
    assert(no_hop_pays(graph, artists)) by {
        assert forall|u: int, x: int|
            0 <= u < graph.len() && 0 <= x < graph[u]@.len() implies #[trigger] hop(
            graph,
            artists,
            u,
            x,
        ) >= 0 by {
            lemma_hop_has_length(graph, artists, u, x);
        }
    }
    assert(so_far.last() == until);
    assert(sooner.last() == by);
    assert(sooner[0] == start);
    lemma_nothing_is_paid(graph, artists, sooner, until);
    if !settled.take(i).contains(by) {
        lemma_crossing(graph, artists, start, settled, costs, i, sooner, until);
        assert(false);
    }
    let g = choose|g: int| 0 <= g < settled.take(i).len() && settled.take(i)[g] == by;
    assert(settled[g] == by);
    no_settled_node_is_undercut(graph, artists, start, settled, costs, g);
    assert(walks_unpaid(graph, artists, sooner, until));
    assert(costs[g] <= until);
    assert(settles_next(graph, artists, settled, costs, i));
    assert(!settled.take(i).contains(settled[i])) by {
        if settled.take(i).contains(settled[i]) {
            let x = choose|x: int| 0 <= x < settled.take(i).len() && settled.take(i)[x] == settled[i];
            assert(settled[x] == settled[i]);
        }
    }
    assert(leads(graph, settled[g] as int, e, settled[i]));
    assert(costs[i] <= offer(graph, artists, settled, costs, g, e));
    assert(costs[g] == until);
    if g < h {
        assert(costs[i] < offer(graph, artists, settled, costs, g, e));
    } else if g > h {
        lemma_settled_in_order(graph, artists, start, settled, costs, h, g);
    }
}

/// Of several ways to a node that come to the same, a route takes the one by the
/// node that takes the least to get to, and of those the one of the lowest row;
/// so it is at every node along it.
pub proof fn a_route_comes_by_the_nearest(
    graph: Seq<Vec<(usize, i32)>>,
    artists: Seq<i64>,
    nodes: Seq<usize>,
    start: usize,
    goal: usize,
) -> (found: (Seq<int>, Seq<int>))
    requires
        is_route(graph, artists, nodes, start, goal),
        is_apart(graph),
    ensures
        comes_to(graph, artists, nodes, found.0, found.1),
        nodes[0] == start,
        nodes.last() == goal,
        forall|p: int|
            1 <= p < nodes.len() ==> #[trigger] comes_by_the_nearest(
                graph,
                artists,
                nodes,
                found.1,
                p,
            ),
{
    let (settled, costs) = choose|settled: Seq<usize>, costs: Seq<int>| #[trigger]
        is_way(graph, artists, nodes, start, goal, settled, costs);
    let paid = Seq::new(nodes.len(), |p: int| costs[settled.index_of(nodes[p])]);
    let taken = Seq::new(
        (nodes.len() - 1) as nat,
        |p: int|
            choose|e: int| #[trigger]
                leads(graph, nodes[p] as int, e, nodes[p + 1]) && paid[p + 1] == paid[p] + hop(
                    graph,
                    artists,
                    nodes[p] as int,
                    e,
                ),
    );
    assert(settled[0] == nodes[0]);
    assert(settled.contains(nodes[0]));
    assert(settled.index_of(nodes[0]) == 0);
    assert forall|p: int| 0 <= p < taken.len() implies #[trigger] hops(
        graph,
        artists,
        nodes,
        taken,
        paid,
        p,
    ) by {
        assert(steps(graph, artists, settled, costs, nodes[p], nodes[p + 1])) by {
            let q = p + 1;
            assert(steps(graph, artists, settled, costs, nodes[q - 1], nodes[q]));
        }
        let (i, h) = choose|i: int, h: int| #[trigger]
            comes_from(graph, artists, settled, costs, i, h) && settled[i] == nodes[p + 1]
                && settled[h] == nodes[p];
        lemma_index(settled, i);
        lemma_index(settled, h);
        let e = choose|e: int| #[trigger]
            leads(graph, settled[h] as int, e, settled[i]) && costs[i] == offer(
                graph,
                artists,
                settled,
                costs,
                h,
                e,
            );
        assert(leads(graph, nodes[p] as int, e, nodes[p + 1]));
        let t = taken[p];
        assert(leads(graph, nodes[p] as int, t, nodes[p + 1]) && paid[p + 1] == paid[p] + hop(
            graph,
            artists,
            nodes[p] as int,
            t,
        ));
    }
    assert forall|p: int| 1 <= p < nodes.len() implies #[trigger] comes_by_the_nearest(
        graph,
        artists,
        nodes,
        paid,
        p,
    ) by {
        assert(steps(graph, artists, settled, costs, nodes[p - 1], nodes[p]));
        let (i, h) = choose|i: int, h: int| #[trigger]
            comes_from(graph, artists, settled, costs, i, h) && settled[i] == nodes[p] && settled[h]
                == nodes[p - 1];
        lemma_index(settled, i);
        lemma_index(settled, h);
        assert forall|others: Seq<usize>, by_edges: Seq<int>, spent: Seq<int>| #[trigger]
            comes_to(graph, artists, others, by_edges, spent) && others.len() >= 2 && others[0]
                == nodes[0] && others.last() == nodes[p] && spent.last() == paid[p] implies {
            let by = others[others.len() - 2];
            let until = spent[others.len() - 2];
            paid[p - 1] < until || (paid[p - 1] == until && nodes[p - 1] <= by)
        } by {
            lemma_the_nearest_is_come_by(
                graph,
                artists,
                start,
                settled,
                costs,
                i,
                h,
                others,
                by_edges,
                spent,
            );
        }
    }
    (taken, paid)
}

proof fn lemma_index(settled: Seq<usize>, i: int)
    requires
        settled.no_duplicates(),
        0 <= i < settled.len(),
    ensures
        settled.index_of(settled[i]) == i,
{
    assert(settled.contains(settled[i]));
}

} // verus!
