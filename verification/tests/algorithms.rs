use two_khz::frontier::Frontier;
use two_khz::ordering::{foremost, stable_order};
use two_khz::route::cheapest_route;
use two_khz::space::Score;
use two_khz::tour::tour;

#[test]
fn a_frontier_gives_back_the_least_first() {
    let mut queue = Frontier::new();
    for entry in [(5, 1), (2, 9), (7, 0), (2, 3)] {
        queue.push(entry);
    }
    let mut out = Vec::new();
    while let Some(entry) = queue.pop() {
        out.push(entry);
    }
    assert_eq!(out, [(2, 3), (2, 9), (5, 1), (7, 0)]);
    assert!(queue.is_empty());
}

#[test]
fn an_order_is_stable() {
    let keys = [Score::At(1), Score::At(3), Score::At(1), Score::At(3)];
    assert_eq!(stable_order(&keys), [1, 3, 0, 2]);
    assert_eq!(foremost(&keys, 3), [1, 3, 0]);
}

#[test]
fn a_tour_starts_where_it_stands_and_visits_all() {
    // Points on a line, out of order.
    let at = [0_i32, 30, 10, 20];
    let distances: Vec<Vec<i32>> =
        at.iter().map(|a| at.iter().map(|b| (a - b).abs() * 1_000_000).collect()).collect();
    assert_eq!(tour(&distances), [0, 2, 3, 1]);
}

#[test]
fn a_route_takes_the_cheaper_way_round() {
    let graph = vec![
        vec![(1, 100), (2, 10)],
        vec![(3, 100)],
        vec![(3, 10)],
        vec![],
    ];
    assert_eq!(cheapest_route(&graph, &[1, 2, 3, 4], 0, 3), Some(vec![0, 2, 3]));
    assert_eq!(cheapest_route(&graph, &[1, 2, 3, 4], 3, 0), None);
    assert_eq!(cheapest_route(&graph, &[1, 2, 3, 4], 2, 2), Some(vec![2]));
}

#[test]
fn of_equally_cheap_routes_the_first_is_taken() {
    let artists = [1, 2, 3, 4, 5];
    // Every way round comes to thirty; the middle one is cheapest half way.
    let graph = vec![
        vec![(3, 20), (1, 20), (2, 10)],
        vec![(4, 10)],
        vec![(4, 20)],
        vec![(4, 10)],
        vec![],
    ];
    assert_eq!(cheapest_route(&graph, &artists, 0, 4), Some(vec![0, 2, 4]));
    // Without it two are left that cost the same half way too.
    let graph = vec![vec![(3, 20), (1, 20)], vec![(4, 10)], vec![], vec![(4, 10)], vec![]];
    assert_eq!(cheapest_route(&graph, &artists, 0, 4), Some(vec![0, 1, 4]));
}

#[test]
fn of_hops_that_cost_nothing_the_lower_number_leads() {
    let artists = [1, 2, 3, 4];
    let graph = vec![vec![(2, 0), (1, 0)], vec![(3, 10)], vec![(3, 10)], vec![]];
    assert_eq!(cheapest_route(&graph, &artists, 0, 3), Some(vec![0, 1, 3]));
}

#[test]
fn a_node_once_settled_stays_settled_where_a_hop_pays() {
    let artists = [1, 2, 3, 4];
    // By way of the third node the second costs five; it was settled at ten.
    let graph = vec![vec![(1, 10), (2, 20)], vec![(3, 30)], vec![(1, -15)], vec![]];
    assert_eq!(cheapest_route(&graph, &artists, 0, 3), Some(vec![0, 1, 3]));
}
