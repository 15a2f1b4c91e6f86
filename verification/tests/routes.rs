use cvrp::geometry::{compute_distance_matrix, Customer, DistanceMatrix};
use cvrp::route::{route_cost, Route};
use cvrp::solution::total_cost;
use cvrp::two_opt::{reverse_segment, two_opt};

fn square() -> (Vec<Customer>, DistanceMatrix) {
    let customers = vec![
        Customer { id: 0, x: 0, y: 0, demand: 0 },
        Customer { id: 1, x: 10, y: 0, demand: 1 },
        Customer { id: 2, x: 10, y: 10, demand: 2 },
        Customer { id: 3, x: 0, y: 10, demand: 3 },
    ];
    let dist = compute_distance_matrix(&customers);
    (customers, dist)
}

#[test]
fn route_cost_sums_the_legs() {
    let (_, dist) = square();
    assert_eq!(route_cost(&[0, 1, 2, 3, 0], &dist), 40);
    assert_eq!(route_cost(&[0, 1, 3, 2, 0], &dist), 48);
    assert_eq!(route_cost(&[0, 2, 0], &dist), 28);
}

#[test]
fn route_cost_of_short_routes_is_zero() {
    let (_, dist) = square();
    assert_eq!(route_cost(&[], &dist), 0);
    assert_eq!(route_cost(&[0], &dist), 0);
    assert_eq!(route_cost(&[0, 0], &dist), 0);
}

#[test]
fn route_cost_is_the_same_in_both_directions() {
    let customers: Vec<Customer> = (0..7)
        .map(|k| Customer { id: k, x: (k as i32 * 31) % 17, y: (k as i32 * 11) % 13, demand: 1 })
        .collect();
    let dist = compute_distance_matrix(&customers);
    let there = vec![0, 4, 2, 6, 1, 5, 3, 0];
    let mut back = there.clone();
    back.reverse();
    assert_eq!(route_cost(&there, &dist), route_cost(&back, &dist));
    assert_eq!(route_cost(&[0, 1, 2, 3, 0], &dist), route_cost(&[0, 3, 2, 1, 0], &dist));
}

#[test]
fn total_cost_sums_the_routes() {
    let routes = vec![
        Route { customers: vec![0, 1, 0], load: 1, cost: 20 },
        Route { customers: vec![0, 2, 3, 0], load: 5, cost: 34 },
        Route { customers: vec![0, 0], load: 0, cost: 0 },
    ];
    assert_eq!(total_cost(&routes), 54);
    assert_eq!(total_cost(&[]), 0);
}

#[test]
fn reverse_segment_turns_the_part_around() {
    let path = vec![0, 1, 2, 3, 4, 0];
    assert_eq!(reverse_segment(&path, 1, 4), vec![0, 4, 3, 2, 1, 0]);
    assert_eq!(reverse_segment(&path, 2, 3), vec![0, 1, 3, 2, 4, 0]);
    assert_eq!(reverse_segment(&path, 3, 3), path);
    assert_eq!(reverse_segment(&path, 0, 5), vec![0, 4, 3, 2, 1, 0]);
}

#[test]
fn two_opt_removes_a_crossing() {
    let (_, dist) = square();
    let mut route = Route { customers: vec![0, 1, 3, 2, 0], load: 6, cost: 48 };
    two_opt(&mut route, &dist);
    assert_eq!(route.customers, vec![0, 1, 2, 3, 0]);
    assert_eq!(route.cost, 40);
    assert_eq!(route.load, 6);
}

#[test]
fn two_opt_takes_the_first_improvement() {
    // on a line, 0 at the origin: [0, 3, 1, 2, 0] costs 30 + 20 + 10 + 20 = 80;
    // the first pair (1, 2) gives [0, 1, 3, 2, 0] = 10 + 20 + 10 + 20 = 60 and is kept,
    // then (1, 3) on that gives [0, 2, 3, 1, 0] = 20 + 10 + 20 + 10 = 60, no gain,
    // then (2, 3) gives [0, 1, 2, 3, 0] = 10 + 10 + 10 + 30 = 60, no gain.
    let customers = vec![
        Customer { id: 0, x: 0, y: 0, demand: 0 },
        Customer { id: 1, x: 10, y: 0, demand: 1 },
        Customer { id: 2, x: 20, y: 0, demand: 1 },
        Customer { id: 3, x: 30, y: 0, demand: 1 },
    ];
    let dist = compute_distance_matrix(&customers);
    let mut route = Route { customers: vec![0, 3, 1, 2, 0], load: 3, cost: 80 };
    two_opt(&mut route, &dist);
    assert_eq!(route.customers, vec![0, 1, 3, 2, 0]);
    assert_eq!(route.cost, 60);
}

#[test]
fn two_opt_leaves_a_local_optimum_alone() {
    let (_, dist) = square();
    let mut route = Route { customers: vec![0, 1, 3, 2, 0], load: 6, cost: 48 };
    two_opt(&mut route, &dist);
    let once = route.clone();
    two_opt(&mut route, &dist);
    assert_eq!(route.customers, once.customers);
    assert_eq!(route.cost, once.cost);
    assert_eq!(route.load, once.load);
}

#[test]
fn two_opt_leaves_short_routes_alone() {
    let (_, dist) = square();
    let mut idle = Route { customers: vec![0, 0], load: 0, cost: 0 };
    two_opt(&mut idle, &dist);
    assert_eq!(idle.customers, vec![0, 0]);
    assert_eq!(idle.cost, 0);
    let mut single = Route { customers: vec![0, 2, 0], load: 2, cost: 28 };
    two_opt(&mut single, &dist);
    assert_eq!(single.customers, vec![0, 2, 0]);
    assert_eq!(single.cost, 28);
    let mut pair = Route { customers: vec![0, 3, 1, 0], load: 4, cost: 34 };
    two_opt(&mut pair, &dist);
    assert_eq!(pair.customers, vec![0, 3, 1, 0]);
    assert_eq!(pair.cost, 34);
}

#[test]
fn two_opt_keeps_the_customers_and_never_costs_more() {
    let customers: Vec<Customer> = (0..9)
        .map(|k| Customer { id: k, x: (k as i32 * 29) % 31, y: (k as i32 * 17) % 23, demand: 1 })
        .collect();
    let dist = compute_distance_matrix(&customers);
    let stops = vec![0, 5, 2, 8, 1, 7, 3, 6, 4, 0];
    let cost = route_cost(&stops, &dist);
    let mut route = Route { customers: stops.clone(), load: 8, cost };
    two_opt(&mut route, &dist);
    assert!(route.cost <= cost);
    assert_eq!(route.cost, route_cost(&route.customers, &dist));
    let mut seen = route.customers.clone();
    seen.sort();
    assert_eq!(seen, vec![0, 0, 1, 2, 3, 4, 5, 6, 7, 8]);
    assert_eq!(route.customers[0], 0);
    assert_eq!(route.customers[9], 0);
    // no reversal of a part between the ends is shorter
    for i in 1..8 {
        for j in i + 1..9 {
            let turned = reverse_segment(&route.customers, i, j);
            assert!(route_cost(&turned, &dist) >= route.cost);
        }
    }
}
