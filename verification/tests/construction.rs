use cvrp::construct::{initial, initial_sweep, initial_with_offset, insert_in_order, pad_routes};
use cvrp::geometry::{compute_distance_matrix, Customer, DistanceMatrix};
use cvrp::insertion::{find_slot, place_customer};
use cvrp::instance::InstanceError;
use cvrp::order::{demand_order, rotate};
use cvrp::route::{route_cost, Route};

fn customer(id: usize, x: i32, y: i32, demand: usize) -> Customer {
    Customer { id, x, y, demand }
}

/// Three customers round a depot at the origin, with demands 10, 15 and 5.
fn triangle() -> (Vec<Customer>, DistanceMatrix) {
    let customers =
        vec![customer(0, 0, 0, 0), customer(1, 3, 4, 10), customer(2, -3, 4, 15), customer(3, 0, -5, 5)];
    let dist = compute_distance_matrix(&customers);
    (customers, dist)
}

/// Customer 3 sits next to customer 2, far from customer 1.
fn corner(demands: [usize; 3]) -> (Vec<Customer>, DistanceMatrix) {
    let customers = vec![
        customer(0, 0, 0, 0),
        customer(1, 10, 0, demands[0]),
        customer(2, 0, 10, demands[1]),
        customer(3, 0, 11, demands[2]),
    ];
    let dist = compute_distance_matrix(&customers);
    (customers, dist)
}

fn stops(routes: &[Route]) -> Vec<Vec<usize>> {
    routes.iter().map(|r| r.customers.clone()).collect()
}

fn assert_solves(routes: &[Route], customers: &[Customer], dist: &DistanceMatrix, capacity: usize) {
    let mut seen = vec![0usize; customers.len()];
    for route in routes {
        let len = route.customers.len();
        assert!(len >= 2);
        assert_eq!(route.customers[0], 0);
        assert_eq!(route.customers[len - 1], 0);
        let mut load = 0;
        for &c in &route.customers[1..len - 1] {
            assert!(c >= 1 && c < customers.len());
            seen[c] += 1;
            load += customers[c].demand;
        }
        assert_eq!(route.load, load);
        assert!(route.load <= capacity);
        assert_eq!(route.cost, route_cost(&route.customers, dist));
    }
    for c in 1..customers.len() {
        assert_eq!(seen[c], 1, "customer {} is served {} times", c, seen[c]);
    }
}

#[test]
fn demand_order_is_heaviest_first() {
    let (customers, _) = triangle();
    assert_eq!(demand_order(&customers), vec![2, 1, 3]);
}

#[test]
fn demand_order_keeps_ids_in_order_among_equal_demands() {
    let customers = vec![
        customer(0, 0, 0, 99),
        customer(1, 1, 0, 4),
        customer(2, 2, 0, 7),
        customer(3, 3, 0, 4),
        customer(4, 4, 0, 7),
        customer(5, 5, 0, 0),
        customer(6, 6, 0, 4),
    ];
    assert_eq!(demand_order(&customers), vec![2, 4, 1, 3, 6, 5]);
}

#[test]
fn demand_order_of_the_depot_alone_is_empty() {
    assert_eq!(demand_order(&[customer(0, 0, 0, 0)]), Vec::<usize>::new());
}

#[test]
fn rotate_turns_left() {
    let order = vec![5, 6, 7, 8];
    assert_eq!(rotate(&order, 0), vec![5, 6, 7, 8]);
    assert_eq!(rotate(&order, 1), vec![6, 7, 8, 5]);
    assert_eq!(rotate(&order, 3), vec![8, 5, 6, 7]);
    assert_eq!(rotate(&order, 4), vec![5, 6, 7, 8]);
    assert_eq!(rotate(&Vec::new(), 0), Vec::<usize>::new());
}

#[test]
fn find_slot_finds_nothing_among_no_routes() {
    let (customers, dist) = triangle();
    assert_eq!(find_slot(&Vec::new(), 1, &customers, &dist, 20), None);
}

#[test]
fn find_slot_finds_nothing_where_no_route_can_carry_the_customer() {
    let (customers, dist) = triangle();
    let routes = vec![Route { customers: vec![0, 2, 0], load: 15, cost: 10 }];
    assert_eq!(find_slot(&routes, 1, &customers, &dist, 20), None);
    assert_eq!(find_slot(&routes, 3, &customers, &dist, 19), None);
}

#[test]
fn find_slot_takes_the_first_of_equal_places() {
    let (customers, dist) = triangle();
    let routes = vec![
        Route { customers: vec![0, 2, 0], load: 15, cost: 10 },
        Route { customers: vec![0, 1, 0], load: 10, cost: 10 },
    ];
    // customer 3 costs 5 + 9 - 5 = 9 at each of the four places
    assert_eq!(find_slot(&routes, 3, &customers, &dist, 20), Some((0, 1)));
}

#[test]
fn find_slot_takes_a_later_place_that_is_cheaper() {
    let (customers, dist) = corner([3, 2, 1]);
    let routes = vec![Route { customers: vec![0, 2, 1, 0], load: 5, cost: 34 }];
    // before 2: 11 + 1 - 10 = 2; between 2 and 1: 1 + 14 - 14 = 1; after 1: 14 + 11 - 10 = 15
    assert_eq!(find_slot(&routes, 3, &customers, &dist, 100), Some((0, 2)));
}

#[test]
fn find_slot_passes_over_a_full_route() {
    let (customers, dist) = corner([6, 6, 4]);
    let routes = vec![
        Route { customers: vec![0, 2, 0], load: 6, cost: 20 },
        Route { customers: vec![0, 1, 0], load: 6, cost: 20 },
    ];
    assert_eq!(find_slot(&routes, 3, &customers, &dist, 9), None);
    let full_first = vec![
        Route { customers: vec![0, 2, 0], load: 6, cost: 20 },
        Route { customers: vec![0, 0], load: 0, cost: 0 },
    ];
    assert_eq!(find_slot(&full_first, 3, &customers, &dist, 9), Some((1, 1)));
}

#[test]
fn place_customer_opens_a_route_at_twice_the_distance() {
    let (customers, dist) = triangle();
    let mut routes: Vec<Route> = Vec::new();
    place_customer(&mut routes, 2, &customers, &dist, 20);
    assert_eq!(routes.len(), 1);
    assert_eq!(routes[0].customers, vec![0, 2, 0]);
    assert_eq!(routes[0].load, 15);
    assert_eq!(routes[0].cost, 10);
}

#[test]
fn place_customer_adds_the_marginal_cost() {
    let (customers, dist) = corner([3, 2, 1]);
    let mut routes = vec![Route { customers: vec![0, 2, 1, 0], load: 5, cost: 34 }];
    place_customer(&mut routes, 3, &customers, &dist, 100);
    assert_eq!(routes.len(), 1);
    assert_eq!(routes[0].customers, vec![0, 2, 3, 1, 0]);
    assert_eq!(routes[0].load, 6);
    assert_eq!(routes[0].cost, 35);
    assert_eq!(routes[0].cost, route_cost(&routes[0].customers, &dist));
}

#[test]
fn insert_in_order_places_each_customer_in_turn() {
    let (customers, dist) = corner([6, 6, 4]);
    let routes = insert_in_order(&customers, &dist, 10, &vec![1, 2, 3]);
    assert_eq!(stops(&routes), vec![vec![0, 1, 0], vec![0, 3, 2, 0]]);
    assert_eq!(routes[0].load, 6);
    assert_eq!(routes[0].cost, 20);
    assert_eq!(routes[1].load, 10);
    assert_eq!(routes[1].cost, 22);
    assert!(insert_in_order(&customers, &dist, 10, &Vec::new()).is_empty());
}

#[test]
fn pad_routes_adds_idle_routes() {
    let mut routes = vec![Route { customers: vec![0, 1, 0], load: 1, cost: 2 }];
    pad_routes(&mut routes, 3);
    assert_eq!(stops(&routes), vec![vec![0, 1, 0], vec![0, 0], vec![0, 0]]);
    assert_eq!(routes[1].load, 0);
    assert_eq!(routes[1].cost, 0);
    assert_eq!(routes[2].load, 0);
    assert_eq!(routes[2].cost, 0);
    pad_routes(&mut routes, 2);
    assert_eq!(routes.len(), 3);
    pad_routes(&mut routes, 0);
    assert_eq!(routes.len(), 3);
}

#[test]
fn initial_with_offset_on_the_triangle() {
    let (customers, dist) = triangle();
    let from_heaviest = initial_with_offset(&customers, &dist, 2, 20, 0).unwrap();
    assert_eq!(stops(&from_heaviest), vec![vec![0, 3, 2, 0], vec![0, 1, 0]]);
    assert_eq!(from_heaviest[0].load, 20);
    assert_eq!(from_heaviest[0].cost, 19);
    assert_eq!(from_heaviest[1].load, 10);
    assert_eq!(from_heaviest[1].cost, 10);
    let from_second = initial_with_offset(&customers, &dist, 2, 20, 1).unwrap();
    assert_eq!(stops(&from_second), vec![vec![0, 3, 1, 0], vec![0, 2, 0]]);
    let from_third = initial_with_offset(&customers, &dist, 2, 20, 2).unwrap();
    assert_eq!(stops(&from_third), vec![vec![0, 2, 3, 0], vec![0, 1, 0]]);
    let full_turn = initial_with_offset(&customers, &dist, 2, 20, 3).unwrap();
    assert_eq!(stops(&full_turn), stops(&from_heaviest));
    for routes in [&from_heaviest, &from_second, &from_third] {
        assert_solves(routes, &customers, &dist, 20);
    }
}

#[test]
fn initial_with_offset_pads_to_the_number_of_vehicles() {
    let (customers, dist) = triangle();
    let routes = initial_with_offset(&customers, &dist, 4, 20, 0).unwrap();
    assert_eq!(stops(&routes), vec![vec![0, 3, 2, 0], vec![0, 1, 0], vec![0, 0], vec![0, 0]]);
    assert_solves(&routes, &customers, &dist, 20);
}

#[test]
fn initial_with_offset_opens_more_routes_than_vehicles_where_it_must() {
    let (customers, dist) = triangle();
    let routes = initial_with_offset(&customers, &dist, 1, 20, 0).unwrap();
    assert_eq!(routes.len(), 2);
    assert_solves(&routes, &customers, &dist, 20);
    let none = initial_with_offset(&customers, &dist, 0, 20, 0).unwrap();
    assert_eq!(none.len(), 2);
}

#[test]
fn a_single_customer_that_fills_a_vehicle_rides_alone() {
    let customers = vec![customer(0, 0, 0, 0), customer(1, 6, 8, 50)];
    let dist = compute_distance_matrix(&customers);
    for routes in [
        initial_with_offset(&customers, &dist, 1, 50, 0).unwrap(),
        initial_sweep(&customers, &dist, 1, 50).unwrap(),
        initial(&customers, &dist, 1, 50).unwrap(),
    ] {
        assert_eq!(routes.len(), 1);
        assert_eq!(routes[0].customers, vec![0, 1, 0]);
        assert_eq!(routes[0].load, 50);
        assert_eq!(routes[0].cost, 20);
        assert_eq!(routes[0].cost, 2 * dist[0][1]);
    }
}

#[test]
fn the_depot_alone_gives_idle_routes() {
    let customers = vec![customer(0, 0, 0, 0)];
    let dist = compute_distance_matrix(&customers);
    let routes = initial_sweep(&customers, &dist, 3, 10).unwrap();
    assert_eq!(stops(&routes), vec![vec![0, 0], vec![0, 0], vec![0, 0]]);
    assert!(initial(&customers, &dist, 0, 10).unwrap().is_empty());
}

#[test]
fn a_customer_too_heavy_for_a_vehicle_is_refused() {
    let (customers, dist) = triangle();
    assert_eq!(
        initial_with_offset(&customers, &dist, 2, 14, 0).unwrap_err(),
        InstanceError::Overloaded { customer: 2 }
    );
    assert_eq!(
        initial_sweep(&customers, &dist, 2, 9).unwrap_err(),
        InstanceError::Overloaded { customer: 1 }
    );
    assert_eq!(initial(&customers, &dist, 2, 4).unwrap_err(), InstanceError::Overloaded { customer: 1 });
    assert!(initial_sweep(&customers, &dist, 2, 15).is_ok());
}

#[test]
fn initial_sweep_solves_the_triangle_with_two_routes() {
    let (customers, dist) = triangle();
    for _ in 0..50 {
        let routes = initial_sweep(&customers, &dist, 2, 20).unwrap();
        assert_eq!(routes.len(), 2);
        assert_solves(&routes, &customers, &dist, 20);
        let served: usize = routes.iter().map(|r| r.customers.len() - 2).sum();
        assert_eq!(served, 3);
        let expected = [
            vec![vec![0, 3, 2, 0], vec![0, 1, 0]],
            vec![vec![0, 3, 1, 0], vec![0, 2, 0]],
            vec![vec![0, 2, 3, 0], vec![0, 1, 0]],
        ];
        assert!(expected.contains(&stops(&routes)));
    }
}

#[test]
fn initial_sweep_starts_at_different_customers() {
    let (customers, dist) = triangle();
    let mut seen: Vec<Vec<Vec<usize>>> = Vec::new();
    for _ in 0..400 {
        let found = stops(&initial_sweep(&customers, &dist, 2, 20).unwrap());
        if !seen.contains(&found) {
            seen.push(found);
        }
    }
    assert_eq!(seen.len(), 3);
}

#[test]
fn initial_sweep_solves_a_larger_instance() {
    let customers: Vec<Customer> = (0..40)
        .map(|k| customer(k, (k as i32 * 37) % 101 - 50, (k as i32 * 59) % 89 - 44, if k == 0 { 0 } else { 1 + (k * 7) % 13 }))
        .collect();
    let dist = compute_distance_matrix(&customers);
    for _ in 0..10 {
        let routes = initial_sweep(&customers, &dist, 5, 60).unwrap();
        assert!(routes.len() >= 5);
        assert_solves(&routes, &customers, &dist, 60);
    }
}
