use cvrp::anneal::{
    accept, copy_routes, propose, search_round, settle, solve_cvrp_sa, start_search, two_opt_all,
    Search, STAGNATION_LIMIT,
};
use cvrp::construct::{initial_sweep, initial_with_offset};
use cvrp::geometry::{compute_distance_matrix, Customer, DistanceMatrix};
use cvrp::instance::{check_instance, find_misnumbered, find_overload, InstanceError};
use cvrp::restarts::{keep_cheaper, restart_round, solve_cvrp_with_restarts, time_left};
use cvrp::route::{route_cost, Route, MAX_NODES};
use cvrp::solution::total_cost;
use cvrp::two_opt::reverse_segment;
use std::cell::RefCell;

fn never(_delta: u64, _step: u64) -> bool {
    false
}

fn always(_delta: u64, _step: u64) -> bool {
    true
}

/// Keeps what a rule was asked, and admits the even differences.
struct Recorder {
    asked: RefCell<Vec<(u64, u64)>>,
}

impl Recorder {
    fn new() -> Recorder {
        Recorder { asked: RefCell::new(Vec::new()) }
    }

    fn rule(&self) -> impl Fn(u64, u64) -> bool + '_ {
        move |delta, step| {
            self.asked.borrow_mut().push((delta, step));
            delta % 2 == 0
        }
    }

    fn asked(&self) -> Vec<(u64, u64)> {
        self.asked.borrow().clone()
    }
}

const MILLISECOND: u128 = 1_000_000;

fn customer(id: usize, x: i32, y: i32, demand: usize) -> Customer {
    Customer { id, x, y, demand }
}

fn triangle() -> (Vec<Customer>, DistanceMatrix) {
    let customers =
        vec![customer(0, 0, 0, 0), customer(1, 3, 4, 10), customer(2, -3, 4, 15), customer(3, 0, -5, 5)];
    let dist = compute_distance_matrix(&customers);
    (customers, dist)
}

fn scattered(n: usize) -> (Vec<Customer>, DistanceMatrix) {
    let customers: Vec<Customer> = (0..n)
        .map(|k| {
            customer(k, (k as i32 * 37) % 101 - 50, (k as i32 * 59) % 89 - 44, if k == 0 { 0 } else { 1 + (k * 7) % 13 })
        })
        .collect();
    let dist = compute_distance_matrix(&customers);
    (customers, dist)
}

fn route(path: &[usize], customers: &[Customer], dist: &DistanceMatrix) -> Route {
    Route {
        customers: path.to_vec(),
        load: path.iter().map(|&c| customers[c].demand).sum(),
        cost: route_cost(path, dist),
    }
}

fn stops(routes: &[Route]) -> Vec<Vec<usize>> {
    routes.iter().map(|r| r.customers.clone()).collect()
}

fn assert_solves(routes: &[Route], customers: &[Customer], dist: &DistanceMatrix, capacity: usize) {
    let mut seen = vec![0usize; customers.len()];
    for route in routes {
        let len = route.customers.len();
        assert!(len >= 2);
        assert_eq!(route.customers[0], 0);
        assert_eq!(route.customers[len - 1], 0);
        let mut load = 0;
        for &c in &route.customers[1..len - 1] {
            assert!(c >= 1 && c < customers.len());
            seen[c] += 1;
            load += customers[c].demand;
        }
        assert_eq!(route.load, load);
        assert!(route.load <= capacity);
        assert_eq!(route.cost, route_cost(&route.customers, dist));
    }
    for c in 1..customers.len() {
        assert_eq!(seen[c], 1);
    }
}

#[test]
fn accept_always_takes_a_cheaper_candidate() {
    assert!(accept(&never, 9, 10, 0));
    assert!(accept(&never, 0, u64::MAX, 7));
    let recorder = Recorder::new();
    assert!(accept(&recorder.rule(), 3, 4, 5));
    assert!(recorder.asked().is_empty());
}

#[test]
fn accept_asks_the_rule_about_a_candidate_that_is_no_cheaper() {
    assert!(!accept(&never, 10, 10, 0));
    assert!(!accept(&never, 11, 10, 0));
    assert!(accept(&always, 10, 10, 0));
    assert!(accept(&always, u64::MAX, 0, 0));
    let recorder = Recorder::new();
    assert!(accept(&recorder.rule(), 10, 10, 3));
    assert!(!accept(&recorder.rule(), 17, 10, 4));
    assert!(accept(&recorder.rule(), 18, 10, u64::MAX));
    assert_eq!(recorder.asked(), vec![(0, 3), (7, 4), (8, u64::MAX)]);
}

#[test]
fn copy_routes_copies_everything() {
    let (customers, dist) = triangle();
    let routes = vec![route(&[0, 1, 3, 0], &customers, &dist), route(&[0, 2, 0], &customers, &dist), route(&[0, 0], &customers, &dist)];
    let copy = copy_routes(&routes);
    assert_eq!(stops(&copy), stops(&routes));
    for (a, b) in copy.iter().zip(&routes) {
        assert_eq!(a.load, b.load);
        assert_eq!(a.cost, b.cost);
    }
    assert!(copy_routes(&Vec::new()).is_empty());
}

#[test]
fn start_search_stands_on_the_first_solution() {
    let (customers, dist) = triangle();
    let first = vec![route(&[0, 1, 3, 0], &customers, &dist), route(&[0, 2, 0], &customers, &dist)];
    let search = start_search(copy_routes(&first));
    assert_eq!(stops(&search.current), stops(&first));
    assert_eq!(stops(&search.best), stops(&first));
    assert_eq!(total_cost(&search.best), 29);
    assert_eq!(search.stagnation, 0);
}

fn square() -> (Vec<Customer>, DistanceMatrix) {
    let customers = vec![customer(0, 0, 0, 0), customer(1, 10, 0, 1), customer(2, 10, 10, 1), customer(3, 0, 10, 1)];
    let dist = compute_distance_matrix(&customers);
    (customers, dist)
}

#[test]
fn settle_takes_a_better_candidate_as_the_best() {
    let (customers, dist) = square();
    let crossed = vec![route(&[0, 1, 3, 2, 0], &customers, &dist)];
    let straight = vec![route(&[0, 1, 2, 3, 0], &customers, &dist)];
    let mut search = Search { current: copy_routes(&crossed), best: copy_routes(&crossed), stagnation: 41, step: 0 };
    settle(&mut search, copy_routes(&straight), false, &customers, &dist, 3);
    assert_eq!(stops(&search.current), stops(&straight));
    assert_eq!(stops(&search.best), stops(&straight));
    assert_eq!(total_cost(&search.best), 40);
    assert_eq!(search.stagnation, 0);
}

#[test]
fn settle_moves_to_an_admitted_candidate_and_keeps_the_best() {
    let (customers, dist) = square();
    let crossed = vec![route(&[0, 1, 3, 2, 0], &customers, &dist)];
    let straight = vec![route(&[0, 1, 2, 3, 0], &customers, &dist)];
    let mut search = Search { current: copy_routes(&straight), best: copy_routes(&straight), stagnation: 41, step: 0 };
    settle(&mut search, copy_routes(&crossed), true, &customers, &dist, 3);
    assert_eq!(stops(&search.current), stops(&crossed));
    assert_eq!(stops(&search.best), stops(&straight));
    assert_eq!(search.stagnation, 42);
}

#[test]
fn settle_drops_a_candidate_that_is_not_admitted() {
    let (customers, dist) = square();
    let crossed = vec![route(&[0, 1, 3, 2, 0], &customers, &dist)];
    let straight = vec![route(&[0, 1, 2, 3, 0], &customers, &dist)];
    let mut search = Search { current: copy_routes(&straight), best: copy_routes(&straight), stagnation: 0, step: 0 };
    settle(&mut search, copy_routes(&crossed), false, &customers, &dist, 3);
    assert_eq!(stops(&search.current), stops(&straight));
    assert_eq!(stops(&search.best), stops(&straight));
    assert_eq!(search.stagnation, 1);
    // a candidate of the same cost is no improvement either
    let mirrored = vec![route(&[0, 3, 2, 1, 0], &customers, &dist)];
    settle(&mut search, copy_routes(&mirrored), false, &customers, &dist, 3);
    assert_eq!(stops(&search.current), stops(&straight));
    assert_eq!(search.stagnation, 2);
    settle(&mut search, copy_routes(&mirrored), true, &customers, &dist, 3);
    assert_eq!(stops(&search.current), stops(&mirrored));
    assert_eq!(stops(&search.best), stops(&straight));
    assert_eq!(search.stagnation, 3);
}

#[test]
fn settle_takes_a_candidate_cheaper_than_the_current_but_not_than_the_best() {
    let (customers, dist) = square();
    let straight = vec![route(&[0, 1, 2, 3, 0], &customers, &dist)];
    let crossed = vec![route(&[0, 1, 3, 2, 0], &customers, &dist)];
    let split = vec![route(&[0, 2, 0], &customers, &dist), route(&[0, 1, 3, 0], &customers, &dist)];
    assert_eq!(total_cost(&split), 62);
    // the search stands on the worst of the three and has seen the best of them
    let mut search = Search { current: copy_routes(&split), best: copy_routes(&straight), stagnation: 5, step: 0 };
    settle(&mut search, copy_routes(&crossed), false, &customers, &dist, 3);
    assert_eq!(stops(&search.current), stops(&crossed));
    assert_eq!(stops(&search.best), stops(&straight));
    assert_eq!(search.stagnation, 6);
}

#[test]
fn two_opt_all_improves_every_route() {
    let (customers, dist) = scattered(13);
    let mut routes = vec![
        route(&[0, 1, 2, 3, 4, 5, 6, 0], &customers, &dist),
        route(&[0, 0], &customers, &dist),
        route(&[0, 7, 8, 9, 10, 11, 12, 0], &customers, &dist),
    ];
    let before = copy_routes(&routes);
    two_opt_all(&mut routes, &dist);
    assert_solves(&routes, &customers, &dist, 1000);
    for (after, before) in routes.iter().zip(&before) {
        assert!(after.cost <= before.cost);
        assert_eq!(after.load, before.load);
        let len = after.customers.len();
        for i in 1..len.saturating_sub(2) {
            for j in i + 1..len - 1 {
                assert!(route_cost(&reverse_segment(&after.customers, i, j), &dist) >= after.cost);
            }
        }
    }
}

#[test]
fn propose_gives_a_solution_that_no_reversal_shortens() {
    let (customers, dist) = scattered(20);
    let current = initial_with_offset(&customers, &dist, 3, 50, 0).unwrap();
    for _ in 0..30 {
        let candidate = propose(&current, &customers, &dist, 50);
        assert_eq!(candidate.len(), current.len());
        assert_solves(&candidate, &customers, &dist, 50);
        for route in &candidate {
            let len = route.customers.len();
            for i in 1..len.saturating_sub(2) {
                for j in i + 1..len - 1 {
                    assert!(route_cost(&reverse_segment(&route.customers, i, j), &dist) >= route.cost);
                }
            }
        }
    }
}

#[test]
fn propose_leaves_the_current_solution_alone() {
    let (customers, dist) = triangle();
    let current = initial_with_offset(&customers, &dist, 2, 20, 0).unwrap();
    let before = stops(&current);
    let candidate = propose(&current, &customers, &dist, 20);
    assert_eq!(stops(&current), before);
    assert_eq!(candidate.len(), 2);
}

#[test]
fn annealing_without_time_returns_the_first_solution() {
    let (customers, dist) = triangle();
    let first = initial_with_offset(&customers, &dist, 2, 20, 0).unwrap();
    let best = solve_cvrp_sa(&customers, &dist, copy_routes(&first), 20, 0, &always);
    assert_eq!(stops(&best), stops(&first));
    assert_eq!(total_cost(&best), total_cost(&first));
}

#[test]
fn annealing_never_returns_a_worse_solution() {
    let (customers, dist) = scattered(30);
    for round in 0..4 {
        let first = initial_sweep(&customers, &dist, 4, 60).unwrap();
        let cost = total_cost(&first);
        let count = first.len();
        let lengths: Vec<usize> = first.iter().map(|r| r.customers.len()).collect();
        let started = stops(&first);
        let best = if round % 2 == 0 {
            solve_cvrp_sa(&customers, &dist, first, 60, 30 * MILLISECOND, &always)
        } else {
            solve_cvrp_sa(&customers, &dist, first, 60, 30 * MILLISECOND, &never)
        };
        assert!(total_cost(&best) <= cost);
        assert_eq!(best.len(), count);
        assert_solves(&best, &customers, &dist, 60);
        // every route keeps its number of stops
        assert_eq!(best.iter().map(|r| r.customers.len()).collect::<Vec<_>>(), lengths);
        // a changed result is cheaper, and no reversal shortens a route of it
        if stops(&best) != started {
            assert!(total_cost(&best) < cost);
            for route in &best {
                let len = route.customers.len();
                for i in 1..len.saturating_sub(2) {
                    for j in i + 1..len - 1 {
                        assert!(route_cost(&reverse_segment(&route.customers, i, j), &dist) >= route.cost);
                    }
                }
            }
        }
    }
}

#[test]
fn annealing_returns_a_first_solution_that_nothing_can_change() {
    // one route serves all customers, and no reversal shortens it: neither
    // the perturbation nor 2-opt has anything to do, whatever the rule says
    let (customers, dist) = square();
    let first = vec![route(&[0, 1, 2, 3, 0], &customers, &dist), route(&[0, 0], &customers, &dist)];
    let best = solve_cvrp_sa(&customers, &dist, copy_routes(&first), 3, 20 * MILLISECOND, &always);
    assert_eq!(stops(&best), stops(&first));
    assert_eq!(total_cost(&best), 40);
}

#[test]
fn annealing_stops_when_nothing_improves() {
    // one customer: nothing can be perturbed, so the search gives up after
    // its limit of fruitless candidates, long before the hour is over
    let customers = vec![customer(0, 0, 0, 0), customer(1, 6, 8, 5)];
    let dist = compute_distance_matrix(&customers);
    let first = initial_sweep(&customers, &dist, 2, 5).unwrap();
    let recorder = Recorder::new();
    let best = solve_cvrp_sa(&customers, &dist, first, 5, 3_600_000 * MILLISECOND, &recorder.rule());
    assert_eq!(stops(&best), vec![vec![0, 1, 0], vec![0, 0]]);
    assert_eq!(recorder.asked().len(), STAGNATION_LIMIT as usize);
    for (k, asked) in recorder.asked().iter().enumerate() {
        assert_eq!(*asked, (0, k as u64));
    }
}

#[test]
fn keep_cheaper_keeps_the_first_and_then_the_cheaper() {
    let (customers, dist) = square();
    let crossed = vec![route(&[0, 1, 3, 2, 0], &customers, &dist)];
    let straight = vec![route(&[0, 1, 2, 3, 0], &customers, &dist)];
    let mirrored = vec![route(&[0, 3, 2, 1, 0], &customers, &dist)];
    assert_eq!(stops(&keep_cheaper(None, copy_routes(&crossed))), stops(&crossed));
    assert_eq!(
        stops(&keep_cheaper(Some(copy_routes(&crossed)), copy_routes(&straight))),
        stops(&straight)
    );
    assert_eq!(
        stops(&keep_cheaper(Some(copy_routes(&straight)), copy_routes(&crossed))),
        stops(&straight)
    );
    // of two that cost the same, the one that was there stays
    assert_eq!(
        stops(&keep_cheaper(Some(copy_routes(&straight)), copy_routes(&mirrored))),
        stops(&straight)
    );
}

#[test]
fn restarts_solve_the_triangle_with_two_vehicles() {
    let (customers, dist) = triangle();
    let best = solve_cvrp_with_restarts(&customers, 2, 20, 50 * MILLISECOND, 3, &always).unwrap();
    assert_eq!(best.len(), 2);
    assert_solves(&best, &customers, &dist, 20);
    let served: usize = best.iter().map(|r| r.customers.len() - 2).sum();
    assert_eq!(served, 3);
    assert!(best.iter().all(|r| r.load <= 20));
    assert_eq!(best.iter().map(|r| r.load).sum::<usize>(), 30);
}

#[test]
fn restarts_place_a_customer_that_fills_a_vehicle() {
    let customers = vec![customer(0, 0, 0, 0), customer(1, 6, 8, 50)];
    let best = solve_cvrp_with_restarts(&customers, 1, 50, 20 * MILLISECOND, 1, &never).unwrap();
    assert_eq!(best.len(), 1);
    assert_eq!(best[0].customers, vec![0, 1, 0]);
    assert_eq!(best[0].load, 50);
    assert_eq!(best[0].cost, 20);
}

#[test]
fn restarts_without_time_return_nothing() {
    let (customers, _) = triangle();
    let best = solve_cvrp_with_restarts(&customers, 2, 20, 0, 10, &always).unwrap();
    assert!(best.is_empty());
}

#[test]
fn restarts_without_restarts_return_nothing() {
    let (customers, _) = triangle();
    let best = solve_cvrp_with_restarts(&customers, 2, 20, 50 * MILLISECOND, 0, &always).unwrap();
    assert!(best.is_empty());
}

#[test]
fn restarts_keep_to_their_number() {
    // each restart of this instance ends by stagnation, with one question to
    // the rule for each fruitless candidate
    let customers = vec![customer(0, 0, 0, 0), customer(1, 6, 8, 5)];
    let recorder = Recorder::new();
    let best = solve_cvrp_with_restarts(&customers, 1, 5, 3_600_000 * MILLISECOND, 2, &recorder.rule()).unwrap();
    assert_eq!(stops(&best), vec![vec![0, 1, 0]]);
    assert_eq!(recorder.asked().len(), 2 * STAGNATION_LIMIT as usize);
}

#[test]
fn restarts_solve_a_larger_instance() {
    let (customers, dist) = scattered(25);
    let best = solve_cvrp_with_restarts(&customers, 4, 50, 100 * MILLISECOND, 5, &always).unwrap();
    assert!(best.len() >= 4);
    assert_solves(&best, &customers, &dist, 50);
    // the result has as many routes as one of the first solutions
    let counts: Vec<usize> = (0..customers.len() - 1)
        .map(|offset| initial_with_offset(&customers, &dist, 4, 50, offset).unwrap().len())
        .collect();
    assert!(counts.contains(&best.len()));
}

#[test]
fn restarts_refuse_an_instance_without_a_depot() {
    assert_eq!(
        solve_cvrp_with_restarts(&[], 2, 20, MILLISECOND, 1, &never).unwrap_err(),
        InstanceError::NoDepot
    );
    assert_eq!(check_instance(&[], 20), Err(InstanceError::NoDepot));
}

#[test]
fn restarts_refuse_too_many_customers() {
    let customers: Vec<Customer> = (0..MAX_NODES + 1).map(|k| customer(k, 0, 0, 0)).collect();
    assert_eq!(check_instance(&customers, 20), Err(InstanceError::TooManyCustomers));
    assert_eq!(
        solve_cvrp_with_restarts(&customers, 2, 20, MILLISECOND, 1, &never).unwrap_err(),
        InstanceError::TooManyCustomers
    );
    assert_eq!(check_instance(&customers[..MAX_NODES], 20), Ok(()));
}

#[test]
fn restarts_refuse_a_customer_out_of_place() {
    let customers = vec![customer(0, 0, 0, 0), customer(1, 3, 4, 10), customer(3, -3, 4, 15), customer(2, 0, -5, 50)];
    assert_eq!(
        solve_cvrp_with_restarts(&customers, 2, 20, MILLISECOND, 1, &never).unwrap_err(),
        InstanceError::Misnumbered { index: 2 }
    );
    assert_eq!(check_instance(&customers, 20), Err(InstanceError::Misnumbered { index: 2 }));
    assert_eq!(find_misnumbered(&customers), Some(2));
    assert_eq!(find_misnumbered(&customers[..2]), None);
    assert_eq!(find_misnumbered(&[customer(1, 0, 0, 0)]), Some(0));
}

#[test]
fn restarts_refuse_a_customer_too_heavy_for_a_vehicle() {
    let (customers, _) = triangle();
    assert_eq!(
        solve_cvrp_with_restarts(&customers, 2, 14, MILLISECOND, 1, &never).unwrap_err(),
        InstanceError::Overloaded { customer: 2 }
    );
    assert_eq!(
        solve_cvrp_with_restarts(&customers, 2, 0, 0, 0, &never).unwrap_err(),
        InstanceError::Overloaded { customer: 1 }
    );
    assert_eq!(check_instance(&customers, 14), Err(InstanceError::Overloaded { customer: 2 }));
    assert_eq!(check_instance(&customers, 15), Ok(()));
    assert_eq!(find_overload(&customers, 9), Some(1));
    assert_eq!(find_overload(&customers, 15), None);
}

#[test]
fn the_demand_of_the_depot_overloads_nothing() {
    let customers = vec![customer(0, 0, 0, 99), customer(1, 3, 4, 10)];
    assert_eq!(find_overload(&customers, 10), None);
    assert_eq!(check_instance(&customers, 10), Ok(()));
    let dist = compute_distance_matrix(&customers);
    let best = solve_cvrp_with_restarts(&customers, 1, 10, 20 * MILLISECOND, 1, &never).unwrap();
    assert_eq!(stops(&best), vec![vec![0, 1, 0]]);
    assert_eq!(best[0].load, 10);
    assert_eq!(best[0].cost, 2 * dist[0][1]);
}

const HOUR: u128 = 3_600_000 * MILLISECOND;

fn search_on(path: &[usize], stagnation: u32, step: u64) -> (Vec<Customer>, DistanceMatrix, Search) {
    let (customers, dist) = square();
    let routes = vec![route(path, &customers, &dist)];
    let search = Search { current: copy_routes(&routes), best: copy_routes(&routes), stagnation, step };
    (customers, dist, search)
}

#[test]
fn search_round_does_nothing_once_the_time_is_up() {
    for (elapsed, limit) in [(0u128, 0u128), (5, 5), (6, 5), (u128::MAX, 5), (u128::MAX, u128::MAX)] {
        let (customers, dist, mut search) = search_on(&[0, 1, 3, 2, 0], 7, 3);
        let recorder = Recorder::new();
        let goes_on = search_round(&mut search, elapsed, limit, &customers, &dist, 3, &recorder.rule());
        assert!(!goes_on);
        assert_eq!(stops(&search.current), vec![vec![0, 1, 3, 2, 0]]);
        assert_eq!(stops(&search.best), vec![vec![0, 1, 3, 2, 0]]);
        assert_eq!(search.stagnation, 7);
        assert_eq!(search.step, 3);
        assert!(recorder.asked().is_empty());
    }
}

#[test]
fn search_round_makes_a_round_while_time_is_left() {
    for (elapsed, limit) in [(0u128, 1u128), (4, 5), (0, u128::MAX), (u128::MAX - 1, u128::MAX)] {
        // the crossing is removed by 2-opt: the candidate is cheaper and becomes the best
        let (customers, dist, mut search) = search_on(&[0, 1, 3, 2, 0], 7, 3);
        let recorder = Recorder::new();
        let goes_on = search_round(&mut search, elapsed, limit, &customers, &dist, 3, &recorder.rule());
        assert!(goes_on);
        assert_eq!(search.step, 4);
        assert_eq!(stops(&search.current), vec![vec![0, 1, 2, 3, 0]]);
        assert_eq!(stops(&search.best), vec![vec![0, 1, 2, 3, 0]]);
        assert_eq!(total_cost(&search.best), 40);
        assert_eq!(search.stagnation, 0);
        assert!(recorder.asked().is_empty());
    }
}

#[test]
fn search_round_asks_the_rule_at_its_step() {
    // nothing can change this solution: the candidate costs the same, and the rule is asked
    let (customers, dist, mut search) = search_on(&[0, 1, 2, 3, 0], 0, 41);
    let recorder = Recorder::new();
    assert!(search_round(&mut search, 1, 2, &customers, &dist, 3, &recorder.rule()));
    assert!(search_round(&mut search, 1, 2, &customers, &dist, 3, &recorder.rule()));
    assert_eq!(recorder.asked(), vec![(0, 41), (0, 42)]);
    assert_eq!(search.step, 43);
    // the count of the rounds stops at the largest number
    search.step = u64::MAX - 1;
    assert!(search_round(&mut search, 1, 2, &customers, &dist, 3, &recorder.rule()));
    assert!(search_round(&mut search, 1, 2, &customers, &dist, 3, &recorder.rule()));
    assert_eq!(recorder.asked()[2..], [(0, u64::MAX - 1), (0, u64::MAX)]);
    assert_eq!(search.step, u64::MAX);
    assert_eq!(stops(&search.current), vec![vec![0, 1, 2, 3, 0]]);
    assert_eq!(stops(&search.best), vec![vec![0, 1, 2, 3, 0]]);
    assert_eq!(search.stagnation, 4);
}

#[test]
fn search_round_ends_the_search_at_the_limit_of_fruitless_candidates() {
    let (customers, dist, mut search) = search_on(&[0, 1, 2, 3, 0], STAGNATION_LIMIT - 2, 0);
    assert!(search_round(&mut search, 0, HOUR, &customers, &dist, 3, &never));
    assert_eq!(search.stagnation, STAGNATION_LIMIT - 1);
    assert!(!search_round(&mut search, 0, HOUR, &customers, &dist, 3, &always));
    assert_eq!(search.stagnation, STAGNATION_LIMIT);
    assert_eq!(stops(&search.best), vec![vec![0, 1, 2, 3, 0]]);
}

#[test]
fn time_left_is_the_budget_less_the_time_gone() {
    assert_eq!(time_left(0, 5), Some(5));
    assert_eq!(time_left(2, 5), Some(3));
    assert_eq!(time_left(4, 5), Some(1));
    assert_eq!(time_left(5, 5), None);
    assert_eq!(time_left(6, 5), None);
    assert_eq!(time_left(0, 0), None);
    assert_eq!(time_left(0, u128::MAX), Some(u128::MAX));
    assert_eq!(time_left(u128::MAX, u128::MAX), None);
    assert_eq!(time_left(u128::MAX - 1, u128::MAX), Some(1));
}

#[test]
fn restart_round_does_nothing_once_the_budget_is_used_up() {
    let (customers, dist) = square();
    for (elapsed, total) in [(0u128, 0u128), (5, 5), (6, 5), (u128::MAX, HOUR)] {
        let recorder = Recorder::new();
        let (kept, restarted) = restart_round(None, elapsed, total, &customers, &dist, 1, 3, &recorder.rule());
        assert!(kept.is_none());
        assert!(!restarted);
        let crossed = vec![route(&[0, 1, 3, 2, 0], &customers, &dist)];
        let (kept, restarted) =
            restart_round(Some(crossed), elapsed, total, &customers, &dist, 1, 3, &recorder.rule());
        assert_eq!(stops(&kept.unwrap()), vec![vec![0, 1, 3, 2, 0]]);
        assert!(!restarted);
        assert!(recorder.asked().is_empty());
    }
}

#[test]
fn restart_round_keeps_the_first_result() {
    let (customers, dist) = triangle();
    let (kept, restarted) = restart_round(None, 0, 20 * MILLISECOND, &customers, &dist, 2, 20, &always);
    assert!(restarted);
    let kept = kept.unwrap();
    assert_eq!(kept.len(), 2);
    assert_solves(&kept, &customers, &dist, 20);
}

#[test]
fn restart_round_keeps_the_cheaper() {
    // every first solution of the square is the round trip of cost 40
    let (customers, dist) = square();
    let crossed = vec![route(&[0, 1, 3, 2, 0], &customers, &dist)];
    let (kept, restarted) =
        restart_round(Some(crossed), 0, 5 * MILLISECOND, &customers, &dist, 1, 3, &never);
    assert!(restarted);
    let kept = kept.unwrap();
    assert_eq!(total_cost(&kept), 40);
    assert_solves(&kept, &customers, &dist, 3);
    // a solution that is as cheap as the new result stays
    let detour = vec![route(&[0, 0], &customers, &dist), route(&[0, 1, 2, 3, 0], &customers, &dist)];
    let (kept, restarted) =
        restart_round(Some(detour), 0, 5 * MILLISECOND, &customers, &dist, 1, 3, &never);
    assert!(restarted);
    assert_eq!(stops(&kept.unwrap()), vec![vec![0, 0], vec![0, 1, 2, 3, 0]]);
}

#[test]
fn restart_round_hands_on_the_time_that_is_left() {
    // with one customer a search ends only by the clock or after its limit
    // of fruitless candidates, each of which the rule is asked about
    let customers = vec![customer(0, 0, 0, 0), customer(1, 6, 8, 5)];
    let dist = compute_distance_matrix(&customers);
    let recorder = Recorder::new();
    let (kept, restarted) = restart_round(None, 0, HOUR, &customers, &dist, 1, 5, &recorder.rule());
    assert!(restarted);
    assert_eq!(stops(&kept.unwrap()), vec![vec![0, 1, 0]]);
    assert_eq!(recorder.asked().len(), STAGNATION_LIMIT as usize);
    // a nanosecond is left of the hour: the search is over at once
    let recorder = Recorder::new();
    let (kept, restarted) = restart_round(None, HOUR - 1, HOUR, &customers, &dist, 1, 5, &recorder.rule());
    assert!(restarted);
    assert_eq!(stops(&kept.unwrap()), vec![vec![0, 1, 0]]);
    assert!(recorder.asked().len() < 100);
}
