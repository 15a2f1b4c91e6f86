//! The restart controller: fresh first solutions, each annealed, until the
//! time is up; the cheapest result wins.

use crate::anneal::{is_annealed, is_rule, solve_cvrp_sa};
use crate::clock::{clock_elapsed, clock_start, duration_nanos};
use crate::construct::{initial, initial_paths, is_offset};
use crate::geometry::{compute_distance_matrix, dist_wf, is_euclidean, Customer, DistanceMatrix};
use crate::instance::{all_fit, check_instance, customers_wf, is_defect, InstanceError};
use crate::route::Route;
use crate::solution::{
    instance_wf, lemma_solution_total, paths, solution_wf, total, total_cost,
};
use vstd::prelude::*;

verus! {

/// Of the best solution so far, if there is one, and a new one: the new one
/// if it is the first or costs less, and the best so far if not.
pub open spec fn cheaper(best: Option<Vec<Route>>, solution: Vec<Route>) -> Vec<Route> {
    match best {
        Some(b) => if total(solution@) < total(b@) {
            solution
        } else {
            b
        },
        None => solution,
    }
}

/// Of the best solution so far, if there is one, and a new one: the new one
/// if it is the first or costs less, and the best so far if not.
pub fn keep_cheaper(best: Option<Vec<Route>>, solution: Vec<Route>) -> (kept: Vec<Route>)
    requires
        total(solution@) <= u64::MAX,
        best matches Some(b) ==> total(b@) <= u64::MAX,
    ensures
        kept == cheaper(best, solution),
{
    match best {
        Some(b) => {
            if total_cost(solution.as_slice()) < total_cost(b.as_slice()) {
                solution
            } else {
                b
            }
        },
        None => solution,
    }
}

/// The time that is left of a budget, `elapsed` nanoseconds after the start;
/// none once the budget is used up.
pub fn time_left(elapsed: u128, total_time_limit_nanos: u128) -> (left: Option<u128>)
    ensures
        left == (if elapsed < total_time_limit_nanos {
            Some((total_time_limit_nanos - elapsed) as u128)
        } else {
            None::<u128>
        }),
{
    if elapsed < total_time_limit_nanos {
        Some(total_time_limit_nanos - elapsed)
    } else {
        None
    }
}

/// `kept` is what one restart leaves of `best_so_far`, `elapsed` nanoseconds
/// into a budget of `total_time_limit_nanos`: a first solution is built,
/// `first`, whose tours are those of the construction that starts at
/// `offset`; annealing with the time that is left, which is the budget less
/// `elapsed`, makes `solution` of it; and the cheaper of the best so far and
/// `solution` is kept.
pub open spec fn is_restart(
    best_so_far: Option<Vec<Route>>,
    kept: Option<Vec<Route>>,
    first: Seq<Route>,
    solution: Vec<Route>,
    offset: int,
    elapsed: u128,
    total_time_limit_nanos: u128,
    customers: Seq<Customer>,
    dist: Seq<Vec<u64>>,
    vehicle_count: int,
    capacity: int,
) -> bool {
    &&& is_offset(offset, customers.len() as int)
    &&& solution_wf(first, customers, dist, capacity)
    &&& paths(first) == initial_paths(customers, dist, vehicle_count, capacity, offset)
    &&& is_annealed(
        first,
        solution@,
        (total_time_limit_nanos - elapsed) as u128,
        customers,
        dist,
        capacity,
    )
    &&& kept == Some(cheaper(best_so_far, solution))
}

/// One round of the restart controller, `elapsed` nanoseconds after its
/// start: what is kept, and whether a restart was made. With the budget used
/// up, the best so far comes back as it is, and no restart was made.
/// Otherwise a fresh first solution is built and annealed for the time that
/// is left, which is the budget less `elapsed`, and the cheaper of the best so
/// far and the result is kept.
pub fn restart_round<F: Fn(u64, u64) -> bool>(
    best_so_far: Option<Vec<Route>>,
    elapsed: u128,
    total_time_limit_nanos: u128,
    customers: &[Customer],
    dist: &DistanceMatrix,
    vehicle_count: usize,
    capacity: usize,
    rule: &F,
) -> (r: (Option<Vec<Route>>, bool))
    requires
        instance_wf(customers@, dist@),
        all_fit(customers@, capacity as int),
        is_rule(*rule),
        best_so_far matches Some(b) ==> solution_wf(b@, customers@, dist@, capacity as int),
    ensures
        elapsed >= total_time_limit_nanos ==> r.0 == best_so_far && !r.1,
        elapsed < total_time_limit_nanos ==> r.1 && exists|
            first: Seq<Route>,
            solution: Vec<Route>,
            offset: int,
        | #[trigger]
            is_restart(
                best_so_far,
                r.0,
                first,
                solution,
                offset,
                elapsed,
                total_time_limit_nanos,
                customers@,
                dist@,
                vehicle_count as int,
                capacity as int,
            ),
{
    let remaining: u128 = match time_left(elapsed, total_time_limit_nanos) {
        Some(left) => left,
        None => {
            return (best_so_far, false);
        },
    };
    let made = initial(customers, dist, vehicle_count, capacity);
    assert(made is Ok);
    match made {
        Ok(first) => {
            let ghost built = first@;
            let ghost offset = choose|offset: int|
                is_offset(offset, customers@.len() as int) && #[trigger] initial_paths(
                    customers@,
                    dist@,
                    vehicle_count as int,
                    capacity as int,
                    offset,
                ) == paths(built);
            let solution: Vec<Route> = solve_cvrp_sa(customers, dist, first, capacity, remaining, rule);
            proof {
                lemma_solution_total(solution@, customers@, dist@, capacity as int);
                if best_so_far is Some {
                    lemma_solution_total(best_so_far->Some_0@, customers@, dist@, capacity as int);
                }
            }
            let ghost annealed = solution;
            let kept: Vec<Route> = keep_cheaper(best_so_far, solution);
            let r: (Option<Vec<Route>>, bool) = (Some(kept), true);
            assert(is_restart(
                best_so_far,
                r.0,
                built,
                annealed,
                offset,
                elapsed,
                total_time_limit_nanos,
                customers@,
                dist@,
                vehicle_count as int,
                capacity as int,
            ));
            r
        },
        Err(_) => {
            // every customer fits a vehicle, so the construction does not fail
            (best_so_far, false)
        },
    }
}

/// Solves the instance within `total_time_limit_nanos` nanoseconds and at most
/// `max_restarts` restarts. The clock is read before every restart, and
/// `restart_round` does the rest: while time is left, it builds a fresh first
/// solution, anneals it for the time that is left, and keeps the result if it
/// is the first or costs less than the best so far.
///
/// An instance that cannot be solved is refused with what is wrong with it.
/// Otherwise the best solution found comes back: one route at least for
/// every vehicle, every customer on exactly one of them, no route over
/// capacity, costs by the Euclidean distance matrix of the customers, and
/// as many routes as a first solution has. Where no restart was made (no
/// time or no restarts allowed, or the clock ran out at once) the result
/// holds no route.
pub fn solve_cvrp_with_restarts<F: Fn(u64, u64) -> bool>(
    customers: &[Customer],
    vehicle_count: usize,
    capacity: usize,
    total_time_limit_nanos: u128,
    max_restarts: usize,
    rule: &F,
) -> (r: Result<Vec<Route>, InstanceError>)
    requires
        is_rule(*rule),
    ensures
        r is Ok <==> customers_wf(customers@) && all_fit(customers@, capacity as int),
        r matches Err(e) ==> is_defect(customers@, capacity as int, e),
        forall|e: InstanceError| #[trigger]
            is_defect(customers@, capacity as int, e) ==> r == Err::<Vec<Route>, InstanceError>(e),
        r matches Ok(best) ==> best@.len() == 0 || (best@.len() >= vehicle_count && exists|
            dist: Seq<Vec<u64>>,
        |
            #[trigger] is_euclidean(dist, customers@) && solution_wf(
                best@,
                customers@,
                dist,
                capacity as int,
            ) && exists|offset: int|
                is_offset(offset, customers@.len() as int) && best@.len() == (#[trigger] initial_paths(
                    customers@,
                    dist,
                    vehicle_count as int,
                    capacity as int,
                    offset,
                )).len()),
        r matches Ok(best) ==> (total_time_limit_nanos == 0 || max_restarts == 0 ==> best@.len() == 0),
{
    match check_instance(customers, capacity) {
        Err(e) => {
            return Err(e);
        },
        Ok(()) => {},
    }
    let dist = compute_distance_matrix(customers);
    let mut best_overall: Option<Vec<Route>> = None;
    let start = clock_start();
    let mut restarts: usize = 0;
    while restarts < max_restarts
        invariant
            is_rule(*rule),
            customers_wf(customers@),
            all_fit(customers@, capacity as int),
            is_euclidean(dist@, customers@),
            dist_wf(dist@, customers@.len() as int),
            best_overall matches Some(b) ==> b@.len() >= vehicle_count && solution_wf(
                b@,
                customers@,
                dist@,
                capacity as int,
            ) && exists|offset: int|
                is_offset(offset, customers@.len() as int) && b@.len() == (#[trigger] initial_paths(
                    customers@,
                    dist@,
                    vehicle_count as int,
                    capacity as int,
                    offset,
                )).len(),
            best_overall is Some ==> total_time_limit_nanos > 0 && max_restarts > 0,
        decreases max_restarts - restarts,
    {
        let passed = clock_elapsed(&start);
        let elapsed: u128 = duration_nanos(&passed);
        let ghost held = best_overall;
        let (kept, restarted) = restart_round(
            best_overall,
            elapsed,
            total_time_limit_nanos,
            customers,
            &dist,
            vehicle_count,
            capacity,
            rule,
        );
        proof {
            if elapsed < total_time_limit_nanos {
                let (first, solution, offset) = choose|
                    first: Seq<Route>,
                    solution: Vec<Route>,
                    offset: int,
                |
                    is_restart(
                        held,
                        kept,
                        first,
                        solution,
                        offset,
                        elapsed,
                        total_time_limit_nanos,
                        customers@,
                        dist@,
                        vehicle_count as int,
                        capacity as int,
                    );
                let opened = initial_paths(
                    customers@,
                    dist@,
                    vehicle_count as int,
                    capacity as int,
                    offset,
                );
                assert(paths(first).len() == first.len());
                assert(solution@.len() == opened.len());
                assert(opened.len() >= vehicle_count);
            }
        }
        best_overall = kept;
        if !restarted {
            break;
        }
        restarts = restarts + 1;
    }
    match best_overall {
        Some(best) => Ok(best),
        None => Ok(Vec::new()),
    }
}

} // verus!
