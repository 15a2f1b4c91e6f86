//! Simulated annealing from one first solution.

use crate::clock::{clock_elapsed, clock_start, duration_nanos};
use crate::geometry::{dist_wf, Customer, DistanceMatrix};
use crate::perturb::{lemma_perturbed_lengths, perturb, perturbed, two_serve};
use crate::route::{path_cost, route_wf, tour_ok, Route, RouteView, MAX_NODES};
use crate::solution::{
    instance_wf, lemma_solution_total, paths, served, solution_wf, total, total_cost, views, visits,
};
use crate::two_opt::{
    lemma_same_visits_same_load, lemma_two_opt_idempotent, two_opt, two_opt_optimal, two_opt_result,
};
use vstd::prelude::*;

verus! {

/// A search gives up after this many candidates in a row that did not improve
/// on its best solution.
pub const STAGNATION_LIMIT: u32 = 10_000;

/// `rule` can be asked about every cost difference at every step.
///
/// A rule is a function that says whether the candidate of a step is taken
/// although it costs so much more than the current solution. It may draw at
/// random and cool down with the steps; the searches are proved for every
/// rule.
pub open spec fn is_rule<F: Fn(u64, u64) -> bool>(rule: F) -> bool {
    forall|delta: u64, step: u64| call_requires(rule, (delta, step))
}

/// The state of one search: the solution it stands on, the best it has seen,
/// for how many candidates in a row that best has not been beaten, and how
/// many rounds it has made.
pub struct Search {
    pub current: Vec<Route>,
    pub best: Vec<Route>,
    pub stagnation: u32,
    pub step: u64,
}

/// Both solutions of the search solve the instance, and the best costs no
/// more than the current.
pub open spec fn search_wf(
    search: Search,
    customers: Seq<Customer>,
    dist: Seq<Vec<u64>>,
    capacity: int,
) -> bool {
    &&& solution_wf(search.current@, customers, dist, capacity)
    &&& solution_wf(search.best@, customers, dist, capacity)
    &&& total(search.best@) <= total(search.current@)
}

/// Each route of `after` is what 2-opt makes of the route of `before` at the
/// same place: a tour of the same customers with the same load, no longer,
/// which no reversal shortens.
pub open spec fn locally_improved(
    before: Seq<RouteView>,
    after: Seq<RouteView>,
    dist: Seq<Vec<u64>>,
) -> bool {
    &&& after.len() == before.len()
    &&& forall|r: int|
        0 <= r < before.len() ==> {
            &&& tour_ok((#[trigger] after[r]).stops, dist.len() as int)
            &&& after[r].cost == path_cost(after[r].stops, dist)
            &&& after[r].cost <= before[r].cost
            &&& after[r].load == before[r].load
            &&& after[r].stops.len() == before[r].stops.len()
            &&& visits(after[r].stops) == visits(before[r].stops)
            &&& two_opt_optimal(after[r].stops, dist)
            &&& after[r].stops == two_opt_result(before[r].stops, dist)
        }
}

/// The routes of `b` are as many as those of `a`, and have as many stops each.
pub open spec fn same_lengths(a: Seq<RouteView>, b: Seq<RouteView>) -> bool {
    &&& b.len() == a.len()
    &&& forall|r: int| 0 <= r < a.len() ==> (#[trigger] b[r]).stops.len() == a[r].stops.len()
}

/// No reversal shortens any of the routes.
pub open spec fn all_two_opt_optimal(vs: Seq<RouteView>, dist: Seq<Vec<u64>>) -> bool {
    forall|r: int| 0 <= r < vs.len() ==> two_opt_optimal((#[trigger] vs[r]).stops, dist)
}

/// Neither a perturbation nor 2-opt can change the routes: fewer than two of
/// them serve customers, and no reversal shortens any of them.
pub open spec fn is_settled(vs: Seq<RouteView>, dist: Seq<Vec<u64>>) -> bool {
    !two_serve(vs) && all_two_opt_optimal(vs, dist)
}

/// 2-opt changes nothing on routes that no reversal shortens.
pub proof fn lemma_nothing_to_improve(
    before: Seq<RouteView>,
    after: Seq<RouteView>,
    dist: Seq<Vec<u64>>,
)
    requires
        locally_improved(before, after, dist),
        all_two_opt_optimal(before, dist),
        forall|r: int|
            0 <= r < before.len() ==> (#[trigger] before[r]).cost == path_cost(before[r].stops, dist),
    ensures
        after == before,
{
    assert forall|r: int| 0 <= r < before.len() implies after[r] == before[r] by {
        lemma_two_opt_idempotent(before[r].stops, dist);
        assert(after[r].stops == before[r].stops);
        assert(after[r].cost == before[r].cost);
        assert(after[r].load == before[r].load);
    }
    assert(after =~= before);
}

/// Two solutions with the same routes are both solutions or both not, and
/// cost the same.
pub proof fn lemma_same_views(
    a: Seq<Route>,
    b: Seq<Route>,
    customers: Seq<Customer>,
    dist: Seq<Vec<u64>>,
    capacity: int,
)
    requires
        views(a) == views(b),
    ensures
        solution_wf(a, customers, dist, capacity) == solution_wf(b, customers, dist, capacity),
        total(a) == total(b),
        paths(a) == paths(b),
    decreases a.len(),
{
    assert(a.len() == views(a).len() && b.len() == views(b).len());
    assert forall|i: int| 0 <= i < a.len() implies a[i]@ == b[i]@ by {
        assert(views(a)[i] == a[i]@ && views(b)[i] == b[i]@);
    }
    assert(paths(a) =~= paths(b));
    if a.len() > 0 {
        assert(views(a.drop_last()) =~= views(b.drop_last())) by {
            assert forall|i: int| 0 <= i < a.len() - 1 implies views(a.drop_last())[i] == views(
                b.drop_last(),
            )[i] by {
                assert(a.drop_last()[i] == a[i] && b.drop_last()[i] == b[i]);
            }
        }
        lemma_same_views(a.drop_last(), b.drop_last(), customers, dist, capacity);
        assert(a.last()@ == b.last()@);
    }
}

/// A copy of the routes.
pub fn copy_routes(routes: &Vec<Route>) -> (copy: Vec<Route>)
    ensures
        views(copy@) == views(routes@),
{
    let mut copy: Vec<Route> = Vec::new();
    let mut r: usize = 0;
    while r < routes.len()
        invariant
            r <= routes@.len(),
            copy@.len() == r,
            forall|k: int| 0 <= k < r ==> copy@[k]@ == routes@[k]@,
        decreases routes@.len() - r,
    {
        let route = &routes[r];
        let stops: Vec<usize> = route.customers.clone();
        assert(stops@ =~= route.customers@);
        copy.push(Route { customers: stops, load: route.load, cost: route.cost });
        r = r + 1;
    }
    assert(views(copy@) =~= views(routes@));
    copy
}

/// Runs 2-opt on every route.
pub fn two_opt_all(solution: &mut Vec<Route>, dist: &DistanceMatrix)
    requires
        1 <= dist@.len() <= MAX_NODES,
        dist_wf(dist@, dist@.len() as int),
        forall|r: int|
            0 <= r < old(solution)@.len() ==> tour_ok(
                (#[trigger] old(solution)@[r]).customers@,
                dist@.len() as int,
            ) && old(solution)@[r].cost == path_cost(old(solution)@[r].customers@, dist@),
    ensures
        locally_improved(views(old(solution)@), views(final(solution)@), dist@),
{
    let ghost before = solution@;
    let mut r: usize = 0;
    while r < solution.len()
        invariant
            r <= solution@.len(),
            solution@.len() == before.len(),
            1 <= dist@.len() <= MAX_NODES,
            dist_wf(dist@, dist@.len() as int),
            forall|k: int| r <= k < before.len() ==> solution@[k] == before[k],
            forall|k: int|
                0 <= k < before.len() ==> tour_ok((#[trigger] before[k]).customers@, dist@.len() as int)
                    && before[k].cost == path_cost(before[k].customers@, dist@),
            forall|k: int|
                0 <= k < r ==> {
                    &&& tour_ok((#[trigger] solution@[k]).customers@, dist@.len() as int)
                    &&& solution@[k].cost == path_cost(solution@[k].customers@, dist@)
                    &&& solution@[k].cost <= before[k].cost
                    &&& solution@[k].load == before[k].load
                    &&& solution@[k].customers@.len() == before[k].customers@.len()
                    &&& visits(solution@[k].customers@) == visits(before[k].customers@)
                    &&& two_opt_optimal(solution@[k].customers@, dist@)
                    &&& solution@[k].customers@ == two_opt_result(before[k].customers@, dist@)
                },
        decreases solution@.len() - r,
    {
        let ghost prev = solution@;
        assert(prev[r as int] == before[r as int]);
        two_opt(&mut solution[r], dist);
        proof {
            assert forall|k: int| 0 <= k < r implies solution@[k] == prev[k] by {}
            assert forall|k: int| r + 1 <= k < before.len() implies solution@[k] == before[k] by {
                assert(solution@[k] == prev[k]);
            }
        }
        r = r + 1;
    }
    proof {
        let vs = views(before);
        let ws = views(solution@);
        assert forall|k: int| 0 <= k < before.len() implies {
            &&& tour_ok((#[trigger] ws[k]).stops, dist@.len() as int)
            &&& ws[k].cost == path_cost(ws[k].stops, dist@)
            &&& ws[k].cost <= vs[k].cost
            &&& ws[k].load == vs[k].load
            &&& ws[k].stops.len() == vs[k].stops.len()
            &&& visits(ws[k].stops) == visits(vs[k].stops)
            &&& two_opt_optimal(ws[k].stops, dist@)
            &&& ws[k].stops == two_opt_result(vs[k].stops, dist@)
        } by {
            assert(ws[k] == solution@[k]@ && vs[k] == before[k]@);
        }
    }
}

/// 2-opt on every route of a solution gives a solution that costs no more.
pub proof fn lemma_locally_improved(
    before: Seq<Route>,
    after: Seq<Route>,
    customers: Seq<Customer>,
    dist: Seq<Vec<u64>>,
    capacity: int,
)
    requires
        instance_wf(customers, dist),
        solution_wf(before, customers, dist, capacity),
        locally_improved(views(before), views(after), dist),
    ensures
        solution_wf(after, customers, dist, capacity),
        total(after) <= total(before),
{
    let vs = views(before);
    let ws = views(after);
    assert(after.len() == before.len());
    assert forall|r: int| 0 <= r < after.len() implies route_wf(
        #[trigger] after[r]@,
        customers,
        dist,
        capacity,
    ) by {
        assert(ws[r] == after[r]@ && vs[r] == before[r]@);
        assert(route_wf(before[r]@, customers, dist, capacity));
        lemma_same_visits_same_load(after[r].customers@, before[r].customers@, customers);
    }
    assert forall|r: int| 0 <= r < before.len() implies visits(#[trigger] paths(after)[r]) == visits(
        paths(before)[r],
    ) by {
        assert(ws[r] == after[r]@ && vs[r] == before[r]@);
    }
    lemma_served_same(paths(before), paths(after), before.len() as int);
    assert forall|r: int| 0 <= r < before.len() implies (#[trigger] after[r]).cost
        <= before[r].cost by {
        assert(ws[r] == after[r]@ && vs[r] == before[r]@);
    }
    lemma_total_le(before, after, before.len() as int);
    assert(paths(before).subrange(0, before.len() as int) =~= paths(before));
    assert(paths(after).subrange(0, before.len() as int) =~= paths(after));
    assert(before.subrange(0, before.len() as int) =~= before);
    assert(after.subrange(0, before.len() as int) =~= after);
}

/// Routes that visit the same customers place by place serve the same
/// customers.
proof fn lemma_served_same(a: Seq<Seq<usize>>, b: Seq<Seq<usize>>, k: int)
    requires
        a.len() == b.len(),
        0 <= k <= a.len(),
        forall|r: int| 0 <= r < a.len() ==> visits(#[trigger] b[r]) == visits(a[r]),
    ensures
        served(a.subrange(0, k)) == served(b.subrange(0, k)),
    decreases k,
{
    if k > 0 {
        lemma_served_same(a, b, k - 1);
        assert(a.subrange(0, k).drop_last() =~= a.subrange(0, k - 1));
        assert(b.subrange(0, k).drop_last() =~= b.subrange(0, k - 1));
        assert(a.subrange(0, k).last() == a[k - 1]);
        assert(b.subrange(0, k).last() == b[k - 1]);
    } else {
        assert(a.subrange(0, k) =~= b.subrange(0, k));
    }
}

/// Routes that cost no more place by place cost no more together.
proof fn lemma_total_le(a: Seq<Route>, b: Seq<Route>, k: int)
    requires
        a.len() == b.len(),
        0 <= k <= a.len(),
        forall|r: int| 0 <= r < a.len() ==> (#[trigger] b[r]).cost <= a[r].cost,
    ensures
        total(b.subrange(0, k)) <= total(a.subrange(0, k)),
    decreases k,
{
    if k > 0 {
        lemma_total_le(a, b, k - 1);
        assert(a.subrange(0, k).drop_last() =~= a.subrange(0, k - 1));
        assert(b.subrange(0, k).drop_last() =~= b.subrange(0, k - 1));
        assert(a.subrange(0, k).last() == a[k - 1]);
        assert(b.subrange(0, k).last() == b[k - 1]);
    }
}

/// A candidate to follow `current`: a copy of it, perturbed, with 2-opt run on
/// each of its routes.
pub fn propose(
    current: &Vec<Route>,
    customers: &[Customer],
    dist: &DistanceMatrix,
    capacity: usize,
) -> (candidate: Vec<Route>)
    requires
        instance_wf(customers@, dist@),
        solution_wf(current@, customers@, dist@, capacity as int),
    ensures
        solution_wf(candidate@, customers@, dist@, capacity as int),
        candidate@.len() == current@.len(),
        exists|shaken: Seq<RouteView>| #[trigger]
            perturbed(views(current@), shaken, customers@, dist@, capacity as int)
                && locally_improved(shaken, views(candidate@), dist@),
        same_lengths(views(current@), views(candidate@)),
        all_two_opt_optimal(views(candidate@), dist@),
        is_settled(views(current@), dist@) ==> views(candidate@) == views(current@),
{
    let mut candidate: Vec<Route> = copy_routes(current);
    proof {
        lemma_same_views(candidate@, current@, customers@, dist@, capacity as int);
        assert(views(candidate@).len() == candidate@.len());
        assert(views(current@).len() == current@.len());
    }
    perturb(&mut candidate, customers, dist, capacity);
    let ghost shaken = candidate@;
    proof {
        assert forall|r: int| 0 <= r < shaken.len() implies tour_ok(
            (#[trigger] shaken[r]).customers@,
            dist@.len() as int,
        ) && shaken[r].cost == path_cost(shaken[r].customers@, dist@) by {
            assert(route_wf(shaken[r]@, customers@, dist@, capacity as int));
        }
    }
    two_opt_all(&mut candidate, dist);
    proof {
        lemma_locally_improved(shaken, candidate@, customers@, dist@, capacity as int);
        assert(views(shaken).len() == shaken.len());
        assert(views(candidate@).len() == candidate@.len());
        assert(perturbed(views(current@), views(shaken), customers@, dist@, capacity as int));
        lemma_perturbed_lengths(
            views(current@),
            views(shaken),
            customers@,
            dist@,
            capacity as int,
        );
        if is_settled(views(current@), dist@) {
            assert forall|r: int| 0 <= r < current@.len() implies (#[trigger] views(
                current@,
            )[r]).cost == path_cost(views(current@)[r].stops, dist@) by {
                assert(route_wf(current@[r]@, customers@, dist@, capacity as int));
            }
            lemma_nothing_to_improve(views(current@), views(candidate@), dist@);
        }
    }
    candidate
}

/// Whether a candidate is taken: always where it costs less than the current
/// solution; where it does not, the rule is asked about the difference of the
/// two costs at this step, and its answer is the result.
pub fn accept<F: Fn(u64, u64) -> bool>(
    rule: &F,
    candidate_cost: u64,
    current_cost: u64,
    step: u64,
) -> (taken: bool)
    requires
        is_rule(*rule),
    ensures
        candidate_cost < current_cost ==> taken,
        candidate_cost >= current_cost ==> call_ensures(
            *rule,
            ((candidate_cost - current_cost) as u64, step),
            taken,
        ),
{
    if candidate_cost < current_cost {
        true
    } else {
        rule(candidate_cost - current_cost, step)
    }
}

/// A search that starts on `first`.
pub fn start_search(first: Vec<Route>) -> (search: Search)
    ensures
        search.current == first,
        views(search.best@) == views(first@),
        search.stagnation == 0,
        search.step == 0,
{
    let best: Vec<Route> = copy_routes(&first);
    Search { current: first, best, stagnation: 0, step: 0 }
}

/// Whether a candidate is taken: where it costs less than the current
/// solution, and where the rule admitted it.
pub open spec fn is_taken(candidate: Seq<Route>, current: Seq<Route>, admitted: bool) -> bool {
    admitted || total(candidate) < total(current)
}

/// Settles one candidate, which the rule `admitted` or not. The candidate is
/// taken where it costs less than the current solution or was admitted. Where
/// it is taken, the search moves on to it, and where it also costs less than
/// the best seen, it becomes the best and the count of fruitless candidates
/// starts again at zero. In every other case that count goes up by one.
pub fn settle(
    search: &mut Search,
    candidate: Vec<Route>,
    admitted: bool,
    customers: &[Customer],
    dist: &DistanceMatrix,
    capacity: usize,
)
    requires
        instance_wf(customers@, dist@),
        search_wf(*old(search), customers@, dist@, capacity as int),
        old(search).stagnation < u32::MAX,
        solution_wf(candidate@, customers@, dist@, capacity as int),
    ensures
        search_wf(*final(search), customers@, dist@, capacity as int),
        views(final(search).current@) == (if is_taken(candidate@, old(search).current@, admitted) {
            views(candidate@)
        } else {
            views(old(search).current@)
        }),
        views(final(search).best@) == (if is_taken(candidate@, old(search).current@, admitted)
            && total(candidate@) < total(old(search).best@) {
            views(candidate@)
        } else {
            views(old(search).best@)
        }),
        final(search).stagnation == (if is_taken(candidate@, old(search).current@, admitted)
            && total(candidate@) < total(old(search).best@) {
            0int
        } else {
            old(search).stagnation + 1
        }),
        total(final(search).best@) == (if is_taken(candidate@, old(search).current@, admitted)
            && total(candidate@) < total(old(search).best@) {
            total(candidate@)
        } else {
            total(old(search).best@)
        }),
        final(search).step == old(search).step,
{
    proof {
        lemma_solution_total(candidate@, customers@, dist@, capacity as int);
        lemma_solution_total(search.best@, customers@, dist@, capacity as int);
        lemma_solution_total(search.current@, customers@, dist@, capacity as int);
    }
    let candidate_cost: u64 = total_cost(candidate.as_slice());
    let current_cost: u64 = total_cost(search.current.as_slice());
    if admitted || candidate_cost < current_cost {
        let best_cost: u64 = total_cost(search.best.as_slice());
        if candidate_cost < best_cost {
            let copy: Vec<Route> = copy_routes(&candidate);
            proof {
                lemma_same_views(copy@, candidate@, customers@, dist@, capacity as int);
            }
            search.best = copy;
            search.stagnation = 0;
        } else {
            search.stagnation = search.stagnation + 1;
        }
        search.current = candidate;
    } else {
        search.stagnation = search.stagnation + 1;
    }
}

/// `after` is `before` with `candidate` settled, which the rule `admitted` or
/// not: what `settle` makes of a search.
pub open spec fn is_settling(before: Search, after: Search, candidate: Seq<Route>, admitted: bool) -> bool {
    let taken = is_taken(candidate, before.current@, admitted);
    let better = taken && total(candidate) < total(before.best@);
    &&& views(after.current@) == (if taken {
        views(candidate)
    } else {
        views(before.current@)
    })
    &&& views(after.best@) == (if better {
        views(candidate)
    } else {
        views(before.best@)
    })
    &&& after.stagnation == (if better {
        0int
    } else {
        before.stagnation + 1
    })
    &&& total(after.best@) == (if better {
        total(candidate)
    } else {
        total(before.best@)
    })
}

/// The number of the round after round `step`; the count stops at the largest
/// number.
pub open spec fn next_step(step: u64) -> u64 {
    if step < u64::MAX {
        (step + 1) as u64
    } else {
        step
    }
}

/// `after` is what one round makes of `before`: the current solution is
/// perturbed, which gives `shaken`, and 2-opt on every route of that gives
/// `candidate`; a candidate that costs less than the current solution is
/// admitted, and of any other the rule is asked, about the difference of the
/// two costs and at the step of the search; the candidate is then settled,
/// and the rounds are counted on.
pub open spec fn is_round<F: Fn(u64, u64) -> bool>(
    before: Search,
    after: Search,
    shaken: Seq<RouteView>,
    candidate: Seq<Route>,
    admitted: bool,
    customers: Seq<Customer>,
    dist: Seq<Vec<u64>>,
    capacity: int,
    rule: F,
) -> bool {
    &&& solution_wf(candidate, customers, dist, capacity)
    &&& perturbed(views(before.current@), shaken, customers, dist, capacity)
    &&& locally_improved(shaken, views(candidate), dist)
    &&& total(candidate) < total(before.current@) ==> admitted
    &&& total(candidate) >= total(before.current@) ==> call_ensures(
        rule,
        ((total(candidate) - total(before.current@)) as u64, before.step),
        admitted,
    )
    &&& is_settling(before, after, candidate, admitted)
    &&& after.step == next_step(before.step)
}

/// What a round keeps: its candidate has the routes of the current solution,
/// stop for stop in number, and no reversal shortens any of them; and where
/// nothing can change the current solution, the round changes neither it nor
/// the best.
pub proof fn lemma_round<F: Fn(u64, u64) -> bool>(
    before: Search,
    after: Search,
    shaken: Seq<RouteView>,
    candidate: Seq<Route>,
    admitted: bool,
    customers: Seq<Customer>,
    dist: Seq<Vec<u64>>,
    capacity: int,
    rule: F,
)
    requires
        instance_wf(customers, dist),
        search_wf(before, customers, dist, capacity),
        is_round(before, after, shaken, candidate, admitted, customers, dist, capacity, rule),
    ensures
        same_lengths(views(before.current@), views(candidate)),
        all_two_opt_optimal(views(candidate), dist),
        total(after.best@) <= total(before.best@),
        is_settled(views(before.current@), dist) ==> views(after.current@) == views(before.current@)
            && views(after.best@) == views(before.best@),
{
    let vs = views(before.current@);
    lemma_perturbed_lengths(vs, shaken, customers, dist, capacity);
    assert(views(candidate).len() == candidate.len());
    assert(vs.len() == before.current@.len());
    if is_settled(vs, dist) {
        assert forall|r: int| 0 <= r < vs.len() implies (#[trigger] vs[r]).cost == path_cost(
            vs[r].stops,
            dist,
        ) by {
            assert(route_wf(before.current@[r]@, customers, dist, capacity));
        }
        lemma_nothing_to_improve(vs, views(candidate), dist);
        lemma_same_views(candidate, before.current@, customers, dist, capacity);
    }
}

/// One round of a search, `elapsed` nanoseconds after its start, and whether
/// the search goes on after it. With the time up, nothing is done and the
/// search ends. Otherwise a candidate is proposed, the rule is asked where
/// the candidate is no cheaper than the current solution, the candidate is
/// settled, and the round is counted; the search goes on unless
/// `STAGNATION_LIMIT` candidates in a row have now failed to beat the best.
pub fn search_round<F: Fn(u64, u64) -> bool>(
    search: &mut Search,
    elapsed: u128,
    time_limit_nanos: u128,
    customers: &[Customer],
    dist: &DistanceMatrix,
    capacity: usize,
    rule: &F,
) -> (goes_on: bool)
    requires
        instance_wf(customers@, dist@),
        search_wf(*old(search), customers@, dist@, capacity as int),
        old(search).stagnation < STAGNATION_LIMIT,
        is_rule(*rule),
    ensures
        search_wf(*final(search), customers@, dist@, capacity as int),
        elapsed >= time_limit_nanos ==> !goes_on && views(final(search).current@) == views(
            old(search).current@,
        ) && views(final(search).best@) == views(old(search).best@) && final(search).stagnation
            == old(search).stagnation && final(search).step == old(search).step,
        elapsed < time_limit_nanos ==> goes_on == (final(search).stagnation < STAGNATION_LIMIT)
            && exists|shaken: Seq<RouteView>, candidate: Seq<Route>, admitted: bool|
            is_round(
                *old(search),
                *final(search),
                shaken,
                candidate,
                admitted,
                customers@,
                dist@,
                capacity as int,
                *rule,
            ),
{
    if !(elapsed < time_limit_nanos) {
        return false;
    }
    let ghost before = *search;
    let candidate: Vec<Route> = propose(&search.current, customers, dist, capacity);
    proof {
        lemma_solution_total(candidate@, customers@, dist@, capacity as int);
        lemma_solution_total(search.current@, customers@, dist@, capacity as int);
    }
    let candidate_cost: u64 = total_cost(candidate.as_slice());
    let current_cost: u64 = total_cost(search.current.as_slice());
    let admitted: bool = accept(rule, candidate_cost, current_cost, search.step);
    let ghost proposed = candidate@;
    let ghost shaken = choose|shaken: Seq<RouteView>| #[trigger]
        perturbed(views(before.current@), shaken, customers@, dist@, capacity as int)
            && locally_improved(shaken, views(proposed), dist@);
    settle(search, candidate, admitted, customers, dist, capacity);
    if search.step < u64::MAX {
        search.step = search.step + 1;
    }
    proof {
        assert(is_round(
            before,
            *search,
            shaken,
            proposed,
            admitted,
            customers@,
            dist@,
            capacity as int,
            *rule,
        ));
    }
    search.stagnation < STAGNATION_LIMIT
}

/// `best` is what annealing may make of `first` within `time_limit_nanos`:
/// a solution with as many routes, and as many stops on each. It has the
/// routes of `first`, or it costs less and no reversal shortens any of its
/// routes. It has the routes of `first` where there is no time, and where
/// nothing can change `first`.
pub open spec fn is_annealed(
    first: Seq<Route>,
    best: Seq<Route>,
    time_limit_nanos: u128,
    customers: Seq<Customer>,
    dist: Seq<Vec<u64>>,
    capacity: int,
) -> bool {
    &&& solution_wf(best, customers, dist, capacity)
    &&& total(best) <= total(first)
    &&& views(best) == views(first) || total(best) < total(first)
    &&& views(best) == views(first) || forall|r: int|
        0 <= r < best.len() ==> two_opt_optimal((#[trigger] best[r]).customers@, dist)
    &&& best.len() == first.len()
    &&& forall|r: int|
        0 <= r < best.len() ==> (#[trigger] best[r]).customers@.len() == first[r].customers@.len()
    &&& time_limit_nanos == 0 ==> views(best) == views(first)
    &&& is_settled(views(first), dist) ==> views(best) == views(first)
}

/// Simulated annealing from `current`, for at most `time_limit_nanos`
/// nanoseconds. The clock is read before every round, and `search_round` does
/// all the rest: it perturbs a copy of the current solution, runs 2-opt on each
/// of its routes, and settles it, a cheaper candidate always being taken and
/// another one as `rule` decides. The search ends when the time is up or
/// `STAGNATION_LIMIT` candidates in a row did not beat the best, and returns
/// the best solution seen.
pub fn solve_cvrp_sa<F: Fn(u64, u64) -> bool>(
    customers: &[Customer],
    dist: &DistanceMatrix,
    current: Vec<Route>,
    capacity: usize,
    time_limit_nanos: u128,
    rule: &F,
) -> (best: Vec<Route>)
    requires
        instance_wf(customers@, dist@),
        solution_wf(current@, customers@, dist@, capacity as int),
        is_rule(*rule),
    ensures
        is_annealed(current@, best@, time_limit_nanos, customers@, dist@, capacity as int),
{
    let ghost first = current@;
    let mut search: Search = start_search(current);
    proof {
        lemma_same_views(search.best@, first, customers@, dist@, capacity as int);
        lemma_solution_total(search.best@, customers@, dist@, capacity as int);
        assert(views(search.best@).len() == search.best@.len());
        assert(views(first).len() == first.len());
    }
    let start = clock_start();
    loop
        invariant_except_break
            search.stagnation < STAGNATION_LIMIT,
        invariant
            instance_wf(customers@, dist@),
            search_wf(search, customers@, dist@, capacity as int),
            total(search.best@) <= total(first),
            is_rule(*rule),
            views(search.best@) == views(first) || total(search.best@) < total(first),
            views(search.best@) == views(first) || all_two_opt_optimal(views(search.best@), dist@),
            same_lengths(views(first), views(search.best@)),
            same_lengths(views(first), views(search.current@)),
            is_settled(views(first), dist@) ==> views(search.current@) == views(first)
                && views(search.best@) == views(first),
            time_limit_nanos == 0 ==> views(search.best@) == views(first),
            0 <= total(search.best@),
        decreases total(search.best@), STAGNATION_LIMIT - search.stagnation,
    {
        let passed = clock_elapsed(&start);
        let elapsed: u128 = duration_nanos(&passed);
        let ghost held = search;
        let goes_on: bool = search_round(
            &mut search,
            elapsed,
            time_limit_nanos,
            customers,
            dist,
            capacity,
            rule,
        );
        proof {
            lemma_solution_total(search.best@, customers@, dist@, capacity as int);
            if elapsed < time_limit_nanos {
                let (shaken, candidate, admitted) = choose|
                    shaken: Seq<RouteView>,
                    candidate: Seq<Route>,
                    admitted: bool,
                |
                    is_round(
                        held,
                        search,
                        shaken,
                        candidate,
                        admitted,
                        customers@,
                        dist@,
                        capacity as int,
                        *rule,
                    );
                lemma_round(
                    held,
                    search,
                    shaken,
                    candidate,
                    admitted,
                    customers@,
                    dist@,
                    capacity as int,
                    *rule,
                );
            } else {
                lemma_same_views(search.best@, held.best@, customers@, dist@, capacity as int);
            }
        }
        if !goes_on {
            break;
        }
    }
    proof {
        let vs = views(first);
        let ws = views(search.best@);
        assert(ws.len() == search.best@.len() && vs.len() == first.len());
        assert forall|r: int| 0 <= r < search.best@.len() implies (#[trigger] search.best@[r])
            .customers@.len() == first[r].customers@.len() by {
            assert(ws[r] == search.best@[r]@ && vs[r] == first[r]@);
        }
        if ws != vs {
            assert forall|r: int| 0 <= r < search.best@.len() implies two_opt_optimal(
                (#[trigger] search.best@[r]).customers@,
                dist@,
            ) by {
                assert(ws[r] == search.best@[r]@);
            }
        }
    }
    search.best
}

} // verus!
