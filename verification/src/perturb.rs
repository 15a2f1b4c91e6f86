//! The perturbation: two customers of two routes change places.

use crate::chance::{random_between, thread_rng};
use crate::geometry::{Customer, DistanceMatrix};
use crate::route::{
    demand_of, lemma_path_load_remove, lemma_tour_in_range, lemma_tour_len, path_cost, path_load,
    route_cost, route_wf, tour_ok, Route, RouteView,
};
use crate::solution::{
    instance_wf, lemma_everyone_count, lemma_served_two, lemma_served_update,
    lemma_visits_contains, lemma_visits_update, paths, served, solution_wf, views, visits,
};
use vstd::prelude::*;

verus! {

/// `(v1, i)` and `(v2, j)` name a customer each, on two different routes.
pub open spec fn swap_site(vs: Seq<RouteView>, v1: int, i: int, v2: int, j: int) -> bool {
    &&& 0 <= v1 < vs.len()
    &&& 0 <= v2 < vs.len()
    &&& v1 != v2
    &&& 1 <= i < vs[v1].stops.len() - 1
    &&& 1 <= j < vs[v2].stops.len() - 1
}

/// The load of route `v1` once its customer at `i` has made room for the one
/// at `j` of route `v2`.
pub open spec fn load_after_swap(
    vs: Seq<RouteView>,
    v1: int,
    i: int,
    v2: int,
    j: int,
    customers: Seq<Customer>,
) -> int {
    vs[v1].load - demand_of(customers, vs[v1].stops[i]) + demand_of(customers, vs[v2].stops[j])
}

/// Both routes can carry what they hold after the two customers change places.
pub open spec fn swap_fits(
    vs: Seq<RouteView>,
    v1: int,
    i: int,
    v2: int,
    j: int,
    customers: Seq<Customer>,
    capacity: int,
) -> bool {
    load_after_swap(vs, v1, i, v2, j, customers) <= capacity && load_after_swap(
        vs,
        v2,
        j,
        v1,
        i,
        customers,
    ) <= capacity
}

/// The routes after the two customers have changed places: the two routes
/// hold each other's customer, with their loads and costs to match; the other
/// routes are as before.
pub open spec fn swapped(
    vs: Seq<RouteView>,
    v1: int,
    i: int,
    v2: int,
    j: int,
    customers: Seq<Customer>,
    dist: Seq<Vec<u64>>,
) -> Seq<RouteView> {
    let s1 = vs[v1].stops.update(i, vs[v2].stops[j]);
    let s2 = vs[v2].stops.update(j, vs[v1].stops[i]);
    vs.update(
        v1,
        RouteView {
            stops: s1,
            load: load_after_swap(vs, v1, i, v2, j, customers),
            cost: path_cost(s1, dist),
        },
    ).update(
        v2,
        RouteView {
            stops: s2,
            load: load_after_swap(vs, v2, j, v1, i, customers),
            cost: path_cost(s2, dist),
        },
    )
}

/// Route `v` serves at least one customer.
pub open spec fn serves(vs: Seq<RouteView>, v: int) -> bool {
    0 <= v < vs.len() && vs[v].stops.len() > 2
}

/// Two routes at least serve customers.
pub open spec fn two_serve(vs: Seq<RouteView>) -> bool {
    exists|v1: int, v2: int| #[trigger] serves(vs, v1) && #[trigger] serves(vs, v2) && v1 != v2
}

/// What comes of the try to let the customers at `(v1, i)` and `(v2, j)`
/// change places: the routes after the swap, where both routes can carry
/// their loads then, and the routes as they were, where not.
pub open spec fn swap_outcome(
    vs: Seq<RouteView>,
    v1: int,
    i: int,
    v2: int,
    j: int,
    customers: Seq<Customer>,
    dist: Seq<Vec<u64>>,
    capacity: int,
) -> Seq<RouteView> {
    if swap_fits(vs, v1, i, v2, j, customers, capacity) {
        swapped(vs, v1, i, v2, j, customers, dist)
    } else {
        vs
    }
}

/// What one perturbation makes of the routes `before`. Where fewer than two
/// routes serve customers, nothing. Otherwise what comes of the try to let
/// two customers change places, one on each of two different routes.
pub open spec fn perturbed(
    before: Seq<RouteView>,
    after: Seq<RouteView>,
    customers: Seq<Customer>,
    dist: Seq<Vec<u64>>,
    capacity: int,
) -> bool {
    if two_serve(before) {
        exists|v1: int, i: int, v2: int, j: int|
            swap_site(before, v1, i, v2, j) && after == #[trigger] swap_outcome(
                before,
                v1,
                i,
                v2,
                j,
                customers,
                dist,
                capacity,
            )
    } else {
        after == before
    }
}

/// A perturbation keeps the number of routes and the number of stops of each.
pub proof fn lemma_perturbed_lengths(
    before: Seq<RouteView>,
    after: Seq<RouteView>,
    customers: Seq<Customer>,
    dist: Seq<Vec<u64>>,
    capacity: int,
)
    requires
        perturbed(before, after, customers, dist, capacity),
    ensures
        after.len() == before.len(),
        forall|r: int| 0 <= r < before.len() ==> (#[trigger] after[r]).stops.len() == before[r].stops.len(),
{
    if two_serve(before) {
        let (v1, i, v2, j) = choose|v1: int, i: int, v2: int, j: int|
            swap_site(before, v1, i, v2, j) && after == #[trigger] swap_outcome(
                before,
                v1,
                i,
                v2,
                j,
                customers,
                dist,
                capacity,
            );
        assert forall|r: int| 0 <= r < before.len() implies (#[trigger] after[r]).stops.len()
            == before[r].stops.len() by {
            // the two routes of the swap trade one stop for another; the rest stay
            if swap_fits(before, v1, i, v2, j, customers, capacity) && r != v1 && r != v2 {
                assert(after[r] == before[r]);
            }
        }
    }
}

/// Where the list of the routes that serve customers has fewer than two
/// entries, no two routes serve customers; and the other way round.
pub proof fn lemma_two_serve(busy: Seq<usize>, routes: Seq<Route>)
    requires
        lists_busy(busy, routes),
        routes.len() <= usize::MAX,
    ensures
        two_serve(views(routes)) <==> busy.len() >= 2,
{
    let vs = views(routes);
    if busy.len() >= 2 {
        assert(busy[0] < busy[1]);
        assert(vs[busy[0] as int] == routes[busy[0] as int]@);
        assert(vs[busy[1] as int] == routes[busy[1] as int]@);
        assert(serves(vs, busy[0] as int) && serves(vs, busy[1] as int));
    }
    if two_serve(vs) {
        let (v1, v2) = choose|v1: int, v2: int| #[trigger]
            serves(vs, v1) && #[trigger] serves(vs, v2) && v1 != v2;
        assert(vs[v1] == routes[v1]@ && vs[v2] == routes[v2]@);
        assert(busy.contains(v1 as usize));
        assert(busy.contains(v2 as usize));
        let k1 = choose|k: int| 0 <= k < busy.len() && busy[k] == v1 as usize;
        let k2 = choose|k: int| 0 <= k < busy.len() && busy[k] == v2 as usize;
        assert(k1 != k2);
    }
}

/// Putting another customer in the place of a stop trades its demand for the
/// other's.
pub proof fn lemma_path_load_update(path: Seq<usize>, customers: Seq<Customer>, pos: int, c: usize)
    requires
        0 <= pos < path.len(),
    ensures
        path_load(path.update(pos, c), customers) == path_load(path, customers) - demand_of(
            customers,
            path[pos],
        ) + demand_of(customers, c),
{
    lemma_path_load_remove(path, customers, pos);
    lemma_path_load_remove(path.update(pos, c), customers, pos);
    assert(path.update(pos, c).remove(pos) =~= path.remove(pos));
}

/// A tour in which a customer from elsewhere takes the place of one of its
/// own is a tour.
pub proof fn lemma_tour_update(path: Seq<usize>, n: int, pos: int, c: usize)
    requires
        tour_ok(path, n),
        1 <= pos < path.len() - 1,
        1 <= c < n,
        visits(path).count(c) == 0,
    ensures
        tour_ok(path.update(pos, c), n),
{
    let next = path.update(pos, c);
    lemma_visits_contains(path, c);
    assert forall|k: int| 0 < k < next.len() - 1 implies 1 <= #[trigger] next[k] < n by {
        if k != pos {
            assert(next[k] == path[k]);
        }
    }
    assert forall|a: int, b: int| 0 < a < b < next.len() - 1 implies next[a] != next[b] by {
        if a != pos && b != pos {
            assert(path[a] != path[b]);
        }
    }
}

/// In a solution, a customer of one route is on no other route.
pub proof fn lemma_on_one_route(
    routes: Seq<Route>,
    customers: Seq<Customer>,
    dist: Seq<Vec<u64>>,
    capacity: int,
    v1: int,
    v2: int,
    j: int,
)
    requires
        instance_wf(customers, dist),
        solution_wf(routes, customers, dist, capacity),
        0 <= v1 < routes.len(),
        0 <= v2 < routes.len(),
        v1 != v2,
        1 <= j < routes[v2].customers@.len() - 1,
    ensures
        visits(routes[v1].customers@).count(routes[v2].customers@[j]) == 0,
        visits(routes[v2].customers@).count(routes[v2].customers@[j]) == 1,
        1 <= routes[v2].customers@[j] < customers.len(),
{
    let ps = paths(routes);
    let c = routes[v2].customers@[j];
    assert(ps[v1] == routes[v1].customers@ && ps[v2] == routes[v2].customers@);
    assert(route_wf(routes[v2]@, customers, dist, capacity));
    lemma_served_two(ps, v1, v2, c);
    lemma_everyone_count(customers.len() as int, c);
    lemma_visits_contains(ps[v2], c);
}

/// Lets the customer at place `i` of route `v1` and the customer at place `j`
/// of route `v2` change places, if both routes can then carry their loads, and
/// says whether it did. Where they cannot, nothing is changed.
pub fn swap_customers(
    solution: &mut Vec<Route>,
    v1: usize,
    i: usize,
    v2: usize,
    j: usize,
    customers: &[Customer],
    dist: &DistanceMatrix,
    capacity: usize,
) -> (done: bool)
    requires
        instance_wf(customers@, dist@),
        solution_wf(old(solution)@, customers@, dist@, capacity as int),
        swap_site(views(old(solution)@), v1 as int, i as int, v2 as int, j as int),
    ensures
        done == swap_fits(
            views(old(solution)@),
            v1 as int,
            i as int,
            v2 as int,
            j as int,
            customers@,
            capacity as int,
        ),
        done ==> views(final(solution)@) == swapped(
            views(old(solution)@),
            v1 as int,
            i as int,
            v2 as int,
            j as int,
            customers@,
            dist@,
        ),
        !done ==> final(solution)@ == old(solution)@,
        final(solution)@.len() == old(solution)@.len(),
        solution_wf(final(solution)@, customers@, dist@, capacity as int),
{
    let ghost before = solution@;
    let ghost vs = views(solution@);
    let ghost ps = paths(solution@);
    let ghost n = customers@.len() as int;
    proof {
        assert(vs[v1 as int] == solution@[v1 as int]@ && vs[v2 as int] == solution@[v2 as int]@);
        assert(route_wf(solution@[v1 as int]@, customers@, dist@, capacity as int));
        assert(route_wf(solution@[v2 as int]@, customers@, dist@, capacity as int));
        lemma_on_one_route(solution@, customers@, dist@, capacity as int, v1 as int, v2 as int, j as int);
        lemma_on_one_route(solution@, customers@, dist@, capacity as int, v2 as int, v1 as int, i as int);
    }
    let c1: usize = solution[v1].customers[i];
    let c2: usize = solution[v2].customers[j];
    let d1: usize = customers[c1].demand;
    let d2: usize = customers[c2].demand;
    let load1: usize = solution[v1].load;
    let load2: usize = solution[v2].load;
    proof {
        lemma_path_load_remove(ps[v1 as int], customers@, i as int);
        lemma_path_load_remove(ps[v2 as int], customers@, j as int);
        lemma_load_nonnegative(ps[v1 as int].remove(i as int), customers@);
        lemma_load_nonnegative(ps[v2 as int].remove(j as int), customers@);
    }
    if !(d2 <= capacity - (load1 - d1) && d1 <= capacity - (load2 - d2)) {
        return false;
    }
    let ghost s1 = ps[v1 as int].update(i as int, c2);
    let ghost s2 = ps[v2 as int].update(j as int, c1);
    proof {
        lemma_tour_update(ps[v1 as int], n, i as int, c2);
        lemma_tour_update(ps[v2 as int], n, j as int, c1);
        lemma_path_load_update(ps[v1 as int], customers@, i as int, c2);
        lemma_path_load_update(ps[v2 as int], customers@, j as int, c1);
        lemma_tour_len(s1, n);
        lemma_tour_len(s2, n);
        lemma_tour_in_range(s1, n);
        lemma_tour_in_range(s2, n);
    }
    let first = &mut solution[v1];
    first.customers[i] = c2;
    first.load = load1 - d1 + d2;
    first.cost = route_cost(first.customers.as_slice(), dist);
    let second = &mut solution[v2];
    second.customers[j] = c1;
    second.load = load2 - d2 + d1;
    second.cost = route_cost(second.customers.as_slice(), dist);
    proof {
        assert(views(solution@) =~= swapped(vs, v1 as int, i as int, v2 as int, j as int, customers@, dist@));
        assert forall|r: int| 0 <= r < solution@.len() implies route_wf(
            #[trigger] solution@[r]@,
            customers@,
            dist@,
            capacity as int,
        ) by {
            if r != v1 && r != v2 {
                assert(solution@[r] == before[r]);
            }
        }
        let qs = ps.update(v1 as int, s1);
        assert(paths(solution@) =~= qs.update(v2 as int, s2));
        lemma_served_update(ps, v1 as int, s1);
        lemma_served_update(qs, v2 as int, s2);
        lemma_visits_update(ps[v1 as int], i as int, c2);
        lemma_visits_update(ps[v2 as int], j as int, c1);
        let base1 = served(ps.remove(v1 as int));
        let base2 = served(qs.remove(v2 as int));
        let m1 = visits(ps[v1 as int]);
        let m2 = visits(ps[v2 as int]);
        assert(qs[v2 as int] == ps[v2 as int]);
        assert forall|x: usize| served(paths(solution@)).count(x) == served(ps).count(x) by {
            assert(served(ps).count(x) == base1.count(x) + m1.count(x));
            assert(served(qs).count(x) == base1.count(x) + visits(s1).count(x));
            assert(served(qs).count(x) == base2.count(x) + m2.count(x));
            assert(served(paths(solution@)).count(x) == base2.count(x) + visits(s2).count(x));
            assert(visits(s1).count(x) == m1.remove(c1).count(x) + (if x == c2 { 1int } else { 0int }));
            assert(visits(s2).count(x) == m2.remove(c2).count(x) + (if x == c1 { 1int } else { 0int }));
            assert(m1.remove(c1).count(x) == m1.count(x) - (if x == c1 { 1int } else { 0int }));
            assert(m2.remove(c2).count(x) == m2.count(x) - (if x == c2 { 1int } else { 0int }));
        }
        assert(served(paths(solution@)) =~= served(ps));
    }
    true
}

/// Demands are not negative, so no load is.
pub proof fn lemma_load_nonnegative(path: Seq<usize>, customers: Seq<Customer>)
    ensures
        path_load(path, customers) >= 0,
    decreases path.len(),
{
    if path.len() > 0 {
        lemma_load_nonnegative(path.drop_last(), customers);
    }
}

/// `busy` lists the routes that serve at least one customer, all of them,
/// by rising index.
pub open spec fn lists_busy(busy: Seq<usize>, routes: Seq<Route>) -> bool {
    &&& forall|k: int|
        0 <= k < busy.len() ==> #[trigger] busy[k] < routes.len() && routes[busy[k] as int].customers@.len()
            > 2
    &&& forall|a: int, b: int| 0 <= a < b < busy.len() ==> busy[a] < busy[b]
    &&& forall|r: int|
        0 <= r < routes.len() && routes[r].customers@.len() > 2 ==> busy.contains(r as usize)
}

/// The routes that serve at least one customer, by rising index.
pub fn busy_routes(solution: &Vec<Route>) -> (busy: Vec<usize>)
    ensures
        lists_busy(busy@, solution@),
{
    let mut busy: Vec<usize> = Vec::new();
    let mut r: usize = 0;
    while r < solution.len()
        invariant
            r <= solution@.len(),
            lists_busy(busy@, solution@.subrange(0, r as int)),
        decreases solution@.len() - r,
    {
        let ghost seen = solution@.subrange(0, r as int);
        let ghost next = solution@.subrange(0, r + 1);
        let ghost prev = busy@;
        if solution[r].customers.len() > 2 {
            busy.push(r);
        }
        proof {
            assert forall|k: int| 0 <= k < busy@.len() implies #[trigger] busy@[k] < next.len()
                && next[busy@[k] as int].customers@.len() > 2 by {
                if k < prev.len() {
                    assert(prev[k] < seen.len());
                    assert(seen[prev[k] as int] == next[prev[k] as int]);
                }
            }
            assert forall|q: int| 0 <= q < next.len() && next[q].customers@.len() > 2 implies busy@.contains(
                q as usize,
            ) by {
                if q < r {
                    assert(seen[q] == next[q]);
                    let k = choose|k: int| 0 <= k < prev.len() && prev[k] == q as usize;
                    assert(busy@[k] == q as usize);
                } else {
                    assert(busy@[busy@.len() - 1] == r);
                }
            }
        }
        r = r + 1;
    }
    proof {
        assert(solution@.subrange(0, r as int) =~= solution@);
    }
    busy
}

/// Picks at random two different routes among those that serve customers, and
/// a customer on each, and lets the two change places if both routes can
/// then carry their loads. Where the loads do not fit, and where fewer than
/// two routes serve customers, nothing is changed.
pub fn perturb(
    solution: &mut Vec<Route>,
    customers: &[Customer],
    dist: &DistanceMatrix,
    capacity: usize,
)
    requires
        instance_wf(customers@, dist@),
        solution_wf(old(solution)@, customers@, dist@, capacity as int),
    ensures
        solution_wf(final(solution)@, customers@, dist@, capacity as int),
        perturbed(views(old(solution)@), views(final(solution)@), customers@, dist@, capacity as int),
        final(solution)@.len() == old(solution)@.len(),
{
    let busy: Vec<usize> = busy_routes(solution);
    proof {
        assert(solution@.len() == solution.len());
        lemma_two_serve(busy@, solution@);
    }
    if busy.len() < 2 {
        return;
    }
    let mut rng = thread_rng();
    let a: usize = random_between(&mut rng, 0, busy.len());
    let among_others: usize = random_between(&mut rng, 0, busy.len() - 1);
    let b: usize = if among_others >= a {
        among_others + 1
    } else {
        among_others
    };
    let v1: usize = busy[a];
    let v2: usize = busy[b];
    proof {
        if a < b {
            assert(busy@[a as int] < busy@[b as int]);
        } else {
            assert(busy@[b as int] < busy@[a as int]);
        }
    }
    let i: usize = random_between(&mut rng, 1, solution[v1].customers.len() - 1);
    let j: usize = random_between(&mut rng, 1, solution[v2].customers.len() - 1);
    let ghost vs = views(solution@);
    proof {
        assert(vs[v1 as int] == solution@[v1 as int]@ && vs[v2 as int] == solution@[v2 as int]@);
        assert(swap_site(vs, v1 as int, i as int, v2 as int, j as int));
    }
    swap_customers(solution, v1, i, v2, j, customers, dist, capacity);
    proof {
        assert(views(solution@) == swap_outcome(
            vs,
            v1 as int,
            i as int,
            v2 as int,
            j as int,
            customers@,
            dist@,
            capacity as int,
        ));
    }
}

} // verus!
