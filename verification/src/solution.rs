//! Solutions: one route per vehicle, every customer on exactly one of them.

use crate::geometry::{dist_wf, Customer, MAX_DIST};
use crate::instance::customers_wf;
use crate::route::{
    interior, lemma_path_cost_bound, lemma_tour_in_range, path_cost, route_wf, Route, RouteView,
    MAX_NODES,
};
use vstd::multiset::Multiset;
use vstd::prelude::*;

verus! {

/// The routes of a solution, as plain values.
pub open spec fn views(routes: Seq<Route>) -> Seq<RouteView> {
    Seq::new(routes.len(), |i: int| routes[i]@)
}

/// The stops of each route of a solution.
pub open spec fn paths(routes: Seq<Route>) -> Seq<Seq<usize>> {
    Seq::new(routes.len(), |i: int| routes[i].customers@)
}

/// The customers that one path visits, each as often as it visits it.
pub open spec fn visits(path: Seq<usize>) -> Multiset<usize> {
    interior(path).to_multiset()
}

/// The customers that the paths visit, each as often as it is visited.
pub open spec fn served(paths: Seq<Seq<usize>>) -> Multiset<usize>
    decreases paths.len(),
{
    if paths.len() == 0 {
        Multiset::empty()
    } else {
        served(paths.drop_last()).add(visits(paths.last()))
    }
}

/// The customers `1, 2, .., n - 1` in this order.
pub open spec fn roster(n: int) -> Seq<usize> {
    Seq::new((n - 1) as nat, |i: int| (i + 1) as usize)
}

/// Every customer of an instance of `n` (the depot is not one), once.
pub open spec fn everyone(n: int) -> Multiset<usize> {
    roster(n).to_multiset()
}

/// The sum of the cached costs of the routes.
pub open spec fn total(routes: Seq<Route>) -> int
    decreases routes.len(),
{
    if routes.len() == 0 {
        0
    } else {
        total(routes.drop_last()) + routes.last().cost
    }
}

/// The customers are well formed and `dist` is a matrix of distances with a
/// row for each of them.
pub open spec fn instance_wf(customers: Seq<Customer>, dist: Seq<Vec<u64>>) -> bool {
    &&& customers_wf(customers)
    &&& dist_wf(dist, customers.len() as int)
}

/// Every route is well formed.
pub open spec fn routes_wf(
    routes: Seq<Route>,
    customers: Seq<Customer>,
    dist: Seq<Vec<u64>>,
    capacity: int,
) -> bool {
    forall|i: int| 0 <= i < routes.len() ==> route_wf(#[trigger] routes[i]@, customers, dist, capacity)
}

/// `routes` solves the instance: every route is well formed, and together
/// they visit every customer exactly once.
pub open spec fn solution_wf(
    routes: Seq<Route>,
    customers: Seq<Customer>,
    dist: Seq<Vec<u64>>,
    capacity: int,
) -> bool {
    &&& routes_wf(routes, customers, dist, capacity)
    &&& served(paths(routes)) == everyone(customers.len() as int)
}

/// A customer is in `everyone(n)` once if it is one of `1 .. n`, and not at all
/// otherwise.
pub proof fn lemma_everyone_count(n: int, x: usize)
    requires
        1 <= n <= usize::MAX,
    ensures
        everyone(n).count(x) == (if 1 <= x < n { 1nat } else { 0nat }),
        everyone(n).len() == n - 1,
{
    broadcast use vstd::seq_lib::group_to_multiset_ensures;

    let all = roster(n);
    vstd::seq_lib::to_multiset_len(all);
    assert(all.no_duplicates());
    all.lemma_multiset_has_no_duplicates();
    if 1 <= x < n {
        assert(all[x - 1] == x);
        assert(all.contains(x));
        assert(all.to_multiset().count(x) > 0);
    } else {
        if all.contains(x) {
            let k = choose|k: int| 0 <= k < all.len() && all[k] == x;
            assert(all[k] == k + 1);
        }
    }
}

/// In a solution every customer is served exactly once, and nothing else is
/// served at all: no customer is left out and none is visited twice.
pub proof fn lemma_each_served_once(
    routes: Seq<Route>,
    customers: Seq<Customer>,
    dist: Seq<Vec<u64>>,
    capacity: int,
    x: usize,
)
    requires
        1 <= customers.len() <= usize::MAX,
        solution_wf(routes, customers, dist, capacity),
    ensures
        1 <= x < customers.len() ==> served(paths(routes)).count(x) == 1,
        !(1 <= x < customers.len()) ==> served(paths(routes)).count(x) == 0,
        served(paths(routes)).len() == customers.len() - 1,
{
    lemma_everyone_count(customers.len() as int, x);
}

/// Adding a route adds its visits.
pub proof fn lemma_served_push(ps: Seq<Seq<usize>>, p: Seq<usize>)
    ensures
        served(ps.push(p)) == served(ps).add(visits(p)),
{
    assert(ps.push(p).drop_last() =~= ps);
}

/// The visits of all routes are those of one route and those of the others.
pub proof fn lemma_served_remove(ps: Seq<Seq<usize>>, r: int)
    requires
        0 <= r < ps.len(),
    ensures
        served(ps) == served(ps.remove(r)).add(visits(ps[r])),
    decreases ps.len(),
{
    if r == ps.len() - 1 {
        assert(ps.remove(r) =~= ps.drop_last());
    } else {
        lemma_served_remove(ps.drop_last(), r);
        assert(ps.remove(r).drop_last() =~= ps.drop_last().remove(r));
        assert(ps.remove(r).last() == ps.last());
        assert(served(ps) =~= served(ps.remove(r)).add(visits(ps[r])));
    }
}

/// Replacing one route replaces its visits: what the others visit stays.
pub proof fn lemma_served_update(ps: Seq<Seq<usize>>, r: int, p: Seq<usize>)
    requires
        0 <= r < ps.len(),
    ensures
        served(ps) == served(ps.remove(r)).add(visits(ps[r])),
        served(ps.update(r, p)) == served(ps.remove(r)).add(visits(p)),
{
    lemma_served_remove(ps, r);
    lemma_served_remove(ps.update(r, p), r);
    assert(ps.update(r, p).remove(r) =~= ps.remove(r));
}

/// A customer is visited by all routes together at least as often as by two
/// different ones of them.
pub proof fn lemma_served_two(ps: Seq<Seq<usize>>, a: int, b: int, x: usize)
    requires
        0 <= a < ps.len(),
        0 <= b < ps.len(),
        a != b,
    ensures
        served(ps).count(x) >= visits(ps[a]).count(x) + visits(ps[b]).count(x),
        served(ps).count(x) >= visits(ps[a]).count(x),
{
    lemma_served_remove(ps, a);
    let rest = ps.remove(a);
    let bb = if b < a { b } else { b - 1 };
    assert(rest[bb] == ps[b]);
    lemma_served_remove(rest, bb);
}

/// Inserting a customer between two stops of a tour adds one visit of it.
pub proof fn lemma_visits_insert(path: Seq<usize>, pos: int, c: usize)
    requires
        1 <= pos <= path.len() - 1,
    ensures
        visits(path.insert(pos, c)) == visits(path).insert(c),
{
    assert(interior(path.insert(pos, c)) =~= interior(path).insert(pos - 1, c));
    vstd::seq_lib::to_multiset_insert(interior(path), pos - 1, c);
}

/// Putting another customer in the place of a stop of a tour trades one visit
/// for another.
pub proof fn lemma_visits_update(path: Seq<usize>, pos: int, c: usize)
    requires
        1 <= pos < path.len() - 1,
    ensures
        visits(path.update(pos, c)) == visits(path).remove(path[pos]).insert(c),
{
    let inner = interior(path);
    assert(interior(path.update(pos, c)) =~= inner.remove(pos - 1).insert(pos - 1, c));
    vstd::seq_lib::to_multiset_remove(inner, pos - 1);
    vstd::seq_lib::to_multiset_insert(inner.remove(pos - 1), pos - 1, c);
}

/// A stop between the ends of a path is among its visits, and every visit is
/// such a stop.
pub proof fn lemma_visits_contains(path: Seq<usize>, x: usize)
    requires
        path.len() >= 2,
    ensures
        visits(path).count(x) > 0 <==> exists|k: int| 0 < k < path.len() - 1 && path[k] == x,
{
    let inner = interior(path);
    vstd::seq_lib::to_multiset_contains(inner, x);
    if inner.contains(x) {
        let k = choose|k: int| 0 <= k < inner.len() && inner[k] == x;
        assert(path[k + 1] == x);
    }
    if exists|k: int| 0 < k < path.len() - 1 && path[k] == x {
        let k = choose|k: int| 0 < k < path.len() - 1 && path[k] == x;
        assert(inner[k - 1] == x);
    }
}

/// A well-formed route with no customer costs nothing, and one with customers
/// costs at most twice the largest distance for each of them.
pub proof fn lemma_route_cost_bound(
    r: RouteView,
    customers: Seq<Customer>,
    dist: Seq<Vec<u64>>,
    capacity: int,
)
    requires
        customers.len() >= 1,
        dist_wf(dist, customers.len() as int),
        route_wf(r, customers, dist, capacity),
    ensures
        0 <= r.cost <= 2 * MAX_DIST * visits(r.stops).len(),
{
    let n = customers.len() as int;
    lemma_tour_in_range(r.stops, n);
    lemma_path_cost_bound(r.stops, dist, n);
    vstd::seq_lib::to_multiset_len(interior(r.stops));
    let v = visits(r.stops).len() as int;
    assert(v == r.stops.len() - 2);
    if v == 0 {
        assert(r.stops.drop_last().len() == 1);
        assert(path_cost(r.stops.drop_last(), dist) == 0);
        assert(r.cost == 0);
    } else {
        assert((v + 1) * MAX_DIST <= 2 * MAX_DIST * v) by (nonlinear_arith)
            requires
                v >= 1,
        ;
    }
}

/// The routes together cost at most twice the largest distance for each visit.
pub proof fn lemma_total_bound(
    routes: Seq<Route>,
    customers: Seq<Customer>,
    dist: Seq<Vec<u64>>,
    capacity: int,
)
    requires
        customers.len() >= 1,
        dist_wf(dist, customers.len() as int),
        routes_wf(routes, customers, dist, capacity),
    ensures
        0 <= total(routes) <= 2 * MAX_DIST * served(paths(routes)).len(),
    decreases routes.len(),
{
    if routes.len() > 0 {
        let rest = routes.drop_last();
        assert forall|i: int| 0 <= i < rest.len() implies route_wf(
            #[trigger] rest[i]@,
            customers,
            dist,
            capacity,
        ) by {
            assert(rest[i] == routes[i]);
        }
        lemma_total_bound(rest, customers, dist, capacity);
        lemma_route_cost_bound(routes.last()@, customers, dist, capacity);
        assert(paths(routes).drop_last() =~= paths(rest));
        assert(paths(routes).last() == routes.last().customers@);
        let a = served(paths(rest)).len() as int;
        let b = visits(routes.last().customers@).len() as int;
        assert(served(paths(routes)).len() == a + b);
        assert(2 * MAX_DIST * a + 2 * MAX_DIST * b == 2 * MAX_DIST * (a + b)) by (nonlinear_arith);
    }
}

/// A solution of an instance costs little enough for a `u64`.
pub proof fn lemma_solution_total(
    routes: Seq<Route>,
    customers: Seq<Customer>,
    dist: Seq<Vec<u64>>,
    capacity: int,
)
    requires
        instance_wf(customers, dist),
        solution_wf(routes, customers, dist, capacity),
    ensures
        0 <= total(routes) <= 2 * MAX_DIST * MAX_NODES,
{
    lemma_total_bound(routes, customers, dist, capacity);
    lemma_everyone_count(customers.len() as int, 0);
    let v = served(paths(routes)).len() as int;
    assert(2 * MAX_DIST * v <= 2 * MAX_DIST * MAX_NODES) by (nonlinear_arith)
        requires
            0 <= v <= MAX_NODES,
    ;
}

/// The sum of the costs of the routes.
pub fn total_cost(solution: &[Route]) -> (cost: u64)
    requires
        total(solution@) <= u64::MAX,
    ensures
        cost == total(solution@),
{
    let mut cost: u64 = 0;
    let mut i: usize = 0;
    while i < solution.len()
        invariant
            i <= solution@.len(),
            cost == total(solution@.subrange(0, i as int)),
            total(solution@) <= u64::MAX,
        decreases solution@.len() - i,
    {
        proof {
            let next = solution@.subrange(0, i + 1);
            assert(next.drop_last() =~= solution@.subrange(0, i as int));
            assert(next.last() == solution@[i as int]);
            lemma_total_prefix(solution@, i + 1);
        }
        cost = cost + solution[i].cost;
        i = i + 1;
    }
    proof {
        assert(solution@.subrange(0, i as int) =~= solution@);
    }
    cost
}

/// Costs are not negative, so a part of the routes costs no more than all.
pub proof fn lemma_total_prefix(routes: Seq<Route>, k: int)
    requires
        0 <= k <= routes.len(),
    ensures
        0 <= total(routes.subrange(0, k)) <= total(routes),
    decreases routes.len(),
{
    if k == routes.len() {
        assert(routes.subrange(0, k) =~= routes);
        if k > 0 {
            lemma_total_prefix(routes.drop_last(), k - 1);
            assert(routes.drop_last().subrange(0, k - 1) =~= routes.drop_last());
        }
    } else {
        lemma_total_prefix(routes.drop_last(), k);
        assert(routes.drop_last().subrange(0, k) =~= routes.subrange(0, k));
    }
}

} // verus!
