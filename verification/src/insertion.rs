//! Cheapest insertion: where a customer is put among the routes built so far.

use crate::geometry::{entry, Customer, DistanceMatrix, MAX_DIST};
use crate::route::{
    demand_of, interior, lemma_path_cost_bound, lemma_path_cost_split, lemma_path_load_remove,
    lemma_tour_in_range, lemma_tour_len, path_cost, path_load, route_wf, tour_ok, Route, MAX_NODES,
};
use crate::solution::{
    instance_wf, lemma_served_push, lemma_served_remove, lemma_served_update, lemma_visits_contains,
    lemma_visits_insert, paths, routes_wf, served, visits,
};
use vstd::multiset::Multiset;
use vstd::prelude::*;

verus! {

/// What the route grows by when customer `c` is put before the stop at `pos`.
pub open spec fn marginal(path: Seq<usize>, pos: int, c: usize, dist: Seq<Vec<u64>>) -> int {
    entry(dist, path[pos - 1] as int, c as int) + entry(dist, c as int, path[pos] as int) - entry(
        dist,
        path[pos - 1] as int,
        path[pos] as int,
    )
}

/// Customer `c` may be put before the stop at `p` of route `r`: the route can
/// carry it, and `p` is a place after the first stop.
pub open spec fn is_slot(
    ps: Seq<Seq<usize>>,
    c: usize,
    customers: Seq<Customer>,
    capacity: int,
    r: int,
    p: int,
) -> bool {
    &&& 0 <= r < ps.len()
    &&& path_load(ps[r], customers) + demand_of(customers, c) <= capacity
    &&& 1 <= p < ps[r].len()
}

/// Place `(ra, pa)` is looked at before place `(rb, pb)`.
pub open spec fn earlier(ra: int, pa: int, rb: int, pb: int) -> bool {
    ra < rb || (ra == rb && pa < pb)
}

/// `(r, p)` is the place for `c`: no place is cheaper, and every place that is
/// looked at before it costs more.
pub open spec fn is_best_slot(
    ps: Seq<Seq<usize>>,
    c: usize,
    customers: Seq<Customer>,
    dist: Seq<Vec<u64>>,
    capacity: int,
    r: int,
    p: int,
) -> bool {
    &&& is_slot(ps, c, customers, capacity, r, p)
    &&& forall|rb: int, pb: int| #[trigger]
        is_slot(ps, c, customers, capacity, rb, pb) ==> marginal(ps[r], p, c, dist) <= marginal(
            ps[rb],
            pb,
            c,
            dist,
        ) && (earlier(rb, pb, r, p) ==> marginal(ps[r], p, c, dist) < marginal(ps[rb], pb, c, dist))
}

/// Some route can take customer `c`.
pub open spec fn has_slot(ps: Seq<Seq<usize>>, c: usize, customers: Seq<Customer>, capacity: int) -> bool {
    exists|r: int, p: int| is_slot(ps, c, customers, capacity, r, p)
}

/// The routes after customer `c` is placed: at its best place where a route
/// can take it, and on a new route of its own where none can.
pub open spec fn placed(
    ps: Seq<Seq<usize>>,
    c: usize,
    customers: Seq<Customer>,
    dist: Seq<Vec<u64>>,
    capacity: int,
) -> Seq<Seq<usize>> {
    if has_slot(ps, c, customers, capacity) {
        let (r, p) = choose|r: int, p: int| is_best_slot(ps, c, customers, dist, capacity, r, p);
        ps.update(r, ps[r].insert(p, c))
    } else {
        ps.push(seq![0usize, c, 0usize])
    }
}

/// A customer has one best place.
pub proof fn lemma_best_slot_unique(
    ps: Seq<Seq<usize>>,
    c: usize,
    customers: Seq<Customer>,
    dist: Seq<Vec<u64>>,
    capacity: int,
    ra: int,
    pa: int,
    rb: int,
    pb: int,
)
    requires
        is_best_slot(ps, c, customers, dist, capacity, ra, pa),
        is_best_slot(ps, c, customers, dist, capacity, rb, pb),
    ensures
        ra == rb,
        pa == pb,
{
    assert(is_slot(ps, c, customers, capacity, ra, pa));
    assert(is_slot(ps, c, customers, capacity, rb, pb));
}

/// Putting a customer between two stops costs the two new legs less the leg
/// that they replace.
pub proof fn lemma_path_cost_insert(path: Seq<usize>, dist: Seq<Vec<u64>>, pos: int, c: usize)
    requires
        1 <= pos < path.len(),
    ensures
        path_cost(path.insert(pos, c), dist) == path_cost(path, dist) + marginal(path, pos, c, dist),
{
    let grown = path.insert(pos, c);
    let len = path.len() as int;
    let tail = grown.subrange(pos, len + 1);
    lemma_path_cost_split(grown, dist, pos);
    lemma_path_cost_split(tail, dist, 1);
    lemma_path_cost_split(path, dist, pos);
    assert(grown.subrange(0, pos) =~= path.subrange(0, pos));
    assert(tail.subrange(1, tail.len() as int) =~= path.subrange(pos, len));
    assert(tail.subrange(0, 1).len() == 1);
    assert(path_cost(tail.subrange(0, 1), dist) == 0);
    assert(grown[pos - 1] == path[pos - 1] && grown[pos] == c);
    assert(tail[0] == c && tail[1] == path[pos]);
}

/// Putting a customer into a path adds its demand to the load.
pub proof fn lemma_path_load_insert(path: Seq<usize>, customers: Seq<Customer>, pos: int, c: usize)
    requires
        0 <= pos <= path.len(),
    ensures
        path_load(path.insert(pos, c), customers) == path_load(path, customers) + demand_of(
            customers,
            c,
        ),
{
    let grown = path.insert(pos, c);
    lemma_path_load_remove(grown, customers, pos);
    assert(grown.remove(pos) =~= path);
}

/// A tour with one more customer, which it did not visit, is a tour.
pub proof fn lemma_tour_insert(path: Seq<usize>, n: int, pos: int, c: usize)
    requires
        tour_ok(path, n),
        1 <= pos < path.len(),
        1 <= c < n,
        visits(path).count(c) == 0,
    ensures
        tour_ok(path.insert(pos, c), n),
{
    let grown = path.insert(pos, c);
    lemma_visits_contains(path, c);
    assert forall|k: int| 0 < k < grown.len() - 1 implies 1 <= #[trigger] grown[k] < n by {
        if k < pos {
            assert(grown[k] == path[k]);
        } else if k > pos {
            assert(grown[k] == path[k - 1]);
        }
    }
    assert forall|a: int, b: int| 0 < a < b < grown.len() - 1 implies grown[a] != grown[b] by {
        let aa = if a < pos { a } else { a - 1 };
        let bb = if b < pos { b } else { b - 1 };
        if a == pos {
            assert(grown[b] == path[bb]);
        } else if b == pos {
            assert(grown[a] == path[aa]);
        } else {
            assert(grown[a] == path[aa] && grown[b] == path[bb]);
        }
    }
}

/// Of the places looked at before `(end_r, end_p)`, `(r, p)` is the best, if
/// `found`; and there is none, if not.
pub open spec fn best_so_far(
    ps: Seq<Seq<usize>>,
    c: usize,
    customers: Seq<Customer>,
    dist: Seq<Vec<u64>>,
    capacity: int,
    found: bool,
    r: int,
    p: int,
    end_r: int,
    end_p: int,
) -> bool {
    if found {
        &&& is_slot(ps, c, customers, capacity, r, p)
        &&& earlier(r, p, end_r, end_p)
        &&& forall|rb: int, pb: int| #[trigger]
            is_slot(ps, c, customers, capacity, rb, pb) && earlier(rb, pb, end_r, end_p)
                ==> marginal(ps[r], p, c, dist) <= marginal(ps[rb], pb, c, dist) && (earlier(
                rb,
                pb,
                r,
                p,
            ) ==> marginal(ps[r], p, c, dist) < marginal(ps[rb], pb, c, dist))
    } else {
        forall|rb: int, pb: int| #[trigger]
            is_slot(ps, c, customers, capacity, rb, pb) ==> !earlier(rb, pb, end_r, end_p)
    }
}

/// The best of the places that are looked at before `(end_r, end_p)`, if
/// there is one: the places are gone through in their order, as `find_slot`
/// goes through them.
pub proof fn lemma_best_so_far(
    ps: Seq<Seq<usize>>,
    c: usize,
    customers: Seq<Customer>,
    dist: Seq<Vec<u64>>,
    capacity: int,
    end_r: int,
    end_p: int,
) -> (best: (bool, int, int))
    requires
        0 <= end_r <= ps.len(),
        0 <= end_p,
        end_r < ps.len() ==> end_p <= ps[end_r].len(),
        end_r == ps.len() ==> end_p == 0,
    ensures
        best_so_far(ps, c, customers, dist, capacity, best.0, best.1, best.2, end_r, end_p),
    decreases end_r, end_p,
{
    if end_p > 0 {
        let (found, r, p) = lemma_best_so_far(ps, c, customers, dist, capacity, end_r, end_p - 1);
        let here = marginal(ps[end_r], end_p - 1, c, dist);
        if is_slot(ps, c, customers, capacity, end_r, end_p - 1) && (!found || here < marginal(
            ps[r],
            p,
            c,
            dist,
        )) {
            (true, end_r, end_p - 1)
        } else {
            (found, r, p)
        }
    } else if end_r > 0 {
        lemma_best_so_far(
            ps,
            c,
            customers,
            dist,
            capacity,
            end_r - 1,
            ps[end_r - 1].len() as int,
        )
    } else {
        (false, 0, 0)
    }
}

/// Where a route can take the customer, the customer has a best place.
pub proof fn lemma_best_slot_exists(
    ps: Seq<Seq<usize>>,
    c: usize,
    customers: Seq<Customer>,
    dist: Seq<Vec<u64>>,
    capacity: int,
)
    requires
        has_slot(ps, c, customers, capacity),
    ensures
        exists|r: int, p: int| is_best_slot(ps, c, customers, dist, capacity, r, p),
{
    let (found, r, p) = lemma_best_so_far(ps, c, customers, dist, capacity, ps.len() as int, 0);
    let (sr, sp) = choose|sr: int, sp: int| is_slot(ps, c, customers, capacity, sr, sp);
    assert(is_slot(ps, c, customers, capacity, sr, sp));
    assert(earlier(sr, sp, ps.len() as int, 0));
    assert(found);
    assert(is_best_slot(ps, c, customers, dist, capacity, r, p));
}

/// The best place for customer `c` among the routes, if any route can take it.
#[verifier::loop_isolation(false)]
pub fn find_slot(
    solution: &Vec<Route>,
    c: usize,
    customers: &[Customer],
    dist: &DistanceMatrix,
    capacity: usize,
) -> (found: Option<(usize, usize)>)
    requires
        instance_wf(customers@, dist@),
        routes_wf(solution@, customers@, dist@, capacity as int),
        1 <= c < customers@.len(),
    ensures
        found is None <==> !has_slot(paths(solution@), c, customers@, capacity as int),
        found matches Some((r, p)) ==> is_best_slot(
            paths(solution@),
            c,
            customers@,
            dist@,
            capacity as int,
            r as int,
            p as int,
        ),
{
    let ghost ps = paths(solution@);
    let ghost n = customers@.len() as int;
    let demand: usize = customers[c].demand;
    let mut found: bool = false;
    let mut best_r: usize = 0;
    let mut best_p: usize = 0;
    let mut best_diff: i64 = 0;
    let mut r: usize = 0;
    while r < solution.len()
        invariant
            r <= solution@.len(),
            best_so_far(
                ps,
                c,
                customers@,
                dist@,
                capacity as int,
                found,
                best_r as int,
                best_p as int,
                r as int,
                0,
            ),
            found ==> best_diff == marginal(ps[best_r as int], best_p as int, c, dist@),
        decreases solution@.len() - r,
    {
        let route = &solution[r];
        proof {
            assert(route_wf(solution@[r as int]@, customers@, dist@, capacity as int));
            assert(ps[r as int] == route.customers@);
            lemma_tour_in_range(route.customers@, n);
        }
        if demand <= capacity - route.load {
            let mut pos: usize = 1;
            while pos < route.customers.len()
                invariant
                    1 <= pos <= route.customers@.len(),
                    best_so_far(
                        ps,
                        c,
                        customers@,
                        dist@,
                        capacity as int,
                        found,
                        best_r as int,
                        best_p as int,
                        r as int,
                        pos as int,
                    ),
                    found ==> best_diff == marginal(ps[best_r as int], best_p as int, c, dist@),
                decreases route.customers@.len() - pos,
            {
                let before: usize = route.customers[pos - 1];
                let after: usize = route.customers[pos];
                proof {
                    assert(0 <= entry(dist@, before as int, c as int) <= MAX_DIST);
                    assert(0 <= entry(dist@, c as int, after as int) <= MAX_DIST);
                    assert(0 <= entry(dist@, before as int, after as int)
                        <= MAX_DIST);
                }
                let diff: i64 = (dist[before][c] + dist[c][after]) as i64 - dist[before][after] as i64;
                assert(diff == marginal(ps[r as int], pos as int, c, dist@));
                assert(is_slot(ps, c, customers@, capacity as int, r as int, pos as int));
                if !found || diff < best_diff {
                    found = true;
                    best_diff = diff;
                    best_r = r;
                    best_p = pos;
                }
                pos = pos + 1;
            }
        } else {
            assert forall|pb: int| !is_slot(ps, c, customers@, capacity as int, r as int, pb) by {}
        }
        r = r + 1;
    }
    if found {
        assert(is_best_slot(ps, c, customers@, dist@, capacity as int, best_r as int, best_p as int));
        Some((best_r, best_p))
    } else {
        assert(!has_slot(ps, c, customers@, capacity as int));
        None
    }
}

/// Places customer `c`: at its best place where a route can take it, on a new
/// route of its own where none can.
pub fn place_customer(
    solution: &mut Vec<Route>,
    c: usize,
    customers: &[Customer],
    dist: &DistanceMatrix,
    capacity: usize,
)
    requires
        instance_wf(customers@, dist@),
        routes_wf(old(solution)@, customers@, dist@, capacity as int),
        1 <= c < customers@.len(),
        customers@[c as int].demand <= capacity,
        served(paths(old(solution)@)).count(c) == 0,
    ensures
        routes_wf(final(solution)@, customers@, dist@, capacity as int),
        paths(final(solution)@) == placed(paths(old(solution)@), c, customers@, dist@, capacity as int),
        served(paths(final(solution)@)) == served(paths(old(solution)@)).insert(c),
{
    let ghost before_routes = solution@;
    let ghost ps = paths(solution@);
    let ghost n = customers@.len() as int;
    let demand: usize = customers[c].demand;
    let found = find_slot(solution, c, customers, dist, capacity);
    match found {
        Some((r, p)) => {
            proof {
                let (cr, cp) = choose|cr: int, cp: int|
                    is_best_slot(ps, c, customers@, dist@, capacity as int, cr, cp);
                lemma_best_slot_unique(ps, c, customers@, dist@, capacity as int, r as int, p as int, cr, cp);
                assert(is_slot(ps, c, customers@, capacity as int, r as int, p as int));
                assert(route_wf(solution@[r as int]@, customers@, dist@, capacity as int));
                assert(ps[r as int] == solution@[r as int].customers@);
                lemma_tour_in_range(ps[r as int], n);
            }
            let before: usize = solution[r].customers[p - 1];
            let after: usize = solution[r].customers[p];
            let d1: u64 = dist[before][c];
            let d2: u64 = dist[c][after];
            let d3: u64 = dist[before][after];
            let old_load: usize = solution[r].load;
            let old_cost: u64 = solution[r].cost;
            proof {
                let path = ps[r as int];
                let grown = path.insert(p as int, c);
                lemma_served_remove(ps, r as int);
                lemma_path_cost_insert(path, dist@, p as int, c);
                lemma_path_load_insert(path, customers@, p as int, c);
                lemma_tour_insert(path, n, p as int, c);
                lemma_tour_len(grown, n);
                lemma_tour_in_range(grown, n);
                lemma_path_cost_bound(grown, dist@, n);
                lemma_path_cost_bound(path, dist@, n);
                assert(path_cost(grown, dist@) <= n * MAX_DIST) by (nonlinear_arith)
                    requires
                        path_cost(grown, dist@) <= (grown.len() - 1) * MAX_DIST,
                        grown.len() <= n + 1,
                ;
                assert(n * MAX_DIST <= MAX_NODES
                    * MAX_DIST) by (nonlinear_arith)
                    requires
                        n <= MAX_NODES,
                ;
                assert(old_cost + d1 + d2 - d3 == path_cost(grown, dist@));
            }
            let route = &mut solution[r];
            route.customers.insert(p, c);
            route.load = old_load + demand;
            route.cost = old_cost + d1 + d2 - d3;
            proof {
                let path = ps[r as int];
                let grown = path.insert(p as int, c);
                assert(solution@[r as int].customers@ == grown);
                assert(paths(solution@) =~= ps.update(r as int, grown));
                lemma_served_update(ps, r as int, grown);
                lemma_visits_insert(path, p as int, c);
                assert(served(paths(solution@)) =~= served(ps).insert(c));
                assert forall|i: int| 0 <= i < solution@.len() implies route_wf(
                    #[trigger] solution@[i]@,
                    customers@,
                    dist@,
                    capacity as int,
                ) by {
                    if i != r {
                        assert(solution@[i] == before_routes[i]);
                    }
                }
            }
        },
        None => {
            let leg: u64 = dist[0][c];
            let mut stops: Vec<usize> = Vec::new();
            stops.push(0);
            stops.push(c);
            stops.push(0);
            proof {
                let path = stops@;
                assert(path =~= seq![0usize, c, 0usize]);
                assert(path.drop_last() =~= seq![0usize, c]);
                assert(path.drop_last().drop_last() =~= seq![0usize]);
                assert(path_cost(path.drop_last().drop_last(), dist@) == 0);
                assert(path_cost(path.drop_last(), dist@) == entry(dist@, 0, c as int));
                assert(path_cost(path, dist@) == entry(dist@, 0, c as int) + entry(dist@, c as int, 0));
                assert(path.drop_last().drop_last().drop_last() =~= Seq::<usize>::empty());
                assert(path_load(path.drop_last().drop_last().drop_last(), customers@) == 0);
                assert(path_load(path.drop_last().drop_last(), customers@) == 0);
                assert(path_load(path.drop_last(), customers@) == demand);
                assert(path_load(path, customers@) == demand);
                assert(0 <= entry(dist@, 0, c as int) <= MAX_DIST);
                assert(interior(path) =~= seq![c]);
                assert(seq![c] =~= Seq::<usize>::empty().push(c));
                vstd::seq_lib::to_multiset_build(Seq::<usize>::empty(), c);
                assert(Seq::<usize>::empty().to_multiset() =~= Multiset::empty()) by {
                    vstd::seq_lib::to_multiset_len(Seq::<usize>::empty());
                }
                lemma_served_push(ps, path);
            }
            let route = Route { customers: stops, load: demand, cost: 2 * leg };
            solution.push(route);
            proof {
                assert(paths(solution@) =~= ps.push(seq![0usize, c, 0usize]));
                assert(served(paths(solution@)) =~= served(ps).insert(c));
                assert forall|i: int| 0 <= i < solution@.len() implies route_wf(
                    #[trigger] solution@[i]@,
                    customers@,
                    dist@,
                    capacity as int,
                ) by {
                    if i < before_routes.len() {
                        assert(solution@[i] == before_routes[i]);
                    }
                }
            }
        },
    }
}

} // verus!
