//! The first solution: customers placed one by one, heaviest first, each at
//! its cheapest place.

use crate::chance::{random_between, thread_rng};
use crate::geometry::{entry, Customer, DistanceMatrix};
use crate::insertion::{
    has_slot, is_best_slot, is_slot, lemma_best_slot_exists, place_customer, placed,
};
use crate::instance::{all_fit, find_overload, first_overload, overloads, InstanceError};
use crate::order::{
    demand_order, is_demand_order, lemma_demand_order_unique, lemma_permutation_facts,
    lemma_rotated_permutation, rotate, rotated,
};
use crate::route::{interior, path_cost, path_load, route_wf, Route, RouteView};
use crate::solution::{instance_wf, paths, routes_wf, served, solution_wf, views, visits};
use vstd::multiset::Multiset;
use vstd::prelude::*;

verus! {

/// The routes after the customers of `order` are placed one after the other.
pub open spec fn greedy(
    order: Seq<usize>,
    customers: Seq<Customer>,
    dist: Seq<Vec<u64>>,
    capacity: int,
) -> Seq<Seq<usize>>
    decreases order.len(),
{
    if order.len() == 0 {
        Seq::empty()
    } else {
        placed(greedy(order.drop_last(), customers, dist, capacity), order.last(), customers, dist, capacity)
    }
}

/// A route that serves nobody: from the depot to the depot.
pub open spec fn idle_route() -> RouteView {
    RouteView { stops: seq![0usize, 0usize], load: 0, cost: 0 }
}

/// `vs`, with idle routes added until there are `count` routes.
pub open spec fn padded(vs: Seq<RouteView>, count: int) -> Seq<RouteView> {
    if vs.len() >= count {
        vs
    } else {
        vs + Seq::new((count - vs.len()) as nat, |i: int| idle_route())
    }
}

/// `ps`, with idle tours added until there are `count` tours.
pub open spec fn padded_paths(ps: Seq<Seq<usize>>, count: int) -> Seq<Seq<usize>> {
    if ps.len() >= count {
        ps
    } else {
        ps + Seq::new((count - ps.len()) as nat, |i: int| seq![0usize, 0usize])
    }
}

/// The customers other than the depot, heaviest first.
pub open spec fn heaviest_first(customers: Seq<Customer>) -> Seq<usize> {
    choose|order: Seq<usize>| is_demand_order(order, customers)
}

/// `offset` is a place among the customers, of which there are `n` with the
/// depot; and zero where there is no customer.
pub open spec fn is_offset(offset: int, n: int) -> bool {
    offset == 0 || 0 <= offset < n - 1
}

/// The tours of the first solution that starts its placing at `offset` of the
/// customers taken heaviest first.
pub open spec fn initial_paths(
    customers: Seq<Customer>,
    dist: Seq<Vec<u64>>,
    vehicle_count: int,
    capacity: int,
    offset: int,
) -> Seq<Seq<usize>> {
    padded_paths(
        greedy(rotated(heaviest_first(customers), offset), customers, dist, capacity),
        vehicle_count,
    )
}

/// Placing a customer leaves no route without a customer, where there was
/// none before: the route that takes it grows, and a new route holds it.
pub proof fn lemma_placed_serves(
    ps: Seq<Seq<usize>>,
    c: usize,
    customers: Seq<Customer>,
    dist: Seq<Vec<u64>>,
    capacity: int,
)
    requires
        forall|r: int| 0 <= r < ps.len() ==> (#[trigger] ps[r]).len() >= 3,
    ensures
        ps.len() <= placed(ps, c, customers, dist, capacity).len() <= ps.len() + 1,
        forall|r: int|
            0 <= r < placed(ps, c, customers, dist, capacity).len() ==> (#[trigger] placed(
                ps,
                c,
                customers,
                dist,
                capacity,
            )[r]).len() >= 3,
{
    let next = placed(ps, c, customers, dist, capacity);
    if has_slot(ps, c, customers, capacity) {
        lemma_best_slot_exists(ps, c, customers, dist, capacity);
        let (br, bp) = choose|r: int, p: int| is_best_slot(ps, c, customers, dist, capacity, r, p);
        assert(is_slot(ps, c, customers, capacity, br, bp));
        assert forall|r: int| 0 <= r < next.len() implies (#[trigger] next[r]).len() >= 3 by {
            if r != br {
                assert(next[r] == ps[r]);
            }
        }
    } else {
        assert forall|r: int| 0 <= r < next.len() implies (#[trigger] next[r]).len() >= 3 by {
            if r < ps.len() {
                assert(next[r] == ps[r]);
            }
        }
    }
}

/// Every route that the placing opens serves a customer, and there are no
/// more routes than customers placed.
pub proof fn lemma_greedy_serves(
    order: Seq<usize>,
    customers: Seq<Customer>,
    dist: Seq<Vec<u64>>,
    capacity: int,
)
    ensures
        greedy(order, customers, dist, capacity).len() <= order.len(),
        forall|r: int|
            0 <= r < greedy(order, customers, dist, capacity).len() ==> (#[trigger] greedy(
                order,
                customers,
                dist,
                capacity,
            )[r]).len() >= 3,
    decreases order.len(),
{
    if order.len() > 0 {
        lemma_greedy_serves(order.drop_last(), customers, dist, capacity);
        lemma_placed_serves(
            greedy(order.drop_last(), customers, dist, capacity),
            order.last(),
            customers,
            dist,
            capacity,
        );
    }
}

/// Places the customers of `order`, one after the other, each at its best
/// place among the routes built so far.
pub fn insert_in_order(
    customers: &[Customer],
    dist: &DistanceMatrix,
    capacity: usize,
    order: &Vec<usize>,
) -> (solution: Vec<Route>)
    requires
        instance_wf(customers@, dist@),
        all_fit(customers@, capacity as int),
        order@.no_duplicates(),
        forall|k: int| 0 <= k < order@.len() ==> 1 <= #[trigger] order@[k] < customers@.len(),
    ensures
        routes_wf(solution@, customers@, dist@, capacity as int),
        paths(solution@) == greedy(order@, customers@, dist@, capacity as int),
        served(paths(solution@)) == order@.to_multiset(),
{
    let mut solution: Vec<Route> = Vec::new();
    let mut k: usize = 0;
    proof {
        assert(order@.subrange(0, 0) =~= Seq::<usize>::empty());
        assert(paths(solution@) =~= Seq::<Seq<usize>>::empty());
        vstd::seq_lib::to_multiset_len(Seq::<usize>::empty());
        assert(Seq::<usize>::empty().to_multiset() =~= Multiset::empty());
    }
    while k < order.len()
        invariant
            k <= order@.len(),
            instance_wf(customers@, dist@),
            all_fit(customers@, capacity as int),
            order@.no_duplicates(),
            forall|i: int| 0 <= i < order@.len() ==> 1 <= #[trigger] order@[i] < customers@.len(),
            routes_wf(solution@, customers@, dist@, capacity as int),
            paths(solution@) == greedy(order@.subrange(0, k as int), customers@, dist@, capacity as int),
            served(paths(solution@)) == order@.subrange(0, k as int).to_multiset(),
        decreases order@.len() - k,
    {
        let c: usize = order[k];
        let ghost done = order@.subrange(0, k as int);
        proof {
            vstd::seq_lib::to_multiset_contains(done, c);
            if done.contains(c) {
                let i = choose|i: int| 0 <= i < done.len() && done[i] == c;
                assert(order@[i] == order@[k as int]);
            }
            assert(!overloads(customers@, capacity as int, c as int));
        }
        place_customer(&mut solution, c, customers, dist, capacity);
        proof {
            let next = order@.subrange(0, k + 1);
            assert(next.drop_last() =~= done);
            assert(next.last() == c);
            assert(next =~= done.push(c));
            vstd::seq_lib::to_multiset_build(done, c);
        }
        k = k + 1;
    }
    proof {
        assert(order@.subrange(0, k as int) =~= order@);
    }
    solution
}

/// Adds idle routes until there is one route for each vehicle.
pub fn pad_routes(solution: &mut Vec<Route>, vehicle_count: usize)
    ensures
        views(final(solution)@) == padded(views(old(solution)@), vehicle_count as int),
{
    let ghost before = views(solution@);
    while solution.len() < vehicle_count
        invariant
            solution@.len() >= before.len(),
            before.len() < vehicle_count ==> solution@.len() <= vehicle_count,
            before.len() >= vehicle_count ==> solution@.len() == before.len(),
            views(solution@) == before + Seq::new(
                (solution@.len() - before.len()) as nat,
                |i: int| idle_route(),
            ),
        decreases vehicle_count - solution@.len(),
    {
        let ghost prev = views(solution@);
        let mut stops: Vec<usize> = Vec::new();
        stops.push(0);
        stops.push(0);
        assert(stops@ =~= seq![0usize, 0usize]);
        solution.push(Route { customers: stops, load: 0, cost: 0 });
        proof {
            assert(views(solution@) =~= prev.push(idle_route()));
            assert(views(solution@) =~= before + Seq::new(
                (solution@.len() - before.len()) as nat,
                |i: int| idle_route(),
            ));
        }
    }
    proof {
        assert(views(solution@) =~= padded(before, vehicle_count as int));
    }
}

/// Idle routes are well formed and serve nobody: padding keeps a set of
/// routes well formed and what they serve.
pub proof fn lemma_padded(
    before: Seq<Route>,
    after: Seq<Route>,
    customers: Seq<Customer>,
    dist: Seq<Vec<u64>>,
    capacity: int,
    count: int,
)
    requires
        instance_wf(customers, dist),
        0 <= capacity,
        routes_wf(before, customers, dist, capacity),
        views(after) == padded(views(before), count),
    ensures
        routes_wf(after, customers, dist, capacity),
        paths(after) == padded_paths(paths(before), count),
        served(paths(after)) == served(paths(before)),
    decreases after.len(),
{
    let idle = idle_route();
    assert(views(after).len() == after.len());
    assert(views(before).len() == before.len());
    assert forall|i: int| 0 <= i < after.len() implies route_wf(
        #[trigger] after[i]@,
        customers,
        dist,
        capacity,
    ) by {
        assert(views(after)[i] == after[i]@);
        if i < before.len() {
            assert(views(before)[i] == before[i]@);
        } else {
            assert(after[i]@ == idle);
            lemma_idle(customers, dist);
        }
    }
    assert(paths(after) =~= padded_paths(paths(before), count)) by {
        assert forall|i: int| 0 <= i < after.len() implies paths(after)[i] == padded_paths(
            paths(before),
            count,
        )[i] by {
            assert(views(after)[i] == after[i]@);
            if i < before.len() {
                assert(views(before)[i] == before[i]@);
            }
        }
    }
    lemma_served_padded(paths(before), (after.len() - before.len()) as nat);
    assert(paths(after) =~= paths(before) + Seq::new(
        (after.len() - before.len()) as nat,
        |i: int| seq![0usize, 0usize],
    ));
}

/// An idle tour costs nothing, carries nothing and visits nobody.
pub proof fn lemma_idle(customers: Seq<Customer>, dist: Seq<Vec<u64>>)
    requires
        instance_wf(customers, dist),
    ensures
        path_cost(seq![0usize, 0usize], dist) == 0,
        path_load(seq![0usize, 0usize], customers) == 0,
        visits(seq![0usize, 0usize]) == Multiset::<usize>::empty(),
{
    let path = seq![0usize, 0usize];
    assert(path.drop_last() =~= seq![0usize]);
    assert(path.drop_last().drop_last() =~= Seq::<usize>::empty());
    assert(path_cost(path.drop_last(), dist) == 0);
    assert(entry(dist, 0, 0) == 0);
    assert(path_load(path.drop_last().drop_last(), customers) == 0);
    assert(path_load(path.drop_last(), customers) == 0);
    assert(interior(path) =~= Seq::<usize>::empty());
    vstd::seq_lib::to_multiset_len(Seq::<usize>::empty());
    assert(Seq::<usize>::empty().to_multiset() =~= Multiset::empty());
}

/// Idle tours add nothing to what is served.
proof fn lemma_served_padded(ps: Seq<Seq<usize>>, extra: nat)
    ensures
        served(ps + Seq::new(extra, |i: int| seq![0usize, 0usize])) == served(ps),
    decreases extra,
{
    let all = ps + Seq::new(extra, |i: int| seq![0usize, 0usize]);
    if extra == 0 {
        assert(all =~= ps);
    } else {
        let fewer = ps + Seq::new((extra - 1) as nat, |i: int| seq![0usize, 0usize]);
        lemma_served_padded(ps, (extra - 1) as nat);
        assert(all.drop_last() =~= fewer);
        assert(all.last() == seq![0usize, 0usize]);
        assert(interior(seq![0usize, 0usize]) =~= Seq::<usize>::empty());
        vstd::seq_lib::to_multiset_len(Seq::<usize>::empty());
        assert(Seq::<usize>::empty().to_multiset() =~= Multiset::empty());
        assert(served(all) =~= served(ps));
    }
}

/// The first solution that starts its placing at `offset` of the customers
/// taken heaviest first. It fails where a customer asks for more than a vehicle
/// can carry, and names the first such customer.
pub fn initial_with_offset(
    customers: &[Customer],
    dist: &DistanceMatrix,
    vehicle_count: usize,
    capacity: usize,
    offset: usize,
) -> (r: Result<Vec<Route>, InstanceError>)
    requires
        instance_wf(customers@, dist@),
        offset <= customers@.len() - 1,
    ensures
        r is Ok <==> all_fit(customers@, capacity as int),
        r matches Err(e) ==> (e matches InstanceError::Overloaded { customer } && first_overload(
            customers@,
            capacity as int,
            customer as int,
        )),
        r matches Ok(solution) ==> solution_wf(solution@, customers@, dist@, capacity as int)
            && solution@.len() >= vehicle_count && paths(solution@) == initial_paths(
            customers@,
            dist@,
            vehicle_count as int,
            capacity as int,
            offset as int,
        ),
{
    match find_overload(customers, capacity) {
        Some(customer) => {
            return Err(InstanceError::Overloaded { customer });
        },
        None => {},
    }
    let ghost n = customers@.len() as int;
    let sorted: Vec<usize> = demand_order(customers);
    proof {
        let chosen = heaviest_first(customers@);
        assert(is_demand_order(chosen, customers@));
        lemma_demand_order_unique(sorted@, chosen, customers@);
        lemma_permutation_facts(sorted@, n);
    }
    let order: Vec<usize> = rotate(&sorted, offset);
    proof {
        lemma_rotated_permutation(sorted@, offset as int, n);
        lemma_permutation_facts(order@, n);
    }
    let mut solution: Vec<Route> = insert_in_order(customers, dist, capacity, &order);
    let ghost placed_routes = solution@;
    pad_routes(&mut solution, vehicle_count);
    proof {
        lemma_padded(placed_routes, solution@, customers@, dist@, capacity as int, vehicle_count as int);
    }
    Ok(solution)
}

/// The first solution: the customers are taken heaviest first, the placing
/// starts at a random one of them, and each is put at its cheapest place. It
/// fails where a customer asks for more than a vehicle can carry, and names
/// the first such customer.
pub fn initial_sweep(
    customers: &[Customer],
    dist: &DistanceMatrix,
    vehicle_count: usize,
    capacity: usize,
) -> (r: Result<Vec<Route>, InstanceError>)
    requires
        instance_wf(customers@, dist@),
    ensures
        r is Ok <==> all_fit(customers@, capacity as int),
        r matches Err(e) ==> (e matches InstanceError::Overloaded { customer } && first_overload(
            customers@,
            capacity as int,
            customer as int,
        )),
        r matches Ok(solution) ==> solution_wf(solution@, customers@, dist@, capacity as int)
            && solution@.len() >= vehicle_count && exists|offset: int|
            is_offset(offset, customers@.len() as int) && #[trigger] initial_paths(
                customers@,
                dist@,
                vehicle_count as int,
                capacity as int,
                offset,
            ) == paths(solution@),
{
    let count: usize = customers.len() - 1;
    let offset: usize = if count == 0 {
        0
    } else {
        let mut rng = thread_rng();
        random_between(&mut rng, 0, count)
    };
    initial_with_offset(customers, dist, vehicle_count, capacity, offset)
}

/// The first solution; see `initial_sweep`.
pub fn initial(
    customers: &[Customer],
    dist: &DistanceMatrix,
    vehicle_count: usize,
    capacity: usize,
) -> (r: Result<Vec<Route>, InstanceError>)
    requires
        instance_wf(customers@, dist@),
    ensures
        r is Ok <==> all_fit(customers@, capacity as int),
        r matches Err(e) ==> (e matches InstanceError::Overloaded { customer } && first_overload(
            customers@,
            capacity as int,
            customer as int,
        )),
        r matches Ok(solution) ==> solution_wf(solution@, customers@, dist@, capacity as int)
            && solution@.len() >= vehicle_count && exists|offset: int|
            is_offset(offset, customers@.len() as int) && #[trigger] initial_paths(
                customers@,
                dist@,
                vehicle_count as int,
                capacity as int,
                offset,
            ) == paths(solution@),
{
    initial_sweep(customers, dist, vehicle_count, capacity)
}

} // verus!
