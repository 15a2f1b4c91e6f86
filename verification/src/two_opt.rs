//! 2-opt: a route is improved by turning parts of it around until no turn
//! shortens it.

use crate::geometry::{dist_wf, Customer, DistanceMatrix};
use crate::route::{
    interior, lemma_path_load_concat, lemma_path_load_permutation, lemma_tour_in_range,
    lemma_tour_len, path_cost, path_load, route_cost, tour_ok, Route, MAX_NODES,
};
use crate::solution::visits;
use vstd::prelude::*;

verus! {

/// `path` with the stops from `i` to `j`, both included, in reverse order.
pub open spec fn reversed(path: Seq<usize>, i: int, j: int) -> Seq<usize> {
    Seq::new(
        path.len(),
        |k: int|
            if i <= k <= j {
                path[i + j - k]
            } else {
                path[k]
            },
    )
}

/// No reversal of a part of `path` between its two ends makes it shorter.
pub open spec fn two_opt_optimal(path: Seq<usize>, dist: Seq<Vec<u64>>) -> bool {
    forall|i: int, j: int|
        1 <= i < j <= path.len() - 2 ==> path_cost(#[trigger] reversed(path, i, j), dist) >= path_cost(
            path,
            dist,
        )
}

/// What the rest of one pass makes of `path`, from the pair of places `(i, j)`
/// on. The pairs are taken in order, `j` running faster than `i`; a reversal
/// is kept at once where it makes the path strictly shorter, and the pairs
/// that follow look at the path as it then is.
pub open spec fn sweep(path: Seq<usize>, i: int, j: int, dist: Seq<Vec<u64>>) -> Seq<usize>
    decreases path.len() - i, path.len() - j,
{
    if i < 1 || j <= i || i >= path.len() - 2 {
        path
    } else if j >= path.len() - 1 {
        sweep(path, i + 1, i + 2, dist)
    } else {
        let turned = reversed(path, i, j);
        let next = if path_cost(turned, dist) < path_cost(path, dist) {
            turned
        } else {
            path
        };
        sweep(next, i, j + 1, dist)
    }
}

/// What passes make of `path`, one after the other, until one changes nothing
/// or `fuel` passes are made.
pub open spec fn passes(path: Seq<usize>, dist: Seq<Vec<u64>>, fuel: nat) -> Seq<usize>
    decreases fuel,
{
    let next = sweep(path, 1, 2, dist);
    if fuel == 0 || next == path {
        path
    } else {
        passes(next, dist, (fuel - 1) as nat)
    }
}

/// What 2-opt makes of `path`: passes until one changes nothing. Every pass
/// that changes the path shortens it by one at least, so its cost is more
/// passes than are ever made.
pub open spec fn two_opt_result(path: Seq<usize>, dist: Seq<Vec<u64>>) -> Seq<usize> {
    passes(path, dist, path_cost(path, dist) as nat)
}

/// No path has a negative cost.
pub proof fn lemma_path_cost_nonnegative(path: Seq<usize>, dist: Seq<Vec<u64>>)
    ensures
        path_cost(path, dist) >= 0,
    decreases path.len(),
{
    if path.len() >= 2 {
        lemma_path_cost_nonnegative(path.drop_last(), dist);
    }
}

/// The rest of a pass keeps the length of the path and never makes it longer;
/// where it changes the path, it makes it strictly shorter.
pub proof fn lemma_sweep(path: Seq<usize>, i: int, j: int, dist: Seq<Vec<u64>>)
    ensures
        sweep(path, i, j, dist).len() == path.len(),
        path_cost(sweep(path, i, j, dist), dist) <= path_cost(path, dist),
        sweep(path, i, j, dist) != path ==> path_cost(sweep(path, i, j, dist), dist) < path_cost(
            path,
            dist,
        ),
    decreases path.len() - i, path.len() - j,
{
    if i < 1 || j <= i || i >= path.len() - 2 {
        // the pass is over
    } else if j >= path.len() - 1 {
        lemma_sweep(path, i + 1, i + 2, dist);
    } else {
        let turned = reversed(path, i, j);
        let next = if path_cost(turned, dist) < path_cost(path, dist) {
            turned
        } else {
            path
        };
        lemma_sweep(next, i, j + 1, dist);
    }
}

/// Passes beyond the cost of a path change nothing: with any two numbers of
/// passes that are both at least its cost, the result is the same.
pub proof fn lemma_passes_fuel(path: Seq<usize>, dist: Seq<Vec<u64>>, f1: nat, f2: nat)
    requires
        f1 >= path_cost(path, dist),
        f2 >= path_cost(path, dist),
    ensures
        passes(path, dist, f1) == passes(path, dist, f2),
    decreases f1,
{
    let next = sweep(path, 1, 2, dist);
    lemma_sweep(path, 1, 2, dist);
    lemma_path_cost_nonnegative(next, dist);
    if next != path {
        lemma_passes_fuel(next, dist, (f1 - 1) as nat, (f2 - 1) as nat);
    }
}

/// Where no reversal shortens a path, no pass changes it.
pub proof fn lemma_sweep_of_optimal(path: Seq<usize>, i: int, j: int, dist: Seq<Vec<u64>>)
    requires
        two_opt_optimal(path, dist),
    ensures
        sweep(path, i, j, dist) == path,
    decreases path.len() - i, path.len() - j,
{
    if i < 1 || j <= i || i >= path.len() - 2 {
        // the pass is over
    } else if j >= path.len() - 1 {
        lemma_sweep_of_optimal(path, i + 1, i + 2, dist);
    } else {
        assert(path_cost(reversed(path, i, j), dist) >= path_cost(path, dist));
        lemma_sweep_of_optimal(path, i, j + 1, dist);
    }
}

/// Where the rest of a pass leaves a path as it is, none of the reversals
/// that it tries shortens the path.
pub proof fn lemma_fixed_sweep(path: Seq<usize>, i: int, j: int, dist: Seq<Vec<u64>>)
    requires
        1 <= i < j,
        sweep(path, i, j, dist) == path,
    ensures
        forall|a: int, b: int|
            1 <= a < b <= path.len() - 2 && (a > i || (a == i && b >= j)) ==> path_cost(
                #[trigger] reversed(path, a, b),
                dist,
            ) >= path_cost(path, dist),
    decreases path.len() - i, path.len() - j,
{
    if i >= path.len() - 2 {
        // no pair is left to try
    } else if j >= path.len() - 1 {
        lemma_fixed_sweep(path, i + 1, i + 2, dist);
    } else {
        let turned = reversed(path, i, j);
        if path_cost(turned, dist) < path_cost(path, dist) {
            lemma_sweep(turned, i, j + 1, dist);
        } else {
            lemma_fixed_sweep(path, i, j + 1, dist);
        }
    }
}

/// Passes, as many as the path costs, end on a path that a pass leaves as it
/// is.
pub proof fn lemma_passes_end(path: Seq<usize>, dist: Seq<Vec<u64>>, fuel: nat)
    requires
        fuel >= path_cost(path, dist),
    ensures
        sweep(passes(path, dist, fuel), 1, 2, dist) == passes(path, dist, fuel),
    decreases fuel,
{
    let next = sweep(path, 1, 2, dist);
    lemma_sweep(path, 1, 2, dist);
    lemma_path_cost_nonnegative(next, dist);
    if next != path {
        lemma_passes_end(next, dist, (fuel - 1) as nat);
    }
}

/// No reversal shortens what 2-opt makes of a path.
pub proof fn lemma_two_opt_result_optimal(path: Seq<usize>, dist: Seq<Vec<u64>>)
    ensures
        two_opt_optimal(two_opt_result(path, dist), dist),
{
    lemma_path_cost_nonnegative(path, dist);
    lemma_passes_end(path, dist, path_cost(path, dist) as nat);
    lemma_fixed_sweep(two_opt_result(path, dist), 1, 2, dist);
}

/// 2-opt changes nothing on a path that no reversal shortens; so 2-opt on
/// what 2-opt made changes nothing, and lowers no cost.
pub proof fn lemma_two_opt_idempotent(path: Seq<usize>, dist: Seq<Vec<u64>>)
    ensures
        two_opt_optimal(path, dist) ==> two_opt_result(path, dist) == path,
        two_opt_result(two_opt_result(path, dist), dist) == two_opt_result(path, dist),
{
    let once = two_opt_result(path, dist);
    lemma_two_opt_result_optimal(path, dist);
    lemma_sweep_of_optimal(once, 1, 2, dist);
    if two_opt_optimal(path, dist) {
        lemma_sweep_of_optimal(path, 1, 2, dist);
    }
}

/// Turning a part of a tour around gives a tour that visits the same
/// customers.
pub proof fn lemma_reversed_tour(path: Seq<usize>, n: int, i: int, j: int)
    requires
        tour_ok(path, n),
        1 <= i <= j <= path.len() - 2,
    ensures
        tour_ok(reversed(path, i, j), n),
        visits(reversed(path, i, j)) == visits(path),
{
    let turned = reversed(path, i, j);
    let len = path.len() as int;
    assert forall|k: int| 0 < k < len - 1 implies 1 <= #[trigger] turned[k] < n by {
        if i <= k <= j {
            assert(turned[k] == path[i + j - k]);
        }
    }
    assert forall|a: int, b: int| 0 < a < b < len - 1 implies turned[a] != turned[b] by {
        let aa = if i <= a <= j { i + j - a } else { a };
        let bb = if i <= b <= j { i + j - b } else { b };
        assert(turned[a] == path[aa] && turned[b] == path[bb]);
        if aa < bb {
            assert(path[aa] != path[bb]);
        } else {
            assert(path[bb] != path[aa]);
        }
    }
    let head = path.subrange(1, i);
    let mid = path.subrange(i, j + 1);
    let tail = path.subrange(j + 1, len - 1);
    assert(interior(path) =~= head + mid + tail);
    assert(interior(turned) =~= head + mid.reverse() + tail);
    mid.lemma_reverse_to_multiset();
    vstd::seq_lib::lemma_multiset_commutative(head, mid);
    vstd::seq_lib::lemma_multiset_commutative(head + mid, tail);
    vstd::seq_lib::lemma_multiset_commutative(head, mid.reverse());
    vstd::seq_lib::lemma_multiset_commutative(head + mid.reverse(), tail);
}

/// Two tours that visit the same customers carry the same load, whatever the
/// customers ask for.
pub proof fn lemma_same_visits_same_load(a: Seq<usize>, b: Seq<usize>, customers: Seq<Customer>)
    requires
        a.len() >= 2,
        b.len() >= 2,
        a[0] == 0 && a[a.len() - 1] == 0,
        b[0] == 0 && b[b.len() - 1] == 0,
        visits(a) == visits(b),
    ensures
        path_load(a, customers) == path_load(b, customers),
{
    lemma_load_of_interior(a, customers);
    lemma_load_of_interior(b, customers);
    lemma_path_load_permutation(interior(a), interior(b), customers);
}

/// The depot asks for nothing: the load of a tour is that of the stops
/// between its ends.
proof fn lemma_load_of_interior(a: Seq<usize>, customers: Seq<Customer>)
    requires
        a.len() >= 2,
        a[0] == 0 && a[a.len() - 1] == 0,
    ensures
        path_load(a, customers) == path_load(interior(a), customers),
{
    let first = a.subrange(0, 1);
    let last = a.subrange(a.len() - 1, a.len() as int);
    assert(a =~= first + interior(a) + last);
    lemma_path_load_concat(first + interior(a), last, customers);
    lemma_path_load_concat(first, interior(a), customers);
    assert(first.drop_last() =~= Seq::<usize>::empty());
    assert(last.drop_last() =~= Seq::<usize>::empty());
    assert(path_load(first.drop_last(), customers) == 0);
    assert(path_load(last.drop_last(), customers) == 0);
    assert(first.last() == 0 && last.last() == 0);
}

/// A copy of `path` with the stops from `i` to `j`, both included, in reverse
/// order.
pub fn reverse_segment(path: &Vec<usize>, i: usize, j: usize) -> (turned: Vec<usize>)
    requires
        i <= j < path@.len(),
    ensures
        turned@ == reversed(path@, i as int, j as int),
{
    let len: usize = path.len();
    let mut turned: Vec<usize> = Vec::new();
    let mut k: usize = 0;
    while k < len
        invariant
            len == path@.len(),
            i <= j < len,
            k <= len,
            turned@.len() == k,
            forall|m: int| 0 <= m < k ==> turned@[m] == reversed(path@, i as int, j as int)[m],
        decreases len - k,
    {
        let stop: usize = if i <= k && k <= j {
            path[j - (k - i)]
        } else {
            path[k]
        };
        turned.push(stop);
        k = k + 1;
    }
    assert(turned@ =~= reversed(path@, i as int, j as int));
    turned
}

/// Improves `route` by reversals until none shortens it. Each pass tries every
/// pair of places between the two ends, in order, and keeps a reversal at once
/// where it makes the route strictly shorter; passes go on until one changes
/// nothing.
#[verifier::loop_isolation(false)]
pub fn two_opt(route: &mut Route, dist: &DistanceMatrix)
    requires
        1 <= dist@.len() <= MAX_NODES,
        dist_wf(dist@, dist@.len() as int),
        tour_ok(old(route).customers@, dist@.len() as int),
        old(route).cost == path_cost(old(route).customers@, dist@),
    ensures
        tour_ok(final(route).customers@, dist@.len() as int),
        final(route).cost == path_cost(final(route).customers@, dist@),
        final(route).cost <= old(route).cost,
        final(route).load == old(route).load,
        final(route).customers@.len() == old(route).customers@.len(),
        visits(final(route).customers@) == visits(old(route).customers@),
        forall|customers: Seq<Customer>| #[trigger]
            path_load(final(route).customers@, customers) == path_load(
                old(route).customers@,
                customers,
            ),
        two_opt_optimal(final(route).customers@, dist@),
        two_opt_optimal(old(route).customers@, dist@) ==> final(route).customers@ == old(
            route,
        ).customers@,
        final(route).customers@ == two_opt_result(old(route).customers@, dist@),
{
    let ghost n = dist@.len() as int;
    let ghost start = route.customers@;
    let len: usize = route.customers.len();
    let mut improved: bool = true;
    while improved
        invariant
            len == route.customers@.len(),
            tour_ok(route.customers@, n),
            route.cost == path_cost(route.customers@, dist@),
            route.cost <= old(route).cost,
            route.load == old(route).load,
            visits(route.customers@) == visits(start),
            two_opt_optimal(start, dist@) ==> route.customers@ == start,
            !improved ==> two_opt_optimal(route.customers@, dist@),
            two_opt_result(start, dist@) == (if improved {
                passes(route.customers@, dist@, route.cost as nat)
            } else {
                route.customers@
            }),
        decreases route.cost, (if improved { 1int } else { 0int }),
    {
        improved = false;
        let ghost pass_start = route.customers@;
        let ghost pass_cost = route.cost;
        let ghost pass_end = sweep(pass_start, 1, 2, dist@);
        let mut i: usize = 1;
        while i < len - 2
            invariant
                1 <= i,
                len == route.customers@.len(),
                tour_ok(route.customers@, n),
                route.cost == path_cost(route.customers@, dist@),
                route.cost <= pass_cost,
                route.load == old(route).load,
                visits(route.customers@) == visits(start),
                two_opt_optimal(start, dist@) ==> route.customers@ == start,
                improved ==> route.cost < pass_cost,
                !improved ==> route.customers@ == pass_start,
                sweep(route.customers@, i as int, i + 1, dist@) == pass_end,
                !improved ==> forall|a: int, b: int|
                    1 <= a < b <= len - 2 && a < i ==> path_cost(
                        #[trigger] reversed(pass_start, a, b),
                        dist@,
                    ) >= pass_cost,
            decreases len - i,
        {
            let mut j: usize = i + 1;
            while j < len - 1
                invariant
                    1 <= i < j,
                    i < len - 2,
                    len == route.customers@.len(),
                    tour_ok(route.customers@, n),
                    route.cost == path_cost(route.customers@, dist@),
                    route.cost <= pass_cost,
                    route.load == old(route).load,
                    visits(route.customers@) == visits(start),
                    two_opt_optimal(start, dist@) ==> route.customers@ == start,
                    improved ==> route.cost < pass_cost,
                    !improved ==> route.customers@ == pass_start,
                    sweep(route.customers@, i as int, j as int, dist@) == pass_end,
                    !improved ==> forall|a: int, b: int|
                        1 <= a < b <= len - 2 && (a < i || (a == i && b < j)) ==> path_cost(
                            #[trigger] reversed(pass_start, a, b),
                            dist@,
                        ) >= pass_cost,
                decreases len - j,
            {
                let new_customers: Vec<usize> = reverse_segment(&route.customers, i, j);
                proof {
                    lemma_reversed_tour(route.customers@, n, i as int, j as int);
                    lemma_tour_len(new_customers@, n);
                    lemma_tour_in_range(new_customers@, n);
                }
                let new_cost: u64 = route_cost(new_customers.as_slice(), dist);
                if new_cost < route.cost {
                    route.customers = new_customers;
                    route.cost = new_cost;
                    improved = true;
                }
                j = j + 1;
            }
            i = i + 1;
        }
        proof {
            assert(route.customers@ == pass_end);
            if improved {
                lemma_path_cost_nonnegative(pass_end, dist@);
                lemma_passes_fuel(pass_end, dist@, (pass_cost - 1) as nat, route.cost as nat);
            }
        }
    }
    proof {
        assert forall|customers: Seq<Customer>| #[trigger]
            path_load(route.customers@, customers) == path_load(start, customers) by {
            lemma_same_visits_same_load(route.customers@, start, customers);
        }
    }
}

} // verus!
