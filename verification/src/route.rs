//! Routes: a vehicle's tour from the depot and back, with its cached load and
//! cost, and the mathematics of both.

use crate::geometry::{dist_wf, entry, Customer, DistanceMatrix, MAX_DIST};
use vstd::prelude::*;

verus! {

/// The largest number of customers, depot included, that an instance may hold.
/// It keeps every sum of distances inside a `u64`.
pub const MAX_NODES: usize = 0x10_0000;

/// One vehicle's tour. `customers` starts and ends with the depot (0);
/// `load` and `cost` cache the demand served and the distance travelled.
#[derive(Debug, Clone)]
pub struct Route {
    pub customers: Vec<usize>,
    pub load: usize,
    pub cost: u64,
}

/// What a route is, as plain values.
pub struct RouteView {
    pub stops: Seq<usize>,
    pub load: int,
    pub cost: int,
}

impl View for Route {
    type V = RouteView;

    open spec fn view(&self) -> RouteView {
        RouteView { stops: self.customers@, load: self.load as int, cost: self.cost as int }
    }
}

/// The distance travelled along `path`: the sum over its consecutive pairs.
pub open spec fn path_cost(path: Seq<usize>, dist: Seq<Vec<u64>>) -> int
    decreases path.len(),
{
    if path.len() < 2 {
        0
    } else {
        path_cost(path.drop_last(), dist) + entry(
            dist,
            path[path.len() - 2] as int,
            path[path.len() - 1] as int,
        )
    }
}

/// What a stop asks for: the customer's demand, and nothing at the depot.
pub open spec fn demand_of(customers: Seq<Customer>, id: usize) -> int {
    if id == 0 {
        0
    } else {
        customers[id as int].demand as int
    }
}

/// The demand served along `path`: the sum over its stops other than the depot.
pub open spec fn path_load(path: Seq<usize>, customers: Seq<Customer>) -> int
    decreases path.len(),
{
    if path.len() == 0 {
        0
    } else {
        path_load(path.drop_last(), customers) + demand_of(customers, path.last())
    }
}

/// The stops of `path` between its two ends.
pub open spec fn interior(path: Seq<usize>) -> Seq<usize> {
    path.subrange(1, path.len() - 1)
}

/// `path` is a tour among `n` customers: it leaves the depot, visits
/// customers other than the depot, none of them twice, and returns.
pub open spec fn tour_ok(path: Seq<usize>, n: int) -> bool {
    &&& path.len() >= 2
    &&& path[0] == 0
    &&& path[path.len() - 1] == 0
    &&& forall|k: int| 0 < k < path.len() - 1 ==> 1 <= #[trigger] path[k] < n
    &&& forall|a: int, b: int| 0 < a < b < path.len() - 1 ==> path[a] != path[b]
}

/// `r` is a tour whose cached load and cost are the true ones, and whose load
/// the vehicle can carry.
pub open spec fn route_wf(
    r: RouteView,
    customers: Seq<Customer>,
    dist: Seq<Vec<u64>>,
    capacity: int,
) -> bool {
    &&& tour_ok(r.stops, customers.len() as int)
    &&& r.load == path_load(r.stops, customers)
    &&& r.load <= capacity
    &&& r.cost == path_cost(r.stops, dist)
}

/// All stops of `path` name a row of an `n` by `n` matrix.
pub open spec fn stops_in_range(path: Seq<usize>, n: int) -> bool {
    forall|k: int| 0 <= k < path.len() ==> 0 <= #[trigger] path[k] < n
}

/// Every stop of a tour, the depot at its ends included, names a customer.
pub proof fn lemma_tour_in_range(path: Seq<usize>, n: int)
    requires
        tour_ok(path, n),
        n >= 1,
    ensures
        stops_in_range(path, n),
{
    assert forall|k: int| 0 <= k < path.len() implies 0 <= #[trigger] path[k] < n by {
        if k == 0 || k == path.len() - 1 {
            assert(path[k] == 0);
        }
    }
}

/// A path of `len` stops costs at most `len - 1` times the largest distance.
pub proof fn lemma_path_cost_bound(path: Seq<usize>, dist: Seq<Vec<u64>>, n: int)
    requires
        dist_wf(dist, n),
        stops_in_range(path, n),
    ensures
        0 <= path_cost(path, dist),
        path.len() >= 1 ==> path_cost(path, dist) <= (path.len() - 1) * MAX_DIST,
        path.len() == 0 ==> path_cost(path, dist) == 0,
    decreases path.len(),
{
    if path.len() >= 2 {
        let rest = path.drop_last();
        assert forall|k: int| 0 <= k < rest.len() implies 0 <= #[trigger] rest[k] < n by {
            assert(rest[k] == path[k]);
        }
        lemma_path_cost_bound(rest, dist, n);
        let a = path[path.len() - 2] as int;
        let b = path[path.len() - 1] as int;
        assert(0 <= entry(dist, a, b) <= MAX_DIST);
        assert((path.len() - 2) * MAX_DIST + MAX_DIST == (path.len() - 1) * MAX_DIST)
            by (nonlinear_arith);
    }
}

/// Cutting a path in two: the cost of the whole is the cost of the parts and
/// of the leg that joins them.
pub proof fn lemma_path_cost_split(path: Seq<usize>, dist: Seq<Vec<u64>>, k: int)
    requires
        0 < k < path.len(),
    ensures
        path_cost(path, dist) == path_cost(path.subrange(0, k), dist) + entry(
            dist,
            path[k - 1] as int,
            path[k] as int,
        ) + path_cost(path.subrange(k, path.len() as int), dist),
    decreases path.len(),
{
    let len = path.len() as int;
    let tail = path.subrange(k, len);
    if k == len - 1 {
        assert(path.subrange(0, k) =~= path.drop_last());
        assert(tail.len() == 1);
    } else {
        let rest = path.drop_last();
        lemma_path_cost_split(rest, dist, k);
        assert(rest.subrange(0, k) =~= path.subrange(0, k));
        assert(rest.subrange(k, len - 1) =~= tail.drop_last());
        assert(tail[tail.len() - 2] == path[len - 2]);
        assert(tail[tail.len() - 1] == path[len - 1]);
    }
}

/// A path costs the same in both directions: travelled from its last stop back
/// to its first, it is as long as from the first to the last.
pub proof fn lemma_path_cost_reverse(path: Seq<usize>, dist: Seq<Vec<u64>>, n: int)
    requires
        dist_wf(dist, n),
        stops_in_range(path, n),
    ensures
        path_cost(path.reverse(), dist) == path_cost(path, dist),
    decreases path.len(),
{
    let len = path.len() as int;
    let back = path.reverse();
    if len >= 2 {
        let rest = path.drop_last();
        assert forall|k: int| 0 <= k < rest.len() implies 0 <= #[trigger] rest[k] < n by {
            assert(rest[k] == path[k]);
        }
        lemma_path_cost_reverse(rest, dist, n);
        lemma_path_cost_split(back, dist, 1);
        assert(back.subrange(1, len) =~= rest.reverse());
        assert(back.subrange(0, 1).len() == 1);
        assert(path_cost(back.subrange(0, 1), dist) == 0);
        assert(back[0] == path[len - 1] && back[1] == path[len - 2]);
        assert(entry(dist, path[len - 1] as int, path[len - 2] as int) == entry(
            dist,
            path[len - 2] as int,
            path[len - 1] as int,
        ));
    } else {
        assert(back.len() == path.len());
    }
}

/// The load of two paths, one after the other, is the sum of their loads.
pub proof fn lemma_path_load_concat(a: Seq<usize>, b: Seq<usize>, customers: Seq<Customer>)
    ensures
        path_load(a + b, customers) == path_load(a, customers) + path_load(b, customers),
    decreases b.len(),
{
    if b.len() == 0 {
        assert(a + b =~= a);
    } else {
        lemma_path_load_concat(a, b.drop_last(), customers);
        assert((a + b).drop_last() =~= a + b.drop_last());
        assert((a + b).last() == b.last());
    }
}

/// Taking one stop out of a path lowers its load by that stop's demand.
pub proof fn lemma_path_load_remove(path: Seq<usize>, customers: Seq<Customer>, k: int)
    requires
        0 <= k < path.len(),
    ensures
        path_load(path, customers) == path_load(path.remove(k), customers) + demand_of(
            customers,
            path[k],
        ),
{
    let len = path.len() as int;
    let head = path.subrange(0, k);
    let one = path.subrange(k, k + 1);
    let tail = path.subrange(k + 1, len);
    assert(path =~= head + one + tail);
    assert(path.remove(k) =~= head + tail);
    lemma_path_load_concat(head + one, tail, customers);
    lemma_path_load_concat(head, one, customers);
    lemma_path_load_concat(head, tail, customers);
    assert(one.drop_last() =~= Seq::<usize>::empty());
    assert(path_load(one, customers) == demand_of(customers, path[k])) by {
        assert(one.last() == path[k]);
        assert(path_load(one.drop_last(), customers) == 0);
    }
}

/// The load of a path does not depend on the order of its stops.
pub proof fn lemma_path_load_permutation(a: Seq<usize>, b: Seq<usize>, customers: Seq<Customer>)
    requires
        a.to_multiset() == b.to_multiset(),
    ensures
        path_load(a, customers) == path_load(b, customers),
    decreases a.len(),
{
    broadcast use vstd::seq_lib::group_to_multiset_ensures;

    vstd::seq_lib::to_multiset_len(a);
    vstd::seq_lib::to_multiset_len(b);
    if a.len() > 0 {
        let x = a.last();
        assert(a.contains(x));
        assert(a.to_multiset().count(x) > 0);
        assert(b.contains(x));
        let k = choose|k: int| 0 <= k < b.len() && b[k] == x;
        assert(a.drop_last() =~= a.remove(a.len() - 1));
        assert(a.drop_last().to_multiset() == b.remove(k).to_multiset());
        lemma_path_load_permutation(a.drop_last(), b.remove(k), customers);
        lemma_path_load_remove(b, customers, k);
    }
}

/// Distinct numbers below `n` are at most `n` many.
pub proof fn lemma_distinct_below(s: Seq<usize>, n: nat)
    requires
        s.no_duplicates(),
        forall|k: int| 0 <= k < s.len() ==> #[trigger] s[k] < n,
    ensures
        s.len() <= n,
    decreases n,
{
    if n == 0 {
        if s.len() > 0 {
            assert(s[0] < n);
        }
    } else {
        let top = (n - 1) as usize;
        if exists|k: int| 0 <= k < s.len() && s[k] == top {
            let k = choose|k: int| 0 <= k < s.len() && s[k] == top;
            let rest = s.remove(k);
            assert forall|i: int| 0 <= i < rest.len() implies #[trigger] rest[i] < n - 1 by {
                if i < k {
                    assert(rest[i] == s[i]);
                    assert(s[i] != s[k]);
                } else {
                    assert(rest[i] == s[i + 1]);
                    assert(s[i + 1] != s[k]);
                }
            }
            assert(rest.no_duplicates()) by {
                assert forall|i: int, j: int|
                    0 <= i < rest.len() && 0 <= j < rest.len() && i != j implies rest[i]
                    != rest[j] by {
                    let ii = if i < k { i } else { i + 1 };
                    let jj = if j < k { j } else { j + 1 };
                    assert(rest[i] == s[ii] && rest[j] == s[jj]);
                }
            }
            lemma_distinct_below(rest, (n - 1) as nat);
        } else {
            assert forall|i: int| 0 <= i < s.len() implies #[trigger] s[i] < n - 1 by {
                assert(s[i] < n);
            }
            lemma_distinct_below(s, (n - 1) as nat);
        }
    }
}

/// A tour among `n` customers has at most `n + 1` stops.
pub proof fn lemma_tour_len(path: Seq<usize>, n: int)
    requires
        tour_ok(path, n),
        n >= 1,
    ensures
        path.len() <= n + 1,
        interior(path).no_duplicates(),
{
    let inner = interior(path);
    assert forall|i: int, j: int| 0 <= i < inner.len() && 0 <= j < inner.len() && i != j implies inner[i]
        != inner[j] by {
        if i < j {
            assert(path[i + 1] != path[j + 1]);
        } else {
            assert(path[j + 1] != path[i + 1]);
        }
    }
    assert forall|k: int| 0 <= k < inner.len() implies 1 <= #[trigger] inner[k] < n by {
        assert(inner[k] == path[k + 1]);
    }
    let shifted = Seq::new(inner.len(), |k: int| (inner[k] - 1) as usize);
    assert(shifted.no_duplicates());
    lemma_distinct_below(shifted, (n - 1) as nat);
}

/// The distance travelled along `route`.
pub fn route_cost(route: &[usize], dist: &DistanceMatrix) -> (cost: u64)
    requires
        dist_wf(dist@, dist@.len() as int),
        stops_in_range(route@, dist@.len() as int),
        route@.len() <= MAX_NODES + 1,
    ensures
        cost == path_cost(route@, dist@),
{
    let len: usize = route.len();
    if len < 2 {
        return 0;
    }
    let mut cost: u64 = 0;
    let mut k: usize = 1;
    proof {
        assert(route@.subrange(0, 1).len() == 1);
    }
    while k < len
        invariant
            len == route@.len(),
            2 <= len <= MAX_NODES + 1,
            1 <= k <= len,
            dist_wf(dist@, dist@.len() as int),
            stops_in_range(route@, dist@.len() as int),
            cost == path_cost(route@.subrange(0, k as int), dist@),
            cost <= (k - 1) * MAX_DIST,
        decreases len - k,
    {
        let a: usize = route[k - 1];
        let b: usize = route[k];
        proof {
            let next = route@.subrange(0, k + 1);
            assert(next.drop_last() =~= route@.subrange(0, k as int));
            assert(next[next.len() - 2] == a && next[next.len() - 1] == b);
            assert(0 <= entry(dist@, a as int, b as int) <= MAX_DIST);
            assert((k - 1) * MAX_DIST + MAX_DIST == k * MAX_DIST) by (nonlinear_arith);
            assert(k * MAX_DIST <= MAX_NODES * MAX_DIST) by (nonlinear_arith)
                requires
                    k <= MAX_NODES,
            ;
        }
        cost = cost + dist[a][b];
        k = k + 1;
    }
    proof {
        assert(route@.subrange(0, len as int) =~= route@);
    }
    cost
}

} // verus!
