//! Customers on an integer grid and the distances between them.
//!
//! Distances are whole numbers of grid steps: the distance of two customers
//! is the integer part of the Euclidean distance of their grid positions.

use vstd::prelude::*;

verus! {

/// A location to serve, with its position in grid steps and what it asks
/// for. The customer at index 0 of an instance is the depot.
#[derive(Debug, Clone, Copy)]
pub struct Customer {
    pub id: usize,
    pub x: i32,
    pub y: i32,
    pub demand: usize,
}

/// `matrix[i][j]` is the distance from customer `i` to customer `j`.
pub type DistanceMatrix = Vec<Vec<u64>>;

/// No distance between two grid positions exceeds this.
pub const MAX_DIST: u64 = 0x2_0000_0000;

/// The absolute difference of two coordinates.
pub open spec fn gap(a: i32, b: i32) -> nat {
    if a >= b {
        (a - b) as nat
    } else {
        (b - a) as nat
    }
}

/// The square of the Euclidean distance of two customers.
pub open spec fn squared_distance(a: Customer, b: Customer) -> nat {
    gap(a.x, b.x) * gap(a.x, b.x) + gap(a.y, b.y) * gap(a.y, b.y)
}

/// `d` is the integer part of the square root of `s`.
pub open spec fn is_floor_root(d: nat, s: nat) -> bool {
    d * d <= s < (d + 1) * (d + 1)
}

/// The entry of a matrix, as a number.
pub open spec fn entry(dist: Seq<Vec<u64>>, i: int, j: int) -> int {
    dist[i]@[j] as int
}

/// `dist` is an `n` by `n` matrix of distances: bounded entries, zero on the
/// diagonal, the same in both directions.
pub open spec fn dist_wf(dist: Seq<Vec<u64>>, n: int) -> bool {
    &&& dist.len() == n
    &&& forall|i: int| 0 <= i < n ==> (#[trigger] dist[i])@.len() == n
    &&& forall|i: int, j: int| 0 <= i < n && 0 <= j < n ==> 0 <= #[trigger] entry(dist, i, j) <= MAX_DIST
    &&& forall|i: int| 0 <= i < n ==> #[trigger] entry(dist, i, i) == 0
    &&& forall|i: int, j: int| 0 <= i < n && 0 <= j < n ==> #[trigger] entry(dist, i, j) == entry(dist, j, i)
}

/// `dist` holds, for every pair of `customers`, the integer part of their
/// Euclidean distance.
pub open spec fn is_euclidean(dist: Seq<Vec<u64>>, customers: Seq<Customer>) -> bool {
    &&& dist.len() == customers.len()
    &&& forall|i: int| 0 <= i < dist.len() ==> (#[trigger] dist[i])@.len() == customers.len()
    &&& forall|i: int, j: int|
        0 <= i < customers.len() && 0 <= j < customers.len() ==> is_floor_root(
            #[trigger] entry(dist, i, j) as nat,
            squared_distance(customers[i], customers[j]),
        )
}

/// A number has one integer square root.
pub proof fn lemma_floor_root_unique(d1: nat, d2: nat, s: nat)
    requires
        is_floor_root(d1, s),
        is_floor_root(d2, s),
    ensures
        d1 == d2,
{
    if d1 < d2 {
        assert((d1 + 1) * (d1 + 1) <= d2 * d2) by (nonlinear_arith)
            requires
                d1 + 1 <= d2,
        ;
    } else if d2 < d1 {
        assert((d2 + 1) * (d2 + 1) <= d1 * d1) by (nonlinear_arith)
            requires
                d2 + 1 <= d1,
        ;
    }
}

/// The integer part of the square root of `s`.
pub fn floor_sqrt(s: u128) -> (d: u64)
    ensures
        is_floor_root(d as nat, s as nat),
{
    let mut lo: u128 = 0;
    let mut hi: u128 = 0x1_0000_0000_0000_0000;
    assert(s < hi * hi) by (nonlinear_arith)
        requires
            hi == 0x1_0000_0000_0000_0000,
            s <= u128::MAX,
    ;
    while hi - lo > 1
        invariant
            lo < hi <= 0x1_0000_0000_0000_0000,
            lo * lo <= s,
            s < hi * hi,
        decreases hi - lo,
    {
        let mid: u128 = lo + (hi - lo) / 2;
        assert(mid * mid <= u128::MAX) by (nonlinear_arith)
            requires
                mid < 0x1_0000_0000_0000_0000,
        ;
        if mid * mid <= s {
            lo = mid;
        } else {
            hi = mid;
        }
    }
    assert(hi == lo + 1);
    lo as u64
}

/// The absolute difference of two coordinates.
fn span(a: i32, b: i32) -> (r: u64)
    ensures
        r == gap(a, b),
        r <= 0xffff_ffff,
{
    if a >= b {
        (a as i64 - b as i64) as u64
    } else {
        (b as i64 - a as i64) as u64
    }
}

/// The distance of two customers: the integer part of their Euclidean
/// distance on the grid.
pub fn euclidean(a: &Customer, b: &Customer) -> (d: u64)
    ensures
        is_floor_root(d as nat, squared_distance(*a, *b)),
        d <= MAX_DIST,
{
    let dx: u64 = span(a.x, b.x);
    let dy: u64 = span(a.y, b.y);
    assert(dx * dx <= 0xffff_ffff * 0xffff_ffff && dy * dy <= 0xffff_ffff * 0xffff_ffff)
        by (nonlinear_arith)
        requires
            dx <= 0xffff_ffff,
            dy <= 0xffff_ffff,
    ;
    let s: u128 = (dx as u128) * (dx as u128) + (dy as u128) * (dy as u128);
    let d: u64 = floor_sqrt(s);
    assert(d <= MAX_DIST) by (nonlinear_arith)
        requires
            d * d <= s,
            s <= 2 * (0xffff_ffff * 0xffff_ffff),
    ;
    d
}

/// The distance of a customer from itself is zero, and distance does not
/// depend on the direction.
pub proof fn lemma_euclidean_metric(a: Customer, b: Customer, dab: nat, dba: nat, daa: nat)
    requires
        is_floor_root(dab, squared_distance(a, b)),
        is_floor_root(dba, squared_distance(b, a)),
        is_floor_root(daa, squared_distance(a, a)),
    ensures
        dab == dba,
        daa == 0,
{
    assert(squared_distance(a, b) == squared_distance(b, a));
    lemma_floor_root_unique(dab, dba, squared_distance(a, b));
    assert(squared_distance(a, a) == 0) by (nonlinear_arith)
        requires
            squared_distance(a, a) == gap(a.x, a.x) * gap(a.x, a.x) + gap(a.y, a.y) * gap(a.y, a.y),
            gap(a.x, a.x) == 0,
            gap(a.y, a.y) == 0,
    ;
    assert(is_floor_root(0, 0)) by {
        assert(0nat * 0nat == 0 && (0nat + 1) * (0nat + 1) == 1) by (nonlinear_arith);
    }
    lemma_floor_root_unique(daa, 0, 0);
}

/// The matrix of the distances between all pairs of `customers`.
pub fn compute_distance_matrix(customers: &[Customer]) -> (dist: DistanceMatrix)
    ensures
        is_euclidean(dist@, customers@),
        dist_wf(dist@, customers@.len() as int),
{
    let n: usize = customers.len();
    let mut dist: DistanceMatrix = Vec::new();
    let mut i: usize = 0;
    while i < n
        invariant
            n == customers@.len(),
            i <= n,
            dist@.len() == i,
            forall|a: int| 0 <= a < i ==> (#[trigger] dist@[a])@.len() == n,
            forall|a: int, b: int|
                0 <= a < i && 0 <= b < n ==> is_floor_root(
                    #[trigger] entry(dist@, a, b) as nat,
                    squared_distance(customers@[a], customers@[b]),
                ),
            forall|a: int, b: int| 0 <= a < i && 0 <= b < n ==> #[trigger] entry(dist@, a, b) <= MAX_DIST,
        decreases n - i,
    {
        let mut row: Vec<u64> = Vec::new();
        let mut j: usize = 0;
        while j < n
            invariant
                n == customers@.len(),
                i < n,
                j <= n,
                row@.len() == j,
                forall|b: int|
                    0 <= b < j ==> is_floor_root(
                        #[trigger] row@[b] as nat,
                        squared_distance(customers@[i as int], customers@[b]),
                    ),
                forall|b: int| 0 <= b < j ==> #[trigger] row@[b] <= MAX_DIST,
            decreases n - j,
        {
            let d: u64 = euclidean(&customers[i], &customers[j]);
            row.push(d);
            j = j + 1;
        }
        let ghost before = dist@;
        dist.push(row);
        proof {
            assert forall|a: int, b: int| 0 <= a < i + 1 && 0 <= b < n implies is_floor_root(
                #[trigger] entry(dist@, a, b) as nat,
                squared_distance(customers@[a], customers@[b]),
            ) && entry(dist@, a, b) <= MAX_DIST by {
                if a < i {
                    assert(dist@[a] == before[a]);
                    assert(entry(dist@, a, b) == entry(before, a, b));
                } else {
                    assert(dist@[a]@ == row@);
                }
            }
        }
        i = i + 1;
    }
    proof {
        assert forall|a: int| 0 <= a < n implies #[trigger] entry(dist@, a, a) == 0 by {
            lemma_euclidean_metric(
                customers@[a],
                customers@[a],
                entry(dist@, a, a) as nat,
                entry(dist@, a, a) as nat,
                entry(dist@, a, a) as nat,
            );
        }
        assert forall|a: int, b: int| 0 <= a < n && 0 <= b < n implies #[trigger] entry(dist@, a, b)
            == entry(dist@, b, a) by {
            assert(is_floor_root(entry(dist@, b, a) as nat, squared_distance(customers@[b], customers@[a])));
            assert(is_floor_root(entry(dist@, a, a) as nat, squared_distance(customers@[a], customers@[a])));
            lemma_euclidean_metric(
                customers@[a],
                customers@[b],
                entry(dist@, a, b) as nat,
                entry(dist@, b, a) as nat,
                entry(dist@, a, a) as nat,
            );
        }
    }
    dist
}

} // verus!
