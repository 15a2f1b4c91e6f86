//! The order in which the customers are placed: heaviest first, then turned
//! by an offset.

use crate::geometry::Customer;
use crate::solution::{everyone, lemma_everyone_count, roster};
use vstd::prelude::*;

verus! {

/// Customer `a` is placed before customer `b`: it asks for more, or for the
/// same and has the smaller id.
pub open spec fn ranks_before(customers: Seq<Customer>, a: usize, b: usize) -> bool {
    customers[a as int].demand > customers[b as int].demand || (customers[a as int].demand
        == customers[b as int].demand && a < b)
}

/// `order` lists every customer but the depot once.
pub open spec fn is_permutation(order: Seq<usize>, n: int) -> bool {
    order.to_multiset() == everyone(n)
}

/// `order` lists every customer but the depot once, by falling demand, and
/// by rising id among equal demands.
pub open spec fn is_demand_order(order: Seq<usize>, customers: Seq<Customer>) -> bool {
    &&& is_permutation(order, customers.len() as int)
    &&& forall|i: int, j: int| 0 <= i < j < order.len() ==> ranks_before(customers, order[i], order[j])
}

/// `order` turned left by `k`: it starts with what was at `k`, and what stood
/// before `k` follows at the end.
pub open spec fn rotated(order: Seq<usize>, k: int) -> Seq<usize> {
    order.subrange(k, order.len() as int) + order.subrange(0, k)
}

/// A permutation of the customers has one entry for each, all different and
/// none the depot.
pub proof fn lemma_permutation_facts(order: Seq<usize>, n: int)
    requires
        1 <= n <= usize::MAX,
        is_permutation(order, n),
    ensures
        order.len() == n - 1,
        order.no_duplicates(),
        forall|k: int| 0 <= k < order.len() ==> 1 <= #[trigger] order[k] < n,
{
    vstd::seq_lib::to_multiset_len(order);
    lemma_everyone_count(n, 0);
    assert forall|x: usize| order.to_multiset().contains(x) implies order.to_multiset().count(x)
        == 1 by {
        lemma_everyone_count(n, x);
    }
    order.lemma_multiset_has_no_duplicates_conv();
    assert forall|k: int| 0 <= k < order.len() implies 1 <= #[trigger] order[k] < n by {
        let x = order[k];
        assert(order.contains(x));
        vstd::seq_lib::to_multiset_contains(order, x);
        lemma_everyone_count(n, x);
    }
}

/// Turning a permutation gives a permutation.
pub proof fn lemma_rotated_permutation(order: Seq<usize>, k: int, n: int)
    requires
        0 <= k <= order.len(),
        is_permutation(order, n),
    ensures
        is_permutation(rotated(order, k), n),
{
    let head = order.subrange(0, k);
    let tail = order.subrange(k, order.len() as int);
    assert(order =~= head + tail);
    vstd::seq_lib::lemma_multiset_commutative(head, tail);
    vstd::seq_lib::lemma_multiset_commutative(tail, head);
    assert(rotated(order, k).to_multiset() =~= order.to_multiset());
}

/// No two orders of the same customers are both by falling demand.
pub proof fn lemma_demand_order_unique(a: Seq<usize>, b: Seq<usize>, customers: Seq<Customer>)
    requires
        1 <= customers.len() <= usize::MAX,
        is_demand_order(a, customers),
        is_demand_order(b, customers),
    ensures
        a == b,
{
    lemma_sorted_same(a, b, customers);
}

/// What follows the first entry of an order by falling demand is in that
/// order too.
proof fn lemma_tail_order(a: Seq<usize>, customers: Seq<Customer>)
    requires
        a.len() > 0,
        forall|i: int, j: int| 0 <= i < j < a.len() ==> ranks_before(customers, a[i], a[j]),
    ensures
        forall|i: int, j: int|
            0 <= i < j < a.drop_first().len() ==> ranks_before(
                customers,
                a.drop_first()[i],
                a.drop_first()[j],
            ),
{
    assert forall|i: int, j: int| 0 <= i < j < a.drop_first().len() implies ranks_before(
        customers,
        a.drop_first()[i],
        a.drop_first()[j],
    ) by {
        assert(a.drop_first()[i] == a[i + 1]);
        assert(a.drop_first()[j] == a[j + 1]);
    }
}

/// Two sequences of the same entries, both by falling demand, are the same.
proof fn lemma_sorted_same(a: Seq<usize>, b: Seq<usize>, customers: Seq<Customer>)
    requires
        a.to_multiset() == b.to_multiset(),
        forall|i: int, j: int| 0 <= i < j < a.len() ==> ranks_before(customers, a[i], a[j]),
        forall|i: int, j: int| 0 <= i < j < b.len() ==> ranks_before(customers, b[i], b[j]),
    ensures
        a == b,
    decreases a.len(),
{
    vstd::seq_lib::to_multiset_len(a);
    vstd::seq_lib::to_multiset_len(b);
    if a.len() == 0 {
        assert(a =~= b);
    } else {
        let x = a[0];
        let y = b[0];
        vstd::seq_lib::to_multiset_contains(a, y);
        vstd::seq_lib::to_multiset_contains(b, y);
        vstd::seq_lib::to_multiset_contains(a, x);
        vstd::seq_lib::to_multiset_contains(b, x);
        assert(a.contains(x));
        assert(b.contains(y));
        let i = choose|i: int| 0 <= i < b.len() && b[i] == x;
        let j = choose|j: int| 0 <= j < a.len() && a[j] == y;
        if i > 0 && j > 0 {
            assert(ranks_before(customers, b[0], b[i]));
            assert(ranks_before(customers, a[0], a[j]));
        }
        if i > 0 && j == 0 {
            assert(ranks_before(customers, b[0], b[i]));
        }
        if i == 0 && j > 0 {
            assert(ranks_before(customers, a[0], a[j]));
        }
        assert(x == y);
        lemma_tail_order(a, customers);
        lemma_tail_order(b, customers);
        vstd::seq_lib::to_multiset_remove(a, 0);
        vstd::seq_lib::to_multiset_remove(b, 0);
        assert(a.remove(0) =~= a.drop_first());
        assert(b.remove(0) =~= b.drop_first());
        lemma_sorted_same(a.drop_first(), b.drop_first(), customers);
        assert(a =~= seq![x] + a.drop_first());
        assert(b =~= seq![y] + b.drop_first());
    }
}

/// The customers other than the depot, heaviest first; customers of equal
/// demand keep the order of their ids.
pub fn demand_order(customers: &[Customer]) -> (order: Vec<usize>)
    requires
        customers@.len() >= 1,
    ensures
        is_demand_order(order@, customers@),
{
    let n: usize = customers.len();
    let mut order: Vec<usize> = Vec::new();
    let mut id: usize = 1;
    proof {
        assert(order@ =~= roster(1));
    }
    while id < n
        invariant
            n == customers@.len(),
            1 <= id <= n,
            order@.len() == id - 1,
            order@.to_multiset() == everyone(id as int),
            forall|k: int| 0 <= k < order@.len() ==> 1 <= #[trigger] order@[k] < id,
            forall|i: int, j: int|
                0 <= i < j < order@.len() ==> ranks_before(customers@, order@[i], order@[j]),
        decreases n - id,
    {
        let demand: usize = customers[id].demand;
        let mut pos: usize = 0;
        while pos < order.len() && customers[order[pos]].demand >= demand
            invariant
                n == customers@.len(),
                1 <= id < n,
                pos <= order@.len(),
                demand == customers@[id as int].demand,
                forall|k: int| 0 <= k < order@.len() ==> 1 <= #[trigger] order@[k] < id,
                forall|k: int| 0 <= k < pos ==> customers@[#[trigger] order@[k] as int].demand >= demand,
            decreases order@.len() - pos,
        {
            pos = pos + 1;
        }
        let ghost before = order@;
        order.insert(pos, id);
        proof {
            vstd::seq_lib::to_multiset_insert(before, pos as int, id);
            vstd::seq_lib::to_multiset_build(roster(id as int), id);
            assert(roster(id + 1) =~= roster(id as int).push(id));
            assert forall|i: int, j: int| 0 <= i < j < order@.len() implies ranks_before(
                customers@,
                order@[i],
                order@[j],
            ) by {
                if j < pos {
                    assert(order@[i] == before[i] && order@[j] == before[j]);
                } else if j == pos {
                    assert(order@[i] == before[i]);
                    assert(before[i] < id);
                } else if i < pos {
                    assert(order@[i] == before[i] && order@[j] == before[j - 1]);
                } else if i == pos {
                    assert(order@[j] == before[j - 1]);
                    if j - 1 > pos {
                        assert(ranks_before(customers@, before[pos as int], before[j - 1]));
                    }
                } else {
                    assert(order@[i] == before[i - 1] && order@[j] == before[j - 1]);
                }
            }
            assert forall|k: int| 0 <= k < order@.len() implies 1 <= #[trigger] order@[k] < id + 1 by {
                if k < pos {
                    assert(order@[k] == before[k]);
                } else if k > pos {
                    assert(order@[k] == before[k - 1]);
                }
            }
        }
        id = id + 1;
    }
    order
}

/// `order` turned left by `offset`.
pub fn rotate(order: &Vec<usize>, offset: usize) -> (turned: Vec<usize>)
    requires
        offset <= order@.len(),
    ensures
        turned@ == rotated(order@, offset as int),
{
    let len: usize = order.len();
    let mut turned: Vec<usize> = Vec::new();
    let mut k: usize = offset;
    while k < len
        invariant
            len == order@.len(),
            offset <= k <= len,
            turned@ == order@.subrange(offset as int, k as int),
        decreases len - k,
    {
        turned.push(order[k]);
        proof {
            assert(turned@ =~= order@.subrange(offset as int, k + 1));
        }
        k = k + 1;
    }
    let mut k: usize = 0;
    while k < offset
        invariant
            len == order@.len(),
            k <= offset <= len,
            turned@ == order@.subrange(offset as int, len as int) + order@.subrange(0, k as int),
        decreases offset - k,
    {
        turned.push(order[k]);
        proof {
            assert(turned@ =~= order@.subrange(offset as int, len as int) + order@.subrange(
                0,
                k + 1,
            ));
        }
        k = k + 1;
    }
    turned
}

} // verus!
