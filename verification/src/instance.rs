//! What makes an instance unusable, and how to find it out.

use crate::geometry::Customer;
use crate::route::MAX_NODES;
use vstd::prelude::*;

verus! {

/// Why an instance cannot be solved.
#[derive(Debug, Clone, Copy, PartialEq, Eq, Structural)]
pub enum InstanceError {
    /// There is no customer at all, so no depot.
    NoDepot,
    /// There are more than `MAX_NODES` customers.
    TooManyCustomers,
    /// The customer at `index` carries another id than its position.
    Misnumbered { index: usize },
    /// `customer` asks for more than one vehicle can carry.
    Overloaded { customer: usize },
}

/// Customer `i` is not the depot and asks for more than `capacity`.
pub open spec fn overloads(customers: Seq<Customer>, capacity: int, i: int) -> bool {
    1 <= i < customers.len() && customers[i].demand > capacity
}

/// No customer asks for more than a vehicle can carry.
pub open spec fn all_fit(customers: Seq<Customer>, capacity: int) -> bool {
    forall|i: int| !overloads(customers, capacity, i)
}

/// `i` is the first customer that asks for more than `capacity`.
pub open spec fn first_overload(customers: Seq<Customer>, capacity: int, i: int) -> bool {
    &&& overloads(customers, capacity, i)
    &&& forall|j: int| j < i ==> !overloads(customers, capacity, j)
}

/// Customer `i` carries another id than its position.
pub open spec fn misnumbered(customers: Seq<Customer>, i: int) -> bool {
    0 <= i < customers.len() && customers[i].id != i
}

/// `i` is the first customer whose id is not its position.
pub open spec fn first_misnumbered(customers: Seq<Customer>, i: int) -> bool {
    &&& misnumbered(customers, i)
    &&& forall|j: int| j < i ==> !misnumbered(customers, j)
}

/// The customers are numbered by position, and there are at least one and at
/// most `MAX_NODES` of them.
pub open spec fn customers_wf(customers: Seq<Customer>) -> bool {
    &&& 1 <= customers.len() <= MAX_NODES
    &&& forall|i: int| !misnumbered(customers, i)
}

/// `e` is what is wrong with the instance: the first that holds of no depot,
/// too many customers, a customer out of place (the first such), a customer
/// too heavy for a vehicle (the first such).
pub open spec fn is_defect(customers: Seq<Customer>, capacity: int, e: InstanceError) -> bool {
    match e {
        InstanceError::NoDepot => customers.len() == 0,
        InstanceError::TooManyCustomers => customers.len() > MAX_NODES,
        InstanceError::Misnumbered { index } => 1 <= customers.len() <= MAX_NODES
            && first_misnumbered(customers, index as int),
        InstanceError::Overloaded { customer } => customers_wf(customers) && first_overload(
            customers,
            capacity,
            customer as int,
        ),
    }
}

/// An instance has at most one defect, and none if it is well formed and
/// every customer fits a vehicle.
pub proof fn lemma_defect_unique(
    customers: Seq<Customer>,
    capacity: int,
    e1: InstanceError,
    e2: InstanceError,
)
    requires
        is_defect(customers, capacity, e1),
    ensures
        is_defect(customers, capacity, e2) ==> e1 == e2,
        !(customers_wf(customers) && all_fit(customers, capacity)),
{
    match e1 {
        InstanceError::Misnumbered { index } => {
            assert(misnumbered(customers, index as int));
            if let InstanceError::Misnumbered { index: other } = e2 {
                if is_defect(customers, capacity, e2) {
                    assert(misnumbered(customers, other as int));
                }
            }
        },
        InstanceError::Overloaded { customer } => {
            assert(overloads(customers, capacity, customer as int));
            if let InstanceError::Overloaded { customer: other } = e2 {
                if is_defect(customers, capacity, e2) {
                    assert(overloads(customers, capacity, other as int));
                }
            }
            if let InstanceError::Misnumbered { index } = e2 {
                if is_defect(customers, capacity, e2) {
                    assert(misnumbered(customers, index as int));
                }
            }
        },
        _ => {},
    }
}

/// The first customer that asks for more than `capacity`, if there is one.
pub fn find_overload(customers: &[Customer], capacity: usize) -> (found: Option<usize>)
    ensures
        found is None <==> all_fit(customers@, capacity as int),
        found matches Some(i) ==> first_overload(customers@, capacity as int, i as int),
{
    let mut i: usize = 1;
    while i < customers.len()
        invariant
            1 <= i,
            forall|j: int| j < i ==> !overloads(customers@, capacity as int, j),
        decreases customers@.len() - i,
    {
        if customers[i].demand > capacity {
            assert(overloads(customers@, capacity as int, i as int));
            return Some(i);
        }
        i = i + 1;
    }
    None
}

/// The first customer whose id is not its position, if there is one.
pub fn find_misnumbered(customers: &[Customer]) -> (found: Option<usize>)
    ensures
        found is None <==> (forall|i: int| !misnumbered(customers@, i)),
        found matches Some(i) ==> first_misnumbered(customers@, i as int),
{
    let mut i: usize = 0;
    while i < customers.len()
        invariant
            forall|j: int| j < i ==> !misnumbered(customers@, j),
        decreases customers@.len() - i,
    {
        if customers[i].id != i {
            assert(misnumbered(customers@, i as int));
            return Some(i);
        }
        i = i + 1;
    }
    None
}

/// Says whether an instance can be solved, and if not, what is wrong with it:
/// the first of no depot, too many customers, a customer out of place, a
/// customer too heavy for a vehicle.
pub fn check_instance(customers: &[Customer], capacity: usize) -> (r: Result<(), InstanceError>)
    ensures
        r is Ok <==> customers_wf(customers@) && all_fit(customers@, capacity as int),
        r matches Err(e) ==> is_defect(customers@, capacity as int, e),
        forall|e: InstanceError| #[trigger]
            is_defect(customers@, capacity as int, e) ==> r == Err::<(), InstanceError>(e),
{
    let r = inspect(customers, capacity);
    proof {
        if let Err(found) = r {
            assert forall|e: InstanceError| is_defect(customers@, capacity as int, e) implies e
                == found by {
                lemma_defect_unique(customers@, capacity as int, found, e);
            }
        } else {
            assert forall|e: InstanceError| !is_defect(customers@, capacity as int, e) by {
                if is_defect(customers@, capacity as int, e) {
                    lemma_defect_unique(customers@, capacity as int, e, e);
                }
            }
        }
    }
    r
}

/// The checks of `check_instance`, in their order.
fn inspect(customers: &[Customer], capacity: usize) -> (r: Result<(), InstanceError>)
    ensures
        r is Ok ==> customers_wf(customers@) && all_fit(customers@, capacity as int),
        r matches Err(e) ==> is_defect(customers@, capacity as int, e),
{
    if customers.len() == 0 {
        return Err(InstanceError::NoDepot);
    }
    if customers.len() > MAX_NODES {
        return Err(InstanceError::TooManyCustomers);
    }
    match find_misnumbered(customers) {
        Some(index) => {
            return Err(InstanceError::Misnumbered { index });
        },
        None => {},
    }
    match find_overload(customers, capacity) {
        Some(customer) => Err(InstanceError::Overloaded { customer }),
        None => Ok(()),
    }
}

} // verus!
