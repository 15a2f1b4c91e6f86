//! The text of an instance: a header with the number of customers, the
//! number of vehicles and their capacity, then one line for the depot and
//! one for each customer, with a demand and two coordinates.

use crate::geometry::Customer;
use crate::number::{coordinate_of, count_of, parse_coordinate, parse_count};
use crate::text::{fields, lines, split_fields, split_lines, texts};
use vstd::prelude::*;

verus! {

/// A problem to solve: the depot and the customers, the number of vehicles
/// and what each can carry.
#[derive(Debug, Clone)]
pub struct Instance {
    pub customers: Vec<Customer>,
    pub vehicle_count: usize,
    pub vehicle_capacity: usize,
}

/// Why a text is not an instance.
#[derive(Debug, Clone, Copy, PartialEq, Eq, Structural)]
pub enum ParseError {
    /// The text has no line.
    Empty,
    /// Line `line`, counted from zero, is not what it should be: it has too
    /// few fields, or one of its first three fields is not the number that
    /// belongs there.
    Malformed { line: usize },
}

/// What a header says: the number of customers, the number of vehicles and
/// their capacity. Fields after the third are not looked at.
pub open spec fn header_of(fs: Seq<Seq<u8>>) -> Option<(usize, usize, usize)> {
    if fs.len() >= 3 && count_of(fs[0]) is Some && count_of(fs[1]) is Some && count_of(fs[2]) is Some {
        Some((count_of(fs[0]).unwrap(), count_of(fs[1]).unwrap(), count_of(fs[2]).unwrap()))
    } else {
        None
    }
}

/// The customer that a line describes: a demand and two coordinates. Fields
/// after the third are not looked at.
pub open spec fn customer_of(fs: Seq<Seq<u8>>, id: usize) -> Option<Customer> {
    if fs.len() >= 3 && count_of(fs[0]) is Some && coordinate_of(fs[1]) is Some && coordinate_of(
        fs[2],
    ) is Some {
        Some(
            Customer {
                id,
                x: coordinate_of(fs[1]).unwrap(),
                y: coordinate_of(fs[2]).unwrap(),
                demand: count_of(fs[0]).unwrap(),
            },
        )
    } else {
        None
    }
}

/// Line `k` is what it should be: a header, for the first line, and a
/// customer, for every other.
pub open spec fn line_ok(ls: Seq<Seq<u8>>, k: int) -> bool {
    if k == 0 {
        header_of(fields(ls[0])) is Some
    } else {
        customer_of(fields(ls[k]), (k - 1) as usize) is Some
    }
}

/// `e` is what is wrong with the text: that it has no line, or its first line
/// that is not what it should be.
pub open spec fn is_parse_defect(text: Seq<u8>, e: ParseError) -> bool {
    match e {
        ParseError::Empty => lines(text).len() == 0,
        ParseError::Malformed { line } => {
            &&& line < lines(text).len()
            &&& !line_ok(lines(text), line as int)
            &&& forall|k: int| 0 <= k < line ==> line_ok(lines(text), k)
        },
    }
}

/// `instance` is what the text says: the vehicles and their capacity as in
/// the header, and the customers as in the lines that follow, numbered from
/// zero in their order. The number of customers in the header is not used:
/// the lines decide.
pub open spec fn is_parsed(text: Seq<u8>, instance: Instance) -> bool {
    let ls = lines(text);
    &&& ls.len() >= 1
    &&& header_of(fields(ls[0])) is Some
    &&& instance.vehicle_count == header_of(fields(ls[0])).unwrap().1
    &&& instance.vehicle_capacity == header_of(fields(ls[0])).unwrap().2
    &&& instance.customers@.len() == ls.len() - 1
    &&& forall|k: int|
        0 <= k < ls.len() - 1 ==> customer_of(fields(ls[k + 1]), k as usize) == Some(
            #[trigger] instance.customers@[k],
        )
}

/// What the header says, if the fields are a header.
pub fn parse_header(parts: &Vec<Vec<u8>>) -> (r: Option<(usize, usize, usize)>)
    ensures
        r == header_of(texts(parts@)),
{
    if parts.len() < 3 {
        return None;
    }
    let customers: usize = match parse_count(parts[0].as_slice()) {
        Some(n) => n,
        None => {
            return None;
        },
    };
    let vehicles: usize = match parse_count(parts[1].as_slice()) {
        Some(n) => n,
        None => {
            return None;
        },
    };
    let capacity: usize = match parse_count(parts[2].as_slice()) {
        Some(n) => n,
        None => {
            return None;
        },
    };
    Some((customers, vehicles, capacity))
}

/// The customer that the fields describe, if they describe one.
pub fn parse_customer(parts: &Vec<Vec<u8>>, id: usize) -> (r: Option<Customer>)
    ensures
        r == customer_of(texts(parts@), id),
{
    if parts.len() < 3 {
        return None;
    }
    let demand: usize = match parse_count(parts[0].as_slice()) {
        Some(n) => n,
        None => {
            return None;
        },
    };
    let x: i32 = match parse_coordinate(parts[1].as_slice()) {
        Some(v) => v,
        None => {
            return None;
        },
    };
    let y: i32 = match parse_coordinate(parts[2].as_slice()) {
        Some(v) => v,
        None => {
            return None;
        },
    };
    Some(Customer { id, x, y, demand })
}

/// Reads an instance from its text. The text is refused if it has no line,
/// and at its first line that is not what it should be.
pub fn parse_instance(text: &[u8]) -> (r: Result<Instance, ParseError>)
    ensures
        r matches Ok(instance) ==> is_parsed(text@, instance),
        r matches Err(e) ==> is_parse_defect(text@, e),
        r is Ok <==> lines(text@).len() >= 1 && forall|k: int|
            0 <= k < lines(text@).len() ==> line_ok(lines(text@), k),
        forall|e: ParseError| #[trigger] is_parse_defect(text@, e) ==> r is Err && r->Err_0 == e,
{
    let r = read_instance(text);
    proof {
        assert forall|e: ParseError| #[trigger] is_parse_defect(text@, e) implies r is Err
            && r->Err_0 == e by {
            match r {
                Ok(_) => {
                    if let ParseError::Malformed { line } = e {
                        assert(line_ok(lines(text@), line as int));
                    }
                },
                Err(found) => {
                    lemma_parse_defect_unique(text@, found, e);
                },
            }
        }
    }
    r
}

/// Reads the lines in their order, up to the first that is not what it
/// should be.
fn read_instance(text: &[u8]) -> (r: Result<Instance, ParseError>)
    ensures
        r matches Ok(instance) ==> is_parsed(text@, instance),
        r matches Err(e) ==> is_parse_defect(text@, e),
        r is Ok <==> lines(text@).len() >= 1 && forall|k: int|
            0 <= k < lines(text@).len() ==> line_ok(lines(text@), k),
{
    let all: Vec<Vec<u8>> = split_lines(text);
    let ghost ls = lines(text@);
    if all.len() == 0 {
        return Err(ParseError::Empty);
    }
    let head: Vec<Vec<u8>> = split_fields(all[0].as_slice());
    proof {
        assert(texts(all@)[0] == all@[0]@);
    }
    assert(texts(head@) == fields(ls[0]));
    let (vehicle_count, vehicle_capacity) = match parse_header(&head) {
        Some((_, vehicles, capacity)) => (vehicles, capacity),
        None => {
            assert(!line_ok(ls, 0));
            return Err(ParseError::Malformed { line: 0 });
        },
    };
    let mut customers: Vec<Customer> = Vec::new();
    let mut k: usize = 1;
    while k < all.len()
        invariant
            1 <= k <= all@.len(),
            ls == lines(text@),
            texts(all@) == ls,
            customers@.len() == k - 1,
            forall|j: int| 0 <= j < k ==> line_ok(ls, j),
            forall|j: int|
                0 <= j < k - 1 ==> customer_of(fields(ls[j + 1]), j as usize) == Some(
                    #[trigger] customers@[j],
                ),
        decreases all@.len() - k,
    {
        let parts: Vec<Vec<u8>> = split_fields(all[k].as_slice());
        proof {
            assert(texts(all@)[k as int] == all@[k as int]@);
        }
        match parse_customer(&parts, k - 1) {
            Some(customer) => {
                customers.push(customer);
                assert(line_ok(ls, k as int));
            },
            None => {
                assert(!line_ok(ls, k as int));
                return Err(ParseError::Malformed { line: k });
            },
        }
        k = k + 1;
    }
    Ok(Instance { customers, vehicle_count, vehicle_capacity })
}

/// A text has at most one defect.
pub proof fn lemma_parse_defect_unique(text: Seq<u8>, e1: ParseError, e2: ParseError)
    requires
        is_parse_defect(text, e1),
        is_parse_defect(text, e2),
    ensures
        e1 == e2,
{
    if let ParseError::Malformed { line: a } = e1 {
        if let ParseError::Malformed { line: b } = e2 {
            if a < b {
                assert(line_ok(lines(text), a as int));
            } else if b < a {
                assert(line_ok(lines(text), b as int));
            }
        }
    }
}

} // verus!
