//! The text of a solution: its cost, and the stops of each route.

use crate::number::{count_of, GRID};
use crate::route::{Route, RouteView};
use crate::solution::{lemma_total_prefix, total, total_cost, views};
use crate::text::{all_digits, is_digit, value, NEWLINE};
use vstd::prelude::*;

verus! {

/// The digits of a number, without leading zeros.
pub open spec fn decimal(n: nat) -> Seq<u8>
    decreases n,
{
    if n < 10 {
        seq![(48 + n) as u8]
    } else {
        decimal(n / 10).push((48 + n % 10) as u8)
    }
}

/// The thousandths of a cost, as they are written behind the whole units:
/// nothing where there are none, and else a point and their digits without
/// zeros at the end.
pub open spec fn fraction_text(thousandths: nat) -> Seq<u8> {
    let first = (48 + (thousandths / 100) % 10) as u8;
    let second = (48 + (thousandths / 10) % 10) as u8;
    let third = (48 + thousandths % 10) as u8;
    if thousandths % 1000 == 0 {
        Seq::empty()
    } else if thousandths % 100 == 0 {
        seq![46u8, first]
    } else if thousandths % 10 == 0 {
        seq![46u8, first, second]
    } else {
        seq![46u8, first, second, third]
    }
}

/// A cost in units of length, as short as it can be written: the whole
/// units, and the grid steps beyond them as thousandths where there are any.
pub open spec fn cost_text(cost: nat) -> Seq<u8> {
    decimal(cost / 1000) + fraction_text(cost % 1000)
}

/// The stops of a route, with a space between each two.
pub open spec fn stops_text(stops: Seq<usize>) -> Seq<u8>
    decreases stops.len(),
{
    if stops.len() == 0 {
        Seq::empty()
    } else if stops.len() == 1 {
        decimal(stops[0] as nat)
    } else {
        stops_text(stops.drop_last()) + seq![32u8] + decimal(stops.last() as nat)
    }
}

/// One line for each route, with its stops.
pub open spec fn routes_text(vs: Seq<RouteView>) -> Seq<u8>
    decreases vs.len(),
{
    if vs.len() == 0 {
        Seq::empty()
    } else {
        routes_text(vs.drop_last()) + stops_text(vs.last().stops) + seq![NEWLINE]
    }
}

/// The text of a solution: a first line with the cost and a zero, then one
/// line for each route.
pub open spec fn solution_text(vs: Seq<RouteView>, cost: nat) -> Seq<u8> {
    cost_text(cost) + seq![32u8, 48u8, NEWLINE] + routes_text(vs)
}

/// The digits of a number spell that number.
pub proof fn lemma_decimal_value(n: nat)
    ensures
        all_digits(decimal(n)),
        value(decimal(n)) == n,
        decimal(n).len() >= 1,
        n <= usize::MAX ==> count_of(decimal(n)) == Some(n as usize),
    decreases n,
{
    let d = decimal(n);
    if n < 10 {
        assert(d.drop_last() =~= Seq::<u8>::empty());
        assert(value(d.drop_last()) == 0);
        assert(d.last() == 48 + n);
    } else {
        lemma_decimal_value(n / 10);
        assert(d.drop_last() =~= decimal(n / 10));
        assert(d.last() == 48 + n % 10);
        assert forall|k: int| 0 <= k < d.len() implies is_digit(#[trigger] d[k]) by {
            if k < d.len() - 1 {
                assert(d[k] == decimal(n / 10)[k]);
            }
        }
    }
}

/// Appends the digits of a number.
pub fn push_decimal(out: &mut Vec<u8>, n: u64)
    ensures
        final(out)@ == old(out)@ + decimal(n as nat),
    decreases n,
{
    if n >= 10 {
        push_decimal(out, n / 10);
    }
    let digit: u8 = 48 + (n % 10) as u8;
    out.push(digit);
    proof {
        if n >= 10 {
            assert(out@ =~= old(out)@ + decimal((n / 10) as nat).push(digit));
        } else {
            assert(out@ =~= old(out)@ + seq![digit]);
        }
    }
}

/// Appends a cost in units of length, as short as it can be written.
pub fn push_cost(out: &mut Vec<u8>, cost: u64)
    ensures
        final(out)@ == old(out)@ + cost_text(cost as nat),
{
    push_decimal(out, cost / GRID);
    let thousandths: u64 = cost % GRID;
    let ghost whole = out@;
    if thousandths != 0 {
        out.push(46);
        out.push(48 + ((thousandths / 100) % 10) as u8);
        if thousandths % 100 != 0 {
            out.push(48 + ((thousandths / 10) % 10) as u8);
            if thousandths % 10 != 0 {
                out.push(48 + (thousandths % 10) as u8);
            }
        }
    }
    proof {
        assert(out@ =~= whole + fraction_text(thousandths as nat));
        assert(out@ =~= old(out)@ + cost_text(cost as nat));
    }
}

/// Appends the stops of a route, with a space between each two.
pub fn push_stops(out: &mut Vec<u8>, stops: &[usize])
    ensures
        final(out)@ == old(out)@ + stops_text(stops@),
{
    let mut k: usize = 0;
    proof {
        assert(stops@.subrange(0, 0) =~= Seq::<usize>::empty());
        assert(out@ =~= old(out)@ + stops_text(stops@.subrange(0, 0)));
    }
    while k < stops.len()
        invariant
            k <= stops@.len(),
            out@ == old(out)@ + stops_text(stops@.subrange(0, k as int)),
        decreases stops@.len() - k,
    {
        let ghost done = stops@.subrange(0, k as int);
        let ghost next = stops@.subrange(0, k + 1);
        if k > 0 {
            out.push(32);
        }
        push_decimal(out, stops[k] as u64);
        proof {
            assert(next.drop_last() =~= done);
            assert(next.last() == stops@[k as int]);
            if k == 0 {
                assert(stops_text(done) =~= Seq::<u8>::empty());
                assert(out@ =~= old(out)@ + stops_text(next));
            } else {
                assert(out@ =~= old(out)@ + (stops_text(done) + seq![32u8] + decimal(
                    stops@[k as int] as nat,
                )));
            }
        }
        k = k + 1;
    }
    proof {
        assert(stops@.subrange(0, k as int) =~= stops@);
    }
}

/// The text of a solution: a first line with the total cost, in units of
/// length and as short as it can be written, and a zero; then one line for
/// each route, with its stops.
pub fn render_solution(solution: &[Route]) -> (out: Vec<u8>)
    requires
        total(solution@) <= u64::MAX,
    ensures
        out@ == solution_text(views(solution@), total(solution@) as nat),
{
    let mut out: Vec<u8> = Vec::new();
    proof {
        lemma_total_prefix(solution@, 0);
    }
    let cost: u64 = total_cost(solution);
    push_cost(&mut out, cost);
    out.push(32);
    out.push(48);
    out.push(NEWLINE);
    let ghost head = out@;
    proof {
        assert(head =~= cost_text(cost as nat) + seq![32u8, 48u8, NEWLINE]);
        assert(views(solution@).subrange(0, 0) =~= Seq::<RouteView>::empty());
        assert(out@ =~= head + routes_text(views(solution@).subrange(0, 0)));
    }
    let mut r: usize = 0;
    while r < solution.len()
        invariant
            r <= solution@.len(),
            out@ == head + routes_text(views(solution@).subrange(0, r as int)),
        decreases solution@.len() - r,
    {
        let ghost done = views(solution@).subrange(0, r as int);
        let ghost next = views(solution@).subrange(0, r + 1);
        push_stops(&mut out, solution[r].customers.as_slice());
        out.push(NEWLINE);
        proof {
            assert(next.drop_last() =~= done);
            assert(next.last() == solution@[r as int]@);
            assert(out@ =~= head + (routes_text(done) + stops_text(solution@[r as int].customers@)
                + seq![NEWLINE]));
        }
        r = r + 1;
    }
    proof {
        assert(views(solution@).subrange(0, r as int) =~= views(solution@));
    }
    out
}

} // verus!
