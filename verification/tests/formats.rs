use cvrp::geometry::compute_distance_matrix;
use cvrp::number::{parse_coordinate, parse_count};
use cvrp::parse::{parse_customer, parse_header, parse_instance, ParseError};
use cvrp::render::{push_cost, push_decimal, push_stops, render_solution};
use cvrp::route::Route;

fn text(bytes: Vec<u8>) -> String {
    String::from_utf8(bytes).unwrap()
}

fn fields(parts: &[&str]) -> Vec<Vec<u8>> {
    parts.iter().map(|p| p.as_bytes().to_vec()).collect()
}

const TRIANGLE: &[u8] = b"3 2 20\n0 0 0\n10 3 4\n15 -3 4\n5 0 -5\n";

#[test]
fn parse_header_reads_three_counts() {
    assert_eq!(parse_header(&fields(&["3", "2", "20"])), Some((3, 2, 20)));
    assert_eq!(parse_header(&fields(&["3", "2", "20", "ignored"])), Some((3, 2, 20)));
    assert_eq!(parse_header(&fields(&["3", "2"])), None);
    assert_eq!(parse_header(&fields(&[])), None);
    assert_eq!(parse_header(&fields(&["3", "2.5", "20"])), None);
    assert_eq!(parse_header(&fields(&["x", "2", "20"])), None);
    assert_eq!(parse_header(&fields(&["3", "2", "-20"])), None);
}

#[test]
fn parse_customer_reads_a_demand_and_two_coordinates() {
    let c = parse_customer(&fields(&["10", "3.5", "-4"]), 7).unwrap();
    assert_eq!((c.id, c.x, c.y, c.demand), (7, 3500, -4000, 10));
    let c = parse_customer(&fields(&["0", "0", "0", "more"]), 0).unwrap();
    assert_eq!((c.id, c.x, c.y, c.demand), (0, 0, 0, 0));
    assert!(parse_customer(&fields(&["10", "3.5"]), 1).is_none());
    assert!(parse_customer(&fields(&["1.5", "3.5", "4"]), 1).is_none());
    assert!(parse_customer(&fields(&["10", "x", "4"]), 1).is_none());
    assert!(parse_customer(&fields(&["10", "4", "1e9"]), 1).is_none());
    let c = parse_customer(&fields(&["+10", "1e2", "-2.5E-1"]), 2).unwrap();
    assert_eq!((c.id, c.x, c.y, c.demand), (2, 100_000, -250, 10));
    assert!(parse_customer(&fields(&["10", "4", "3000000"]), 1).is_none());
}

#[test]
fn parse_instance_reads_the_triangle() {
    let instance = parse_instance(TRIANGLE).unwrap();
    assert_eq!(instance.vehicle_count, 2);
    assert_eq!(instance.vehicle_capacity, 20);
    let read: Vec<(usize, i32, i32, usize)> =
        instance.customers.iter().map(|c| (c.id, c.x, c.y, c.demand)).collect();
    assert_eq!(
        read,
        vec![(0, 0, 0, 0), (1, 3000, 4000, 10), (2, -3000, 4000, 15), (3, 0, -5000, 5)]
    );
    let dist = compute_distance_matrix(&instance.customers);
    assert_eq!(dist[0], vec![0, 5000, 5000, 5000]);
    assert_eq!(dist[1], vec![5000, 0, 6000, 9486]);
}

#[test]
fn parse_instance_takes_fractions_tabs_and_a_missing_last_line_feed() {
    let instance = parse_instance(b"  1\t1   7  \r\n0 0.5 -0.25\r\n7\t 12.125    1.0005").unwrap();
    assert_eq!(instance.vehicle_count, 1);
    assert_eq!(instance.vehicle_capacity, 7);
    let read: Vec<(usize, i32, i32, usize)> =
        instance.customers.iter().map(|c| (c.id, c.x, c.y, c.demand)).collect();
    assert_eq!(read, vec![(0, 500, -250, 0), (1, 12125, 1001, 7)]);
}

#[test]
fn parse_instance_goes_by_the_lines_and_not_by_the_count() {
    let instance = parse_instance(b"99 1 5\n0 0 0\n").unwrap();
    assert_eq!(instance.customers.len(), 1);
    let header_only = parse_instance(b"0 4 5").unwrap();
    assert!(header_only.customers.is_empty());
    assert_eq!(header_only.vehicle_count, 4);
    assert_eq!(header_only.vehicle_capacity, 5);
}

#[test]
fn parse_instance_refuses_a_text_without_lines() {
    assert_eq!(parse_instance(b"").unwrap_err(), ParseError::Empty);
}

#[test]
fn parse_instance_names_the_first_line_that_is_wrong() {
    assert_eq!(parse_instance(b"\n").unwrap_err(), ParseError::Malformed { line: 0 });
    assert_eq!(parse_instance(b"3 2\n0 0 0\n").unwrap_err(), ParseError::Malformed { line: 0 });
    assert_eq!(parse_instance(b"3 two 20\n0 0 0\n").unwrap_err(), ParseError::Malformed { line: 0 });
    assert_eq!(
        parse_instance(b"3 2 20\n0 0 0\n10 x 4\n15 y 4\n").unwrap_err(),
        ParseError::Malformed { line: 2 }
    );
    assert_eq!(
        parse_instance(b"3 2 20\n0 0 0\n10 3 4\n15 -3\n").unwrap_err(),
        ParseError::Malformed { line: 3 }
    );
    assert_eq!(
        parse_instance(b"3 2 20\n0 0 0\n\n10 3 4\n").unwrap_err(),
        ParseError::Malformed { line: 2 }
    );
    assert_eq!(
        parse_instance(b"3 2 20\n0 0 0\n10 3 4\n\n").unwrap_err(),
        ParseError::Malformed { line: 3 }
    );
    assert_eq!(
        parse_instance(b"3 2 20\n-1 0 0\n").unwrap_err(),
        ParseError::Malformed { line: 1 }
    );
    assert_eq!(
        parse_instance(b"3 2 20\n0 0 9999999\n").unwrap_err(),
        ParseError::Malformed { line: 1 }
    );
}

#[test]
fn push_decimal_writes_the_digits() {
    for (n, digits) in [
        (0u64, "0"),
        (7, "7"),
        (9, "9"),
        (10, "10"),
        (42, "42"),
        (100, "100"),
        (1_234_567_890, "1234567890"),
        (u64::MAX, "18446744073709551615"),
    ] {
        let mut out = b"x".to_vec();
        push_decimal(&mut out, n);
        assert_eq!(text(out), format!("x{}", digits));
    }
}

#[test]
fn written_numbers_read_back() {
    for n in [0usize, 1, 9, 10, 99, 100, 4711, 1_000_000, usize::MAX] {
        let mut out = Vec::new();
        push_decimal(&mut out, n as u64);
        assert_eq!(parse_count(&out), Some(n));
    }
    for cost in [0u64, 1, 999, 1000, 1001, 123_456, 2_147_483_647] {
        let mut out = Vec::new();
        push_cost(&mut out, cost);
        assert_eq!(parse_coordinate(&out), Some(cost as i32));
    }
}

#[test]
fn push_cost_writes_whole_units_without_a_point() {
    for (cost, written) in [
        (0u64, "0"),
        (1000, "1"),
        (18_000, "18"),
        (29_000, "29"),
        (100_000, "100"),
        (18_446_744_073_709_551_000, "18446744073709551"),
    ] {
        let mut out = Vec::new();
        push_cost(&mut out, cost);
        assert_eq!(text(out), written);
    }
}

#[test]
fn push_cost_writes_thousandths_without_zeros_at_the_end() {
    for (cost, written) in [
        (5u64, "0.005"),
        (50, "0.05"),
        (500, "0.5"),
        (18, "0.018"),
        (505, "0.505"),
        (550, "0.55"),
        (1001, "1.001"),
        (1010, "1.01"),
        (1100, "1.1"),
        (18_500, "18.5"),
        (29_486, "29.486"),
        (1_234_567, "1234.567"),
        (u64::MAX, "18446744073709551.615"),
    ] {
        let mut out = b">".to_vec();
        push_cost(&mut out, cost);
        assert_eq!(text(out), format!(">{}", written));
    }
}

#[test]
fn push_cost_writes_as_a_float_is_printed() {
    for cost in [0u64, 5, 50, 500, 18, 999, 1000, 1001, 18_000, 18_500, 29_486, 1_234_567, 40_000_125] {
        let mut out = Vec::new();
        push_cost(&mut out, cost);
        assert_eq!(text(out), format!("{}", cost as f64 / 1000.0));
    }
}

#[test]
fn push_stops_puts_a_space_between_stops() {
    let mut out = Vec::new();
    push_stops(&mut out, &[0, 12, 3, 0]);
    assert_eq!(text(out), "0 12 3 0");
    let mut out = b">".to_vec();
    push_stops(&mut out, &[5]);
    assert_eq!(text(out), ">5");
    let mut out = Vec::new();
    push_stops(&mut out, &[]);
    assert_eq!(text(out), "");
}

#[test]
fn render_solution_writes_the_cost_and_the_routes() {
    let routes = vec![
        Route { customers: vec![0, 3, 2, 0], load: 20, cost: 19_486 },
        Route { customers: vec![0, 1, 0], load: 10, cost: 10_000 },
        Route { customers: vec![0, 0], load: 0, cost: 0 },
    ];
    assert_eq!(text(render_solution(&routes)), "29.486 0\n0 3 2 0\n0 1 0\n0 0\n");
}

#[test]
fn render_solution_writes_a_whole_cost_without_a_point() {
    let routes = vec![
        Route { customers: vec![0, 3, 2, 0], load: 20, cost: 12_000 },
        Route { customers: vec![0, 1, 0], load: 10, cost: 6_000 },
    ];
    assert_eq!(text(render_solution(&routes)), "18 0\n0 3 2 0\n0 1 0\n");
}

#[test]
fn render_solution_of_no_routes_is_the_cost_line() {
    assert_eq!(text(render_solution(&[])), "0 0\n");
}
