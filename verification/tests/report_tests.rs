use simple_mcmc::report::{push_decimal, visits_histogram_to_string};
use simple_mcmc::state_map::StateMap;

fn decimal(n: i64) -> String {
    let mut out = String::new();
    push_decimal(&mut out, n);
    out
}

#[test]
fn histogram_renders_one_line_for_each_state() {
    let mut histogram: StateMap<i64> = StateMap::new();
    histogram.insert('a', 2);
    histogram.insert('b', 3);
    histogram.insert('c', 4);
    let text = visits_histogram_to_string(&histogram);
    let lines: Vec<&str> = text.lines().collect();
    assert_eq!(lines.len(), 3);
    assert!(lines.contains(&"a - 2"));
    assert!(lines.contains(&"b - 3"));
    assert!(lines.contains(&"c - 4"));
    assert_eq!(text, "a - 2\nb - 3\nc - 4\n");
}

#[test]
fn histogram_lines_come_in_the_order_of_the_states() {
    let mut histogram: StateMap<i64> = StateMap::new();
    histogram.insert('z', 10);
    histogram.insert(' ', 1);
    histogram.insert('m', 200);
    assert_eq!(visits_histogram_to_string(&histogram), "  - 1\nm - 200\nz - 10\n");
}

#[test]
fn empty_histogram_renders_nothing() {
    let histogram: StateMap<i64> = StateMap::new();
    assert_eq!(visits_histogram_to_string(&histogram), "");
}

#[test]
fn histogram_renders_counts_of_any_size() {
    let mut histogram: StateMap<i64> = StateMap::new();
    histogram.insert('a', 0);
    histogram.insert('b', -7);
    histogram.insert('c', i64::MAX);
    assert_eq!(
        visits_histogram_to_string(&histogram),
        "a - 0\nb - -7\nc - 9223372036854775807\n"
    );
}

#[test]
fn decimal_writes_the_digits() {
    assert_eq!(decimal(0), "0");
    assert_eq!(decimal(7), "7");
    assert_eq!(decimal(10), "10");
    assert_eq!(decimal(109), "109");
    assert_eq!(decimal(1234567890), "1234567890");
    assert_eq!(decimal(i64::MAX), "9223372036854775807");
}

#[test]
fn decimal_writes_a_minus_sign() {
    assert_eq!(decimal(-1), "-1");
    assert_eq!(decimal(-5), "-5");
    assert_eq!(decimal(-120), "-120");
    assert_eq!(decimal(i64::MIN), "-9223372036854775808");
}

#[test]
fn decimal_agrees_with_the_standard_format() {
    for n in [-1001i64, -99, -10, -9, 0, 9, 10, 11, 99, 100, 101, 65535, 1 << 40] {
        assert_eq!(decimal(n), format!("{}", n));
    }
}

#[test]
fn decimal_appends_to_what_is_there() {
    let mut out = String::from("n = ");
    push_decimal(&mut out, 42);
    assert_eq!(out, "n = 42");
}
