use bencher_core::adapter::{
    chars_of, parse, parse_stdout, to_duration, to_latency, to_u64, AdaptedBenchmark,
    AdapterError, AdapterKind, Latency, Test, Units,
};

fn latency(duration: u64, variance: u64) -> Latency {
    Latency { duration, lower_variance: variance, upper_variance: variance }
}

#[test]
fn ignored() {
    let input = "\nrunning 1 test\ntest tests::ignored ... ignored\n\ntest result: ok. 0 passed; 0 failed; 1 ignored; 0 measured; 0 filtered out; finished in 0.00s\n\n";
    let adapted = parse_stdout(input).unwrap();
    assert!(adapted.is_empty());
}

#[test]
fn test_adapter_rust_zero() {
    let input = "\nrunning 0 tests\n\ntest result: ok. 0 passed; 0 failed; 0 ignored; 0 measured; 0 filtered out; finished in 0.00s\n\n";
    let adapted = parse_stdout(input).unwrap();
    println!("{:?}", adapted);
    assert!(adapted.is_empty());
}

#[test]
fn test_adapter_rust_one() {
    let input = "\nrunning 1 test\ntest tests::benchmark ... bench:       3,161 ns/iter (+/- 975)\n\ntest result: ok. 0 passed; 0 failed; 1 ignored; 1 measured; 0 filtered out; finished in 0.11s\n\n";
    let adapted = parse_stdout(input).unwrap();
    println!("{:?}", adapted);
    assert_eq!(
        adapted,
        vec![AdaptedBenchmark { name: "tests::benchmark".to_string(), latency: latency(3161, 975) }]
    );
}

#[test]
fn test_adapter_rust_two() {
    let input = "\nrunning 2 tests\ntest tests::ignored ... ignored\ntest tests::benchmark ... bench:       3,161 ns/iter (+/- 975)\n\ntest result: ok. 0 passed; 0 failed; 1 ignored; 1 measured; 0 filtered out; finished in 0.11s\n\n";
    let adapted = parse_stdout(input).unwrap();
    println!("{:?}", adapted);
    assert_eq!(
        adapted,
        vec![AdaptedBenchmark { name: "tests::benchmark".to_string(), latency: latency(3161, 975) }]
    );
}

#[test]
fn grouped_nanoseconds_are_normalized() {
    let input = "\nrunning 1 test\ntest a ... bench: 3,161 ns/iter (+/- 975)\n\n";
    let adapted = parse(input).unwrap();
    assert_eq!(adapted[0].latency, latency(3161, 975));
}

#[test]
fn milliseconds_become_nanoseconds() {
    let input = "\nrunning 1 test\ntest a ... bench: 12 ms/iter (+/- 1)\n\n";
    let adapted = parse(input).unwrap();
    assert_eq!(adapted[0].latency, latency(12_000_000, 1_000_000));
}

#[test]
fn microseconds_and_seconds_become_nanoseconds() {
    let input = "\nrunning 2 tests\ntest a ... bench: 7 μs/iter (+/- 2)\ntest b ... bench: 1,000 s/iter (+/- 3)\n\n";
    let adapted = parse(input).unwrap();
    assert_eq!(adapted[0].latency, latency(7_000, 2_000));
    assert_eq!(adapted[1].latency, latency(1_000_000_000_000, 3_000_000_000));
}

#[test]
fn windows_line_endings_are_accepted() {
    let input = "\r\nrunning 1 test\r\ntest a ... bench: 5 ns/iter (+/- 1)\r\n\r\n";
    let adapted = parse(input).unwrap();
    assert_eq!(adapted.len(), 1);
    assert_eq!(adapted[0].name, "a");
}

#[test]
fn repeated_name_keeps_first_position_and_last_value() {
    let input = "\nrunning 3 tests\ntest a ... bench: 1 ns/iter (+/- 0)\ntest b ... bench: 2 ns/iter (+/- 0)\ntest a ... bench: 3 ns/iter (+/- 0)\n\n";
    let adapted = parse(input).unwrap();
    assert_eq!(adapted.len(), 2);
    assert_eq!(adapted[0].name, "a");
    assert_eq!(adapted[0].latency.duration, 3);
    assert_eq!(adapted[1].name, "b");
}

#[test]
fn text_without_preamble_matches_no_adapter() {
    assert_eq!(parse("hello world"), Err(AdapterError::NoMatch));
    assert_eq!(parse(""), Err(AdapterError::NoMatch));
    assert_eq!(parse("\nrunning x tests\n"), Err(AdapterError::NoMatch));
}

#[test]
fn malformed_body_reports_the_unconsumed_text() {
    let input = "\nrunning 1 test\ntest a ... bench: 5 xs/iter (+/- 1)\n\n";
    assert_eq!(
        parse(input),
        Err(AdapterError::Parse("test a ... bench: 5 xs/iter (+/- 1)\n\n".to_string()))
    );
}

#[test]
fn missing_blank_line_is_a_parse_error() {
    let input = "\nrunning 1 test\ntest a ... bench: 5 ns/iter (+/- 1)\n";
    assert_eq!(parse(input), Err(AdapterError::Parse(String::new())));
}

#[test]
fn number_too_large_is_an_error_not_a_panic() {
    let input = "\nrunning 1 test\ntest a ... bench: 99,999,999,999,999,999,999 ns/iter (+/- 1)\n\n";
    assert!(matches!(parse(input), Err(AdapterError::Parse(_))));
    let scaled = "\nrunning 1 test\ntest a ... bench: 18,446,744,074 s/iter (+/- 1)\n\n";
    assert!(matches!(parse(scaled), Err(AdapterError::Parse(_))));
}

#[test]
fn parsing_twice_gives_the_same_result() {
    let input = "\nrunning 2 tests\ntest x ... bench: 10 ns/iter (+/- 1)\ntest y ... ignored\n\n";
    assert_eq!(parse(input), parse(input));
    assert_eq!(AdapterKind::Rust.convert(input), parse(input));
}

#[test]
fn units_are_read_from_their_abbreviation() {
    assert_eq!(Units::from_abbreviation("ns"), Some(Units::Nano));
    assert_eq!(Units::from_abbreviation("μs"), Some(Units::Micro));
    assert_eq!(Units::from_abbreviation("ms"), Some(Units::Milli));
    assert_eq!(Units::from_abbreviation("s"), Some(Units::Sec));
    assert_eq!(Units::from_abbreviation("us"), None);
}

#[test]
fn numbers_drop_their_separators() {
    let cs = chars_of("1,234,567");
    assert_eq!(to_u64(&cs, 0, cs.len()), Some(1_234_567));
    let big = chars_of("18446744073709551616");
    assert_eq!(to_u64(&big, 0, big.len()), None);
    let max = chars_of("18446744073709551615");
    assert_eq!(to_u64(&max, 0, max.len()), Some(u64::MAX));
}

#[test]
fn durations_scale_by_unit() {
    assert_eq!(to_duration(5, &Units::Nano), 5);
    assert_eq!(to_duration(5, &Units::Micro), 5_000);
    assert_eq!(to_duration(5, &Units::Milli), 5_000_000);
    assert_eq!(to_duration(5, &Units::Sec), 5_000_000_000);
}

#[test]
fn ignored_tests_add_no_entry() {
    assert_eq!(to_latency("a".to_string(), Test::Ignored), None);
    let b = to_latency("a".to_string(), Test::Bench(latency(1, 2))).unwrap();
    assert_eq!(b.name, "a");
    assert_eq!(b.latency, latency(1, 2));
}

#[test]
fn benchmarks_come_out_in_name_order() {
    let input = "\nrunning 3 tests\ntest zeta ... bench: 1 ns/iter (+/- 0)\ntest alpha ... bench: 2 ns/iter (+/- 0)\ntest mid ... ignored\ntest beta ... bench: 3 ns/iter (+/- 0)\n\n";
    let names: Vec<String> = parse(input).unwrap().into_iter().map(|b| b.name).collect();
    assert_eq!(names, vec!["alpha", "beta", "zeta"]);
}
