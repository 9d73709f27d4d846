use extsort::checker::is_sorted;
use extsort::file_reader::{chunk_plan, random_numbers_text, read_from_string};
use extsort::records::{parse_values, render_values};

#[test]
fn test_read_from_string() {
    let data = "5\n7\t2a12 6 3 7 167 3\n7";
    assert_eq!(read_from_string(data), vec![5, 7, 6, 3, 7, 167, 3, 7]);
}

#[test]
fn parses_plus_sign_and_leading_zeros() {
    assert_eq!(parse_values(b"+42 007"), vec![42, 7]);
}

#[test]
fn skips_values_that_overflow() {
    assert_eq!(parse_values(b"4294967296"), Vec::<u32>::new());
    assert_eq!(parse_values(b"4294967295"), vec![4294967295]);
    assert_eq!(parse_values(b"99999999999999999999 1"), vec![1]);
}

#[test]
fn renders_one_record_per_line() {
    assert_eq!(render_values(&[0, 4294967295]), b"0\n4294967295\n".to_vec());
    assert_eq!(render_values(&[]), Vec::<u8>::new());
}

#[test]
fn render_then_parse_round_trips() {
    let values = vec![17, 0, 17, 4294967295, 90000];
    assert_eq!(parse_values(&render_values(&values)), values);
}

#[test]
fn checker_scenarios() {
    assert_eq!(is_sorted(b"1\n2\n2\n5\n"), Some(true));
    assert_eq!(is_sorted(b"2\n1\n3\n"), Some(false));
    assert_eq!(is_sorted(b"x\n"), None);
}

#[test]
fn checker_edge_cases() {
    assert_eq!(is_sorted(b""), None);
    assert_eq!(is_sorted(b"5"), Some(true));
    assert_eq!(is_sorted(b" 5 \n6\n"), Some(true));
    assert_eq!(is_sorted(b"1 2\n"), None);
    assert_eq!(is_sorted(b"3\n3\n"), Some(true));
    assert_eq!(is_sorted(b"\n"), None);
}

#[test]
fn generator_chunk_holds_requested_count() {
    let text = random_numbers_text(5);
    let values = parse_values(&text);
    assert_eq!(values.len(), 5);
    for v in values {
        assert!(v < u32::MAX);
    }
    assert_eq!(parse_values(&random_numbers_text(0)).len(), 0);
}

#[test]
fn chunk_plan_covers_the_request() {
    assert_eq!(chunk_plan(10), (1, 10, 0));
    let (iters, base, rem) = chunk_plan(100_000_000);
    assert_eq!(iters, 2);
    assert_eq!(iters * base + rem, 100_000_000);
    let (iters, base, rem) = chunk_plan(125_000_001);
    assert_eq!(iters, 3);
    assert!(rem < iters);
    assert_eq!(iters * base + rem, 125_000_001);
}
