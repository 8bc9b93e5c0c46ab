use brc_rs::engine::solve;
use brc_rs::RunError;

#[test]
fn three_records_summary() {
    let input = b"Hamburg;12.0\nHamburg;8.0\nPalma;30.5\n";
    let out = solve(input, 1, 100).unwrap();
    assert_eq!(
        out,
        b"{Hamburg=8.0/10.0/12.0, Palma=30.5/30.5/30.5}\n".to_vec()
    );
}

#[test]
fn empty_input_renders_empty_braces() {
    let out = solve(b"", 1, 16).unwrap();
    assert_eq!(out, b"{}\n".to_vec());
}

#[test]
fn single_record() {
    let out = solve(b"X;-3.0\n", 1, 4).unwrap();
    assert_eq!(out, b"{X=-3.0/-3.0/-3.0}\n".to_vec());
}

#[test]
fn worker_counts_agree() {
    let mut input = Vec::new();
    for i in 0..500u32 {
        input.extend_from_slice(format!("st{};{}.{}\n", i % 37, (i % 90) as i32 - 45, i % 10).as_bytes());
    }
    let one = solve(&input, 1, 256).unwrap();
    for workers in [2usize, 3, 4, 7, 16, 100] {
        let many = solve(&input, workers, 256).unwrap();
        assert_eq!(one, many);
    }
}

#[test]
fn more_workers_than_bytes() {
    let input = b"a;1.0\nb;2.0\n";
    let one = solve(input, 1, 8).unwrap();
    let many = solve(input, 64, 8).unwrap();
    assert_eq!(one, many);
}

#[test]
fn reordered_records_agree() {
    let a = b"B;1.5\nA;-0.5\nB;2.5\nC;9.9\nA;0.5\n";
    let b = b"C;9.9\nA;0.5\nB;2.5\nA;-0.5\nB;1.5\n";
    assert_eq!(solve(a, 1, 16).unwrap(), solve(b, 1, 16).unwrap());
}

#[test]
fn keys_sorted_bytewise() {
    let input = "Zy;1.0\nAb;2.0\n\u{00e9};3.0\nAa;4.0\n".as_bytes();
    let out = solve(input, 1, 16).unwrap();
    let text = String::from_utf8(out).unwrap();
    assert_eq!(text, "{Aa=4.0/4.0/4.0, Ab=2.0/2.0/2.0, Zy=1.0/1.0/1.0, \u{00e9}=3.0/3.0/3.0}\n");
}

#[test]
fn malformed_value_reports_offset() {
    let r = solve(b"Foo;abc\n", 1, 16);
    match r {
        Err(RunError::MalformedRecord { offset }) => assert_eq!(offset, 0),
        other => panic!("expected MalformedRecord, got {:?}", other),
    }
}

#[test]
fn malformed_second_line_offset() {
    let r = solve(b"Ok;1.0\nFoo;abc\n", 1, 16);
    match r {
        Err(RunError::MalformedRecord { offset }) => assert_eq!(offset, 7),
        other => panic!("expected MalformedRecord, got {:?}", other),
    }
}

#[test]
fn missing_terminator_is_malformed() {
    assert!(matches!(
        solve(b"A;1.0", 1, 16),
        Err(RunError::MalformedRecord { .. })
    ));
}

#[test]
fn missing_separator_is_malformed() {
    assert!(matches!(
        solve(b"A1.0\n", 1, 16),
        Err(RunError::MalformedRecord { .. })
    ));
    assert!(matches!(
        solve(b"A\nB;1.0\n", 1, 16),
        Err(RunError::MalformedRecord { offset: 0 })
    ));
}

fn distinct_input(n: usize) -> Vec<u8> {
    let mut input = Vec::new();
    for i in 0..n {
        input.extend_from_slice(format!("key{:06};{}.{}\n", i, (i % 100) as i32 - 50, i % 10).as_bytes());
    }
    input
}

#[test]
fn capacity_admits_9999_distinct_keys() {
    let input = distinct_input(9999);
    assert!(solve(&input, 1, 10000).is_ok());
}

#[test]
fn capacity_exceeded_at_10001_distinct_keys() {
    let input = distinct_input(10001);
    match solve(&input, 1, 10000) {
        Err(RunError::CapacityExceeded { distinct, .. }) => assert_eq!(distinct, 10000),
        other => panic!("expected CapacityExceeded, got {:?}", other.map(|v| v.len())),
    }
}

#[test]
fn capacity_error_agrees_across_worker_counts() {
    let input = distinct_input(40);
    for workers in [1usize, 3, 8] {
        assert!(matches!(
            solve(&input, workers, 32),
            Err(RunError::CapacityExceeded { .. })
        ));
    }
}

#[test]
fn average_rounds_half_away_from_zero() {
    // 1.0 and 1.1 average to 1.05, rendered 1.1
    let out = solve(b"K;1.0\nK;1.1\n", 1, 4).unwrap();
    assert_eq!(out, b"{K=1.0/1.1/1.1}\n".to_vec());
    // -1.0 and -1.1 average to -1.05, rendered -1.1
    let out = solve(b"K;-1.0\nK;-1.1\n", 1, 4).unwrap();
    assert_eq!(out, b"{K=-1.1/-1.1/-1.0}\n".to_vec());
}

#[test]
fn extreme_values() {
    let out = solve(b"K;-999.9\nK;999.9\n", 1, 4).unwrap();
    assert_eq!(out, b"{K=-999.9/0.0/999.9}\n".to_vec());
}
