use brc_rs::fixed::{parse_temperature, render_fixed, avg_scaled};
use brc_rs::scan::next_record;
use brc_rs::table::{FixedSizeMap, fnv_hash, bytes_eq};
use brc_rs::report::{sort_keys, lex_less};
use brc_rs::engine::{scan_segment, plan_segments};

fn parse_all(s: &[u8]) -> Option<(i64, usize)> {
    parse_temperature(s, 0, s.len())
}

#[test]
fn parses_the_three_shapes() {
    assert_eq!(parse_all(b"1.5"), Some((15, 3)));
    assert_eq!(parse_all(b"12.3"), Some((123, 4)));
    assert_eq!(parse_all(b"999.9"), Some((9999, 5)));
    assert_eq!(parse_all(b"-1.5"), Some((-15, 4)));
    assert_eq!(parse_all(b"-12.3"), Some((-123, 5)));
    assert_eq!(parse_all(b"-999.9"), Some((-9999, 6)));
    assert_eq!(parse_all(b"0.0"), Some((0, 3)));
}

#[test]
fn parse_stops_at_value_end() {
    assert_eq!(parse_temperature(b"12.3\nrest", 0, 9), Some((123, 4)));
    assert_eq!(parse_temperature(b"x;7.2\n", 2, 6), Some((72, 5)));
}

#[test]
fn rejects_unsupported_shapes() {
    assert_eq!(parse_all(b"abc"), None);
    assert_eq!(parse_all(b""), None);
    assert_eq!(parse_all(b"1"), None);
    assert_eq!(parse_all(b"1."), None);
    assert_eq!(parse_all(b"1234.5"), None);
    assert_eq!(parse_all(b".5"), None);
    assert_eq!(parse_all(b"-"), None);
    assert_eq!(parse_all(b"12x3"), None);
    assert_eq!(parse_all(b"1.x"), None);
}

fn rendered(v: i64) -> Vec<u8> {
    let mut out = Vec::new();
    render_fixed(v, &mut out);
    out
}

#[test]
fn renders_fixed_point_values() {
    assert_eq!(rendered(-30), b"-3.0".to_vec());
    assert_eq!(rendered(999), b"99.9".to_vec());
    assert_eq!(rendered(0), b"0.0".to_vec());
    assert_eq!(rendered(-9999), b"-999.9".to_vec());
    assert_eq!(rendered(9999), b"999.9".to_vec());
    assert_eq!(rendered(7), b"0.7".to_vec());
    assert_eq!(rendered(-7), b"-0.7".to_vec());
    assert_eq!(rendered(100), b"10.0".to_vec());
}

#[test]
fn render_parse_round_trip() {
    for v in -9999i64..=9999 {
        let lit = rendered(v);
        assert_eq!(parse_all(&lit), Some((v, lit.len())));
    }
}

#[test]
fn average_rounding() {
    assert_eq!(avg_scaled(201, 2), 101); // 100.5 away from zero
    assert_eq!(avg_scaled(-201, 2), -101);
    assert_eq!(avg_scaled(200, 2), 100);
    assert_eq!(avg_scaled(199, 2), 100); // 99.5 rounds up
    assert_eq!(avg_scaled(10, 3), 3); // 3.33
    assert_eq!(avg_scaled(-10, 3), -3);
    assert_eq!(avg_scaled(0, 5), 0);
}

#[test]
fn next_record_finds_boundaries() {
    let s = b"Hamburg;12.0\nPalma;30.5\n";
    assert_eq!(next_record(s, 0, s.len()), Some((7, 120, 13)));
    assert_eq!(next_record(s, 13, s.len()), Some((18, 305, 24)));
}

#[test]
fn next_record_rejects_malformed() {
    assert_eq!(next_record(b"NoSep\n", 0, 6), None);
    assert_eq!(next_record(b"A;12\n", 0, 5), None);
    assert_eq!(next_record(b"A;1.0", 0, 5), None);
    // a terminator before the separator ends the record without one
    assert_eq!(next_record(b"A\nB;1.0\n", 0, 8), None);
}

#[test]
fn hash_is_deterministic() {
    assert_eq!(fnv_hash(b"Hamburg"), fnv_hash(b"Hamburg"));
    assert_eq!(fnv_hash(b""), fnv_hash(b""));
}

#[test]
fn byte_equality() {
    assert!(bytes_eq(b"abc", b"abc"));
    assert!(!bytes_eq(b"abc", b"abd"));
    assert!(!bytes_eq(b"abc", b"ab"));
    assert!(bytes_eq(b"", b""));
}

#[test]
fn table_inserts_and_folds() {
    let mut t = FixedSizeMap::new(8);
    let ia = t.get_or_insert(b"alpha").unwrap();
    t.fold(ia, 15);
    let ib = t.get_or_insert(b"beta").unwrap();
    t.fold(ib, -20);
    let ia2 = t.get_or_insert(b"alpha").unwrap();
    assert_eq!(ia, ia2);
    t.fold(ia2, 25);
    let a = t.get(b"alpha");
    assert_eq!(a.total, 40);
    assert_eq!(a.num, 2);
    assert_eq!(a.min, 15);
    assert_eq!(a.max, 25);
    let b = t.get(b"beta");
    assert_eq!((b.total, b.num, b.min, b.max), (-20, 1, -20, -20));
    let mut keys = t.keys();
    keys.sort();
    assert_eq!(keys, vec![b"alpha".to_vec(), b"beta".to_vec()]);
}

#[test]
fn table_reports_exhaustion() {
    let mut t = FixedSizeMap::new(2);
    let i0 = t.get_or_insert(b"a").unwrap();
    t.fold(i0, 1);
    let i1 = t.get_or_insert(b"b").unwrap();
    t.fold(i1, 2);
    assert!(t.get_or_insert(b"c").is_none());
    // present keys are still found in a full table
    assert!(t.get_or_insert(b"a").is_some());
}

#[test]
fn sort_orders_bytewise() {
    let keys = vec![
        b"b".to_vec(),
        b"aa".to_vec(),
        b"a".to_vec(),
        vec![0xC3, 0xA9],
        b"Z".to_vec(),
    ];
    let sorted = sort_keys(keys);
    assert_eq!(
        sorted,
        vec![
            b"Z".to_vec(),
            b"a".to_vec(),
            b"aa".to_vec(),
            b"b".to_vec(),
            vec![0xC3, 0xA9],
        ]
    );
}

#[test]
fn lex_compare() {
    assert!(lex_less(b"a", b"b"));
    assert!(lex_less(b"a", b"aa"));
    assert!(!lex_less(b"aa", b"a"));
    assert!(!lex_less(b"a", b"a"));
    assert!(lex_less(b"", b"a"));
    assert!(lex_less(b"Ab", b"a"));
}

#[test]
fn segments_cover_and_align() {
    let input = b"aa;1.0\nbb;2.0\ncc;3.0\ndd;4.0\n";
    for n in [1usize, 2, 3, 5, 30] {
        let b = plan_segments(input, n);
        assert_eq!(b.len(), n + 1);
        assert_eq!(b[0], 0);
        assert_eq!(b[n], input.len());
        for i in 0..n {
            assert!(b[i] <= b[i + 1]);
        }
        for i in 1..n {
            assert!(b[i] == input.len() || input[b[i] - 1] == b'\n');
        }
    }
}

#[test]
fn segment_scan_aggregates() {
    let input = b"x;1.0\ny;2.0\nx;3.0\n";
    let t = scan_segment(input, 0, input.len(), 8).unwrap();
    let x = t.get(b"x");
    assert_eq!((x.total, x.num, x.min, x.max), (40, 2, 10, 30));
    let y = t.get(b"y");
    assert_eq!((y.total, y.num, y.min, y.max), (20, 1, 20, 20));
}
