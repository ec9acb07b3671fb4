use station_stats::chunk::process_chunk;
use station_stats::chunk::process_line;
use station_stats::chunk::try_process_chunk;
use station_stats::merge::merge_all_tables;
use station_stats::merge::merge_into;
use station_stats::merge::try_merge_all;
use station_stats::merge::try_merge_into;
use station_stats::numeral::format_mean;
use station_stats::numeral::format_temp;
use station_stats::numeral::format_tenths;
use station_stats::numeral::is_valid_numeral;
use station_stats::numeral::parse_temp;
use station_stats::numeral::parse_temperature;
use station_stats::numeral::push_reading;
use station_stats::order::key_less;
use station_stats::order::sorted_order;
use station_stats::records::check_count;
use station_stats::records::check_records;
use station_stats::records::count_records;
use station_stats::records::find_newline;
use station_stats::records::find_semicolon;
use station_stats::records::next_record;
use station_stats::records::slice_range;
use station_stats::records::InputError;
use station_stats::records::MAX_RECORDS;
use station_stats::report::format_report;
use station_stats::segment::find_line_boundary;
use station_stats::segment::segment;
use station_stats::stats::mean_tenths;
use station_stats::stats::rounded_quotient;
use station_stats::stats::Stats;
use station_stats::table::StationTable;

#[test]
fn stats_new_is_seeded_with_the_reading() {
    assert_eq!(Stats::new(-42), Stats { min: -42, max: -42, sum: -42, count: 1 });
}

#[test]
fn stats_update_tracks_extremes_total_and_count() {
    let mut s = Stats::new(100);
    s.update(-50);
    assert_eq!(s, Stats { min: -50, max: 100, sum: 50, count: 2 });
    s.update(0);
    assert_eq!(s, Stats { min: -50, max: 100, sum: 50, count: 3 });
    s.update(250);
    assert_eq!(s, Stats { min: -50, max: 250, sum: 300, count: 4 });
}

#[test]
fn stats_merge_combines_field_by_field() {
    let mut a = Stats { min: -5, max: 7, sum: 10, count: 4 };
    let b = Stats { min: -9, max: 3, sum: -12, count: 3 };
    a.merge(&b);
    assert_eq!(a, Stats { min: -9, max: 7, sum: -2, count: 7 });
}

#[test]
fn stats_merge_is_commutative_and_associative() {
    let a = Stats { min: -5, max: 7, sum: 10, count: 4 };
    let b = Stats { min: -9, max: 3, sum: -12, count: 3 };
    let c = Stats { min: 1, max: 20, sum: 21, count: 2 };
    let mut ab = a;
    ab.merge(&b);
    let mut ba = b;
    ba.merge(&a);
    assert_eq!(ab, ba);
    let mut ab_c = ab;
    ab_c.merge(&c);
    let mut bc = b;
    bc.merge(&c);
    let mut a_bc = a;
    a_bc.merge(&bc);
    assert_eq!(ab_c, a_bc);
}

#[test]
fn stats_sum_holds_what_the_counter_allows() {
    let mut s = Stats { min: i32::MIN, max: i32::MIN, sum: (i32::MIN as i64) * 0xffff_fffe, count: 0xffff_fffe };
    s.update(i32::MIN);
    assert_eq!(s.sum, (i32::MIN as i64) * 0xffff_ffff);
    assert_eq!(s.count, u32::MAX);
    assert_eq!(s.mean(), i32::MIN);
}

#[test]
fn stats_mean_rounds_to_nearest() {
    assert_eq!(Stats { min: -50, max: 100, sum: 50, count: 3 }.mean(), 17);
    assert_eq!(Stats { min: 0, max: 1, sum: 1, count: 2 }.mean(), 1);
    assert_eq!(Stats { min: -1, max: 0, sum: -1, count: 2 }.mean(), -1);
    assert_eq!(Stats { min: -1, max: 0, sum: -1, count: 3 }.mean(), 0);
}

#[test]
fn mean_tenths_rounds_halves_away_from_zero() {
    assert_eq!(mean_tenths(5, 10), 1);
    assert_eq!(mean_tenths(-5, 10), -1);
    assert_eq!(mean_tenths(4, 10), 0);
    assert_eq!(mean_tenths(-4, 10), 0);
    assert_eq!(mean_tenths(15, 10), 2);
    assert_eq!(mean_tenths(-15, 10), -2);
    assert_eq!(mean_tenths(25, 10), 3);
    assert_eq!(mean_tenths(-25, 10), -3);
    assert_eq!(mean_tenths(50, 3), 17);
    assert_eq!(mean_tenths(0, 7), 0);
    assert_eq!(mean_tenths(i64::MAX, 1), i64::MAX);
    assert_eq!(mean_tenths(i64::MIN, 1), i64::MIN);
    assert_eq!(mean_tenths(i64::MIN, 2), -(1i64 << 62));
    assert_eq!(mean_tenths(i64::MAX, 2), 1i64 << 62);
    assert_eq!(mean_tenths(i64::MAX, u32::MAX), 2147483648);
}

#[test]
fn rounded_quotient_rounds_halves_up() {
    assert_eq!(rounded_quotient(0, 1), 0);
    assert_eq!(rounded_quotient(7, 2), 4);
    assert_eq!(rounded_quotient(7, 3), 2);
    assert_eq!(rounded_quotient(8, 3), 3);
    assert_eq!(rounded_quotient(u64::MAX, 1), u64::MAX);
    assert_eq!(rounded_quotient(u64::MAX, 2), 1u64 << 63);
}

#[test]
fn parse_temperature_reads_every_shape() {
    assert_eq!(parse_temperature(b"1.2"), 12);
    assert_eq!(parse_temperature(b"12.3"), 123);
    assert_eq!(parse_temperature(b"-1.2"), -12);
    assert_eq!(parse_temperature(b"-12.3"), -123);
    assert_eq!(parse_temperature(b"0.0"), 0);
    assert_eq!(parse_temperature(b"-0.0"), 0);
    assert_eq!(parse_temperature(b"99.9"), 999);
    assert_eq!(parse_temperature(b"-99.9"), -999);
    assert_eq!(parse_temperature(b"05.3"), 53);
}

#[test]
fn parse_temp_reads_every_shape() {
    assert_eq!(parse_temp(b"1.2"), 12);
    assert_eq!(parse_temp(b"12.3"), 123);
    assert_eq!(parse_temp(b"-1.2"), -12);
    assert_eq!(parse_temp(b"-12.3"), -123);
    assert_eq!(parse_temp(b"0.0"), 0);
    assert_eq!(parse_temp(b"-0.0"), 0);
    assert_eq!(parse_temp(b"99.9"), 999);
    assert_eq!(parse_temp(b"-99.9"), -999);
    assert_eq!(parse_temp(b"05.3"), 53);
}

#[test]
fn numeral_grammar() {
    for good in ["0.0", "1.2", "12.3", "-1.2", "-12.3", "00.0", "-00.0", "99.9"] {
        assert!(is_valid_numeral(good.as_bytes()), "{}", good);
    }
    for bad in [
        "", "-", ".", "1", "12", "1.", ".5", "1.23", "123.4", "+1.2", "--1.2", "-123.4", "1,2",
        "a.b", "1.2 ", " 1.2", "1..2", "1.2.3", "-.5", "1e1", "12.x", "x2.3", "1-.2",
    ] {
        assert!(!is_valid_numeral(bad.as_bytes()), "{}", bad);
    }
}

#[test]
fn format_temp_writes_one_fractional_digit() {
    assert_eq!(format_temp(0), "0.0");
    assert_eq!(format_temp(5), "0.5");
    assert_eq!(format_temp(-5), "-0.5");
    assert_eq!(format_temp(123), "12.3");
    assert_eq!(format_temp(-123), "-12.3");
    assert_eq!(format_temp(999), "99.9");
    assert_eq!(format_temp(-999), "-99.9");
    assert_eq!(format_temp(1000), "100.0");
    assert_eq!(format_temp(i32::MAX), "214748364.7");
    assert_eq!(format_temp(i32::MIN), "-214748364.8");
}

#[test]
fn format_tenths_agrees_with_format_temp() {
    for v in [-1000, -999, -101, -100, -10, -1, 0, 1, 9, 10, 99, 100, 101, 999, 1000] {
        assert_eq!(format_tenths(v), format_temp(v));
    }
    assert_eq!(format_tenths(-7), "-0.7");
    assert_eq!(format_tenths(70), "7.0");
}

#[test]
fn format_mean_rounds_then_formats() {
    assert_eq!(format_mean(50, 3), "1.7");
    assert_eq!(format_mean(1, 2), "0.1");
    assert_eq!(format_mean(-1, 2), "-0.1");
    assert_eq!(format_mean(-1, 3), "0.0");
    assert_eq!(format_mean(1, 3), "0.0");
    assert_eq!(format_mean(-25, 10), "-0.3");
    assert_eq!(format_mean(25, 10), "0.3");
    assert_eq!(format_mean(0, 1), "0.0");
    assert_eq!(format_mean(i64::MIN, 1), "-922337203685477580.8");
    assert_eq!(format_mean(i64::MAX, 1), "922337203685477580.7");
}

#[test]
fn push_reading_appends() {
    let mut out: Vec<u8> = b"x=".to_vec();
    push_reading(&mut out, -105);
    push_reading(&mut out, 7);
    assert_eq!(out, b"x=-10.50.7".to_vec());
}

#[test]
fn parsing_undoes_formatting_for_every_reading_in_range() {
    for v in -999..=999 {
        let text = format_temp(v);
        assert!(is_valid_numeral(text.as_bytes()));
        assert_eq!(parse_temperature(text.as_bytes()), v);
        assert_eq!(parse_temp(text.as_bytes()), v);
    }
}

#[test]
fn formatting_undoes_parsing_for_canonical_numerals() {
    for text in ["0.0", "0.1", "9.9", "10.0", "99.9", "-0.1", "-9.9", "-10.0", "-99.9"] {
        assert_eq!(format_temp(parse_temperature(text.as_bytes())), text);
        assert_eq!(format_temp(parse_temp(text.as_bytes())), text);
    }
}

#[test]
fn formatting_keeps_sign_and_magnitude_of_other_numerals() {
    assert_eq!(format_temp(parse_temperature(b"-0.0")), "0.0");
    assert_eq!(format_temp(parse_temperature(b"05.3")), "5.3");
    assert_eq!(format_temp(parse_temperature(b"-05.3")), "-5.3");
    assert_eq!(format_temp(parse_temperature(b"00.0")), "0.0");
}

#[test]
fn find_semicolon_and_newline() {
    let data = b"ab;1.0\ncd;2.0";
    assert_eq!(find_semicolon(data, 0), 2);
    assert_eq!(find_semicolon(data, 2), 2);
    assert_eq!(find_semicolon(data, 3), 9);
    assert_eq!(find_semicolon(data, 10), 13);
    assert_eq!(find_semicolon(data, 13), 13);
    assert_eq!(find_newline(data, 0), 6);
    assert_eq!(find_newline(data, 6), 6);
    assert_eq!(find_newline(data, 7), 13);
    assert_eq!(find_newline(b"", 0), 0);
}

#[test]
fn count_records_counts_lines() {
    assert_eq!(count_records(b""), Some(0));
    assert_eq!(count_records(b"a;1.0"), Some(1));
    assert_eq!(count_records(b"a;1.0\n"), Some(1));
    assert_eq!(count_records(b"a;1.0\nb;-2.0\na;33.3\n"), Some(3));
    assert_eq!(count_records(b"a;1.0\nb;-2.0\na;33.3"), Some(3));
    assert_eq!(count_records(b"a;1.0\n\n"), None);
    assert_eq!(count_records(b"a1.0\n"), None);
    assert_eq!(count_records(b"a;1.0\nb;2\n"), None);
    assert_eq!(count_records(b"a;b;1.0\n"), None);
}

#[test]
fn find_line_boundary_moves_behind_the_next_terminator() {
    let data = b"ab;1.0\ncd;2.0\nef;3.0";
    assert_eq!(find_line_boundary(data, 0), 0);
    assert_eq!(find_line_boundary(data, 1), 7);
    assert_eq!(find_line_boundary(data, 6), 7);
    assert_eq!(find_line_boundary(data, 7), 14);
    assert_eq!(find_line_boundary(data, 13), 14);
    assert_eq!(find_line_boundary(data, 14), 20);
    assert_eq!(find_line_boundary(data, 19), 20);
    assert_eq!(find_line_boundary(data, 20), 20);
    assert_eq!(find_line_boundary(data, 1000), 20);
    assert_eq!(find_line_boundary(b"", 0), 0);
    assert_eq!(find_line_boundary(b"", 5), 0);
}

#[test]
fn segment_cuts_at_line_boundaries() {
    let data = b"ab;1.0\ncd;2.0\nef;3.0\n";
    assert_eq!(segment(data, 1), vec![(0, 21)]);
    assert_eq!(segment(data, 2), vec![(0, 14), (14, 21)]);
    assert_eq!(segment(data, 3), vec![(0, 14), (14, 21), (21, 21)]);
    assert_eq!(segment(data, 4), vec![(0, 7), (7, 14), (14, 21), (21, 21)]);
    assert_eq!(segment(b"", 1), vec![]);
    assert_eq!(segment(b"", 5), vec![]);
    assert_eq!(segment(b"a;1.0", 3), vec![(0, 5), (5, 5), (5, 5)]);
    assert_eq!(segment(b"\n\n\n", 3), vec![(0, 2), (2, 3), (3, 3)]);
}

#[test]
fn segments_cover_the_buffer_exactly() {
    let text = "Oslo;-3.4\nLima;18.9\nOslo;2.0\nCairo;35.1\nLima;19.0\nOslo;-10.7\nCairo;40.0";
    for len in 0..=text.len() {
        let data = &text.as_bytes()[..len];
        for workers in 1..=12 {
            let ranges = segment(data, workers);
            if len == 0 {
                assert!(ranges.is_empty());
                continue;
            }
            assert_eq!(ranges.len(), workers);
            let mut joined: Vec<u8> = Vec::new();
            let mut at = 0;
            for (start, end) in ranges {
                assert_eq!(start, at);
                assert!(start <= end);
                assert!(start == 0 || start == len || data[start - 1] == b'\n');
                joined.extend_from_slice(&data[start..end]);
                at = end;
            }
            assert_eq!(at, len);
            assert_eq!(joined, data);
        }
    }
}

#[test]
fn key_less_orders_by_bytes() {
    assert!(key_less(b"", b"a"));
    assert!(!key_less(b"", b""));
    assert!(!key_less(b"a", b""));
    assert!(key_less(b"a", b"b"));
    assert!(!key_less(b"b", b"a"));
    assert!(key_less(b"a", b"ab"));
    assert!(!key_less(b"ab", b"a"));
    assert!(!key_less(b"ab", b"ab"));
    assert!(key_less(b"Z", b"a"));
    assert!(key_less(b"ab", b"b"));
    assert!(key_less(&[0x7f], &[0x80]));
    assert!(key_less(&[0x00], &[0xff]));
}

#[test]
fn sorted_order_lists_indices_by_key() {
    let s = Stats::new(0);
    let entries: Vec<(Vec<u8>, Stats)> = vec![
        (b"delta".to_vec(), s),
        (b"alpha".to_vec(), s),
        (b"echo".to_vec(), s),
        (b"".to_vec(), s),
        (b"charlie".to_vec(), s),
        (b"bravo".to_vec(), s),
        (b"alph".to_vec(), s),
    ];
    assert_eq!(sorted_order(&entries), vec![3, 6, 1, 5, 4, 0, 2]);
    assert_eq!(sorted_order(&Vec::new()), Vec::<usize>::new());
}

#[test]
fn table_starts_empty() {
    let t = StationTable::new();
    assert_eq!(t.get(b"x"), None);
    assert!(t.into_entries().is_empty());
}

#[test]
fn table_record_inserts_then_updates() {
    let mut t = StationTable::new();
    t.record(b"x", 10);
    assert_eq!(t.get(b"x"), Some(Stats { min: 10, max: 10, sum: 10, count: 1 }));
    assert_eq!(t.get(b"y"), None);
    t.record(b"y", -3);
    t.record(b"x", -20);
    assert_eq!(t.get(b"x"), Some(Stats { min: -20, max: 10, sum: -10, count: 2 }));
    assert_eq!(t.get(b"y"), Some(Stats { min: -3, max: -3, sum: -3, count: 1 }));
    let mut entries = t.into_entries();
    entries.sort_by(|a, b| a.0.cmp(&b.0));
    assert_eq!(
        entries,
        vec![
            (b"x".to_vec(), Stats { min: -20, max: 10, sum: -10, count: 2 }),
            (b"y".to_vec(), Stats { min: -3, max: -3, sum: -3, count: 1 }),
        ]
    );
}

#[test]
fn table_record_stats_inserts_then_combines() {
    let mut t = StationTable::new();
    t.record_stats(b"x".to_vec(), Stats { min: 1, max: 5, sum: 9, count: 3 });
    assert_eq!(t.get(b"x"), Some(Stats { min: 1, max: 5, sum: 9, count: 3 }));
    t.record_stats(b"x".to_vec(), Stats { min: -1, max: 2, sum: 1, count: 2 });
    assert_eq!(t.get(b"x"), Some(Stats { min: -1, max: 5, sum: 10, count: 5 }));
}

#[test]
fn process_line_folds_one_record_in() {
    let mut t = StationTable::new();
    process_line(b"Hamburg;12.3", &mut t);
    process_line(b"Hamburg;-2.3", &mut t);
    process_line(b"Bonn;0.0", &mut t);
    assert_eq!(t.get(b"Hamburg"), Some(Stats { min: -23, max: 123, sum: 100, count: 2 }));
    assert_eq!(t.get(b"Bonn"), Some(Stats { min: 0, max: 0, sum: 0, count: 1 }));
}

#[test]
fn process_chunk_folds_every_record_in() {
    let t = process_chunk(b"X;10.0\nX;-5.0\nY;7.7\nX;0.0");
    assert_eq!(t.get(b"X"), Some(Stats { min: -50, max: 100, sum: 50, count: 3 }));
    assert_eq!(t.get(b"Y"), Some(Stats { min: 77, max: 77, sum: 77, count: 1 }));
    assert_eq!(t.get(b"Z"), None);
    assert!(process_chunk(b"").into_entries().is_empty());
}

#[test]
fn merge_into_combines_shared_keys_and_inserts_new_ones() {
    let mut a = process_chunk(b"X;10.0\nY;1.0\n");
    let b = process_chunk(b"X;-5.0\nZ;2.0\nX;0.0\n");
    merge_into(&mut a, b);
    assert_eq!(a.get(b"X"), Some(Stats { min: -50, max: 100, sum: 50, count: 3 }));
    assert_eq!(a.get(b"Y"), Some(Stats { min: 10, max: 10, sum: 10, count: 1 }));
    assert_eq!(a.get(b"Z"), Some(Stats { min: 20, max: 20, sum: 20, count: 1 }));
    assert_eq!(a.into_entries().len(), 3);
}

fn partials(order: &[usize]) -> Vec<StationTable> {
    let chunks: [&[u8]; 4] = [
        b"Oslo;-3.4\nLima;18.9\nOslo;2.0\n",
        b"Cairo;35.1\nLima;19.0\n",
        b"",
        b"Oslo;-10.7\nCairo;40.0\nQuito;13.3\n",
    ];
    order.iter().map(|&i| process_chunk(chunks[i])).collect()
}

#[test]
fn merging_in_any_order_gives_the_same_mapping() {
    let expected = "{Cairo=35.1/37.6/40.0,Lima=18.9/19.0/19.0,Oslo=-10.7/-4.0/2.0,Quito=13.3/13.3/13.3}\n";
    let orders: [[usize; 4]; 6] =
        [[0, 1, 2, 3], [3, 2, 1, 0], [1, 0, 3, 2], [2, 3, 0, 1], [0, 2, 1, 3], [3, 0, 2, 1]];
    for order in orders {
        let merged = merge_all_tables(partials(&order));
        assert_eq!(merged.get(b"Oslo"), Some(Stats { min: -107, max: 20, sum: -121, count: 3 }));
        assert_eq!(merged.get(b"Cairo"), Some(Stats { min: 351, max: 400, sum: 751, count: 2 }));
        assert_eq!(String::from_utf8(format_report(merged)).unwrap(), expected);
    }
}

#[test]
fn merge_of_nothing_is_empty() {
    let merged = merge_all_tables(Vec::new());
    assert_eq!(format_report(merged), b"{}\n".to_vec());
}

#[test]
fn format_report_sorts_and_formats() {
    let mut t = StationTable::new();
    t.record(b"b", 15);
    t.record(b"a", -25);
    t.record(b"b", 20);
    assert_eq!(format_report(t), b"{a=-2.5/-2.5/-2.5,b=1.5/1.8/2.0}\n".to_vec());
}

#[test]
fn next_record_splits_key_and_value() {
    let data = b"ab;1.0\n;-22.5\nxyz;0.3";
    let (key, value, next) = next_record(data, 0);
    assert_eq!(key, b"ab");
    assert_eq!(value, b"1.0");
    assert_eq!(next, 7);
    let (key, value, next) = next_record(data, 7);
    assert_eq!(key, b"");
    assert_eq!(value, b"-22.5");
    assert_eq!(next, 14);
    let (key, value, next) = next_record(data, 14);
    assert_eq!(key, b"xyz");
    assert_eq!(value, b"0.3");
    assert_eq!(next, 21);
}

#[test]
fn slice_range_takes_the_part() {
    let data = b"abcdef";
    assert_eq!(slice_range(data, 0, 6), b"abcdef");
    assert_eq!(slice_range(data, 2, 4), b"cd");
    assert_eq!(slice_range(data, 3, 3), b"");
}

#[test]
fn check_count_judges_the_count() {
    assert_eq!(check_count(None), Err(InputError::Malformed));
    assert_eq!(check_count(Some(0)), Ok(0));
    assert_eq!(check_count(Some(MAX_RECORDS)), Ok(MAX_RECORDS));
    assert_eq!(check_count(Some(MAX_RECORDS + 1)), Err(InputError::TooManyRecords));
    assert_eq!(check_count(Some(usize::MAX)), Err(InputError::TooManyRecords));
}

#[test]
fn check_records_counts_or_refuses() {
    assert_eq!(check_records(b""), Ok(0));
    assert_eq!(check_records(b"a;1.0\nb;2.0\n"), Ok(2));
    assert_eq!(check_records(b"a;1.0\nb2.0\n"), Err(InputError::Malformed));
}

#[test]
fn try_process_chunk_checks_then_aggregates() {
    let t = try_process_chunk(b"X;10.0\nX;-5.0\nY;7.7\n").unwrap();
    assert_eq!(t.get(b"X"), Some(Stats { min: -50, max: 100, sum: 50, count: 2 }));
    assert_eq!(t.get(b"Y"), Some(Stats { min: 77, max: 77, sum: 77, count: 1 }));
    assert!(matches!(try_process_chunk(b"X;10.0\nX;-5\n"), Err(InputError::Malformed)));
    assert!(matches!(try_process_chunk(b"X\n"), Err(InputError::Malformed)));
}

fn table_of_one(key: &[u8], stats: Stats) -> StationTable {
    let mut t = StationTable::new();
    t.record_stats(key.to_vec(), stats);
    t
}

#[test]
fn try_merge_into_stops_when_a_counter_is_full() {
    let full = Stats { min: 0, max: 0, sum: 0, count: u32::MAX };
    let one = Stats { min: 1, max: 1, sum: 1, count: 1 };
    let mut a = table_of_one(b"x", full);
    assert!(!try_merge_into(&mut a, table_of_one(b"x", one)));
    assert_eq!(a.get(b"x"), Some(full));
    assert!(try_merge_into(&mut a, table_of_one(b"y", one)));
    assert_eq!(a.get(b"y"), Some(one));
    let almost = Stats { min: 0, max: 0, sum: 0, count: u32::MAX - 1 };
    let mut b = table_of_one(b"x", almost);
    assert!(try_merge_into(&mut b, table_of_one(b"x", one)));
    assert_eq!(b.get(b"x"), Some(Stats { min: 0, max: 1, sum: 1, count: u32::MAX }));
}

#[test]
fn try_merge_all_tells_when_a_key_has_too_many_readings() {
    let half = Stats { min: 0, max: 0, sum: 0, count: 0x8000_0000 };
    let parts = vec![table_of_one(b"x", half), table_of_one(b"y", half), table_of_one(b"x", half)];
    assert!(matches!(try_merge_all(parts), Err(InputError::TooManyRecords)));
    let less = Stats { min: 0, max: 0, sum: 0, count: 0x7fff_ffff };
    let parts = vec![table_of_one(b"x", half), table_of_one(b"y", half), table_of_one(b"x", less)];
    let merged = try_merge_all(parts).unwrap();
    assert_eq!(merged.get(b"x"), Some(Stats { min: 0, max: 0, sum: 0, count: u32::MAX }));
    assert_eq!(merged.get(b"y"), Some(half));
}

#[test]
fn try_merge_all_agrees_with_merge_all_tables() {
    let merged = try_merge_all(partials(&[2, 0, 3, 1])).unwrap();
    let expected = merge_all_tables(partials(&[0, 1, 2, 3]));
    assert_eq!(format_report(merged), format_report(expected));
}

#[test]
fn stats_is_well_formed_checks_the_invariant() {
    assert!(Stats::new(5).is_well_formed());
    assert!(Stats { min: -50, max: 100, sum: 50, count: 3 }.is_well_formed());
    assert!(Stats { min: i32::MIN, max: i32::MAX, sum: 0, count: u32::MAX }.is_well_formed());
    assert!(!Stats { min: 0, max: 0, sum: 0, count: 0 }.is_well_formed());
    assert!(!Stats { min: 1, max: 0, sum: 1, count: 2 }.is_well_formed());
    assert!(!Stats { min: 0, max: 10, sum: 21, count: 2 }.is_well_formed());
    assert!(!Stats { min: 0, max: 10, sum: -1, count: 2 }.is_well_formed());
    assert!(Stats { min: 0, max: 10, sum: 20, count: 2 }.is_well_formed());
}
