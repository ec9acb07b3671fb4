use station_stats::chunk::process_chunk;
use station_stats::chunk::try_process_line;
use station_stats::records::is_record_line;
use station_stats::records::InputError;
use station_stats::report::format_report;
use station_stats::stats::Stats;
use station_stats::stream::LineStream;
use station_stats::table::StationTable;

const TEXT: &str = "Oslo;-3.4\nLima;18.9\nOslo;2.0\nCairo;35.1\nLima;19.0\nOslo;-10.7\nCairo;40.0\n";

const REPORT: &str = "{Cairo=35.1/37.6/40.0,Lima=18.9/19.0/19.0,Oslo=-10.7/-4.0/2.0}\n";

fn stream_in_blocks(data: &[u8], size: usize) -> Result<StationTable, InputError> {
    let mut stream = LineStream::new();
    for block in data.chunks(size) {
        stream.feed(block)?;
    }
    stream.finish()
}

#[test]
fn stream_of_nothing_is_empty() {
    let map = LineStream::new().finish().unwrap();
    assert_eq!(format_report(map), b"{}\n".to_vec());
    let mut stream = LineStream::new();
    stream.feed(b"").unwrap();
    stream.feed(b"").unwrap();
    assert_eq!(format_report(stream.finish().unwrap()), b"{}\n".to_vec());
}

#[test]
fn stream_gives_the_same_mapping_for_every_block_size() {
    for size in 1..=TEXT.len() + 1 {
        let map = stream_in_blocks(TEXT.as_bytes(), size).unwrap();
        assert_eq!(map.get(b"Oslo"), Some(Stats { min: -107, max: 20, sum: -121, count: 3 }));
        assert_eq!(String::from_utf8(format_report(map)).unwrap(), REPORT);
    }
}

#[test]
fn stream_agrees_with_the_buffer_as_a_whole() {
    let whole = format_report(process_chunk(TEXT.as_bytes()));
    for size in [1, 2, 3, 5, 8, 13, 21, 34] {
        let streamed = format_report(stream_in_blocks(TEXT.as_bytes(), size).unwrap());
        assert_eq!(streamed, whole);
    }
}

#[test]
fn stream_takes_a_last_line_without_terminator() {
    let text = "A;1.0\nB;-2.5";
    for size in 1..=text.len() {
        let map = stream_in_blocks(text.as_bytes(), size).unwrap();
        assert_eq!(
            String::from_utf8(format_report(map)).unwrap(),
            "{A=1.0/1.0/1.0,B=-2.5/-2.5/-2.5}\n"
        );
    }
}

#[test]
fn stream_joins_a_line_cut_by_several_blocks() {
    let mut stream = LineStream::new();
    stream.feed(b"Ham").unwrap();
    stream.feed(b"bu").unwrap();
    stream.feed(b"rg;1").unwrap();
    stream.feed(b"2.").unwrap();
    stream.feed(b"3\nBonn;").unwrap();
    stream.feed(b"-0.5\n").unwrap();
    let map = stream.finish().unwrap();
    assert_eq!(map.get(b"Hamburg"), Some(Stats { min: 123, max: 123, sum: 123, count: 1 }));
    assert_eq!(map.get(b"Bonn"), Some(Stats { min: -5, max: -5, sum: -5, count: 1 }));
}

#[test]
fn stream_refuses_a_malformed_line() {
    let mut stream = LineStream::new();
    stream.feed(b"A;1.0\nB;2").unwrap();
    assert_eq!(stream.feed(b"\nC;3.0\n"), Err(InputError::Malformed));

    let mut stream = LineStream::new();
    assert_eq!(stream.feed(b"A;1.0\n\nB;2.0\n"), Err(InputError::Malformed));

    let mut stream = LineStream::new();
    stream.feed(b"A;1.0\nB").unwrap();
    assert!(matches!(stream.finish(), Err(InputError::Malformed)));

    for size in 1..=12 {
        assert!(matches!(
            stream_in_blocks(b"A;1.0\nB2.0\nC;3.0\n", size),
            Err(InputError::Malformed)
        ));
    }
}

#[test]
fn try_process_line_checks_the_line() {
    let mut map = StationTable::new();
    assert_eq!(try_process_line(b"X;1.5", &mut map), Ok(()));
    assert_eq!(try_process_line(b"X;-2.5", &mut map), Ok(()));
    assert_eq!(try_process_line(b"X", &mut map), Err(InputError::Malformed));
    assert_eq!(try_process_line(b"X;1.55", &mut map), Err(InputError::Malformed));
    assert_eq!(try_process_line(b"", &mut map), Err(InputError::Malformed));
    assert_eq!(map.get(b"X"), Some(Stats { min: -25, max: 15, sum: -10, count: 2 }));
}

#[test]
fn try_process_line_stops_at_a_full_counter() {
    let mut map = StationTable::new();
    let full = Stats { min: 0, max: 0, sum: 0, count: u32::MAX };
    map.record_stats(b"X".to_vec(), full);
    assert_eq!(try_process_line(b"X;1.5", &mut map), Err(InputError::TooManyRecords));
    assert_eq!(map.get(b"X"), Some(full));
    assert_eq!(try_process_line(b"Y;1.5", &mut map), Ok(()));
}

#[test]
fn is_record_line_knows_a_record() {
    assert!(is_record_line(b"a;1.0"));
    assert!(is_record_line(b";-12.3"));
    assert!(is_record_line(b"a b c;0.0"));
    assert!(!is_record_line(b""));
    assert!(!is_record_line(b"a"));
    assert!(!is_record_line(b"a;"));
    assert!(!is_record_line(b"a;1.0;2.0"));
    assert!(!is_record_line(b"a;b;1.0"));
    assert!(!is_record_line(b"a;1.0\n"));
}
