use station_stats::pipeline::summarize;
use station_stats::pipeline::try_summarize;
use station_stats::records::InputError;

fn report(input: &str, workers: usize) -> String {
    String::from_utf8(summarize(input.as_bytes(), workers)).unwrap()
}

#[test]
fn single_record() {
    assert_eq!(report("Hamburg;12.3\n", 1), "{Hamburg=12.3/12.3/12.3}\n");
}

#[test]
fn repeated_key_min_mean_max() {
    assert_eq!(report("X;10.0\nX;-5.0\nX;0.0\n", 1), "{X=-5.0/1.7/10.0}\n");
}

#[test]
fn keys_sorted_by_bytes() {
    assert_eq!(
        report("Zurich;1.0\nAarhus;2.0\n", 1),
        "{Aarhus=2.0/2.0/2.0,Zurich=1.0/1.0/1.0}\n"
    );
}

#[test]
fn upper_case_sorts_before_lower_case() {
    assert_eq!(
        report("b;1.0\nB;2.0\na;3.0\n", 1),
        "{B=2.0/2.0/2.0,a=3.0/3.0/3.0,b=1.0/1.0/1.0}\n"
    );
}

#[test]
fn prefix_sorts_before_longer_key() {
    assert_eq!(
        report("Abc;1.0\nAb;2.0\nA;3.0\n", 2),
        "{A=3.0/3.0/3.0,Ab=2.0/2.0/2.0,Abc=1.0/1.0/1.0}\n"
    );
}

#[test]
fn empty_file() {
    assert_eq!(report("", 1), "{}\n");
    assert_eq!(report("", 8), "{}\n");
}

#[test]
fn last_line_without_terminator() {
    assert_eq!(report("A;1.0\nB;-2.5", 1), "{A=1.0/1.0/1.0,B=-2.5/-2.5/-2.5}\n");
    assert_eq!(report("A;1.0\nB;-2.5", 3), "{A=1.0/1.0/1.0,B=-2.5/-2.5/-2.5}\n");
}

#[test]
fn tie_rounds_up_for_positive_mean() {
    // 0.1 and 0.0: the mean is 0.05, halfway between 0.0 and 0.1.
    assert_eq!(report("X;0.1\nX;0.0\n", 1), "{X=0.0/0.1/0.1}\n");
    // 1.2 and 1.3: the mean is 1.25.
    assert_eq!(report("X;1.2\nX;1.3\n", 1), "{X=1.2/1.3/1.3}\n");
}

#[test]
fn tie_rounds_down_for_negative_mean() {
    // -0.1 and 0.0: the mean is -0.05, halfway between -0.1 and 0.0.
    assert_eq!(report("X;-0.1\nX;0.0\n", 1), "{X=-0.1/-0.1/0.0}\n");
    // -1.2 and -1.3: the mean is -1.25.
    assert_eq!(report("X;-1.2\nX;-1.3\n", 1), "{X=-1.3/-1.3/-1.2}\n");
}

#[test]
fn small_negative_mean_rounds_to_plain_zero() {
    // -0.1, 0.0, 0.0: the mean is -0.033..., nearest tenth is zero.
    assert_eq!(report("X;-0.1\nX;0.0\nX;0.0\n", 1), "{X=-0.1/0.0/0.0}\n");
}

#[test]
fn result_does_not_depend_on_worker_count() {
    let input = "Oslo;-3.4\nLima;18.9\nOslo;2.0\nCairo;35.1\nLima;19.0\nOslo;-10.7\nCairo;40.0\n\
                 Quito;13.3\nLima;17.5\nOslo;0.0\nQuito;14.1\nCairo;-1.0\n";
    let expected = "{Cairo=-1.0/24.7/40.0,Lima=17.5/18.5/19.0,Oslo=-10.7/-3.0/2.0,Quito=13.3/13.7/14.1}\n";
    for workers in 1..=40 {
        assert_eq!(report(input, workers), expected);
    }
}

#[test]
fn running_twice_gives_the_same_bytes() {
    let input = "b;1.5\na;-2.5\nc;99.9\na;0.3\nb;-99.9\n";
    let first = summarize(input.as_bytes(), 4);
    let second = summarize(input.as_bytes(), 4);
    assert_eq!(first, second);
    assert_eq!(
        String::from_utf8(first).unwrap(),
        "{a=-2.5/-1.1/0.3,b=-99.9/-49.2/1.5,c=99.9/99.9/99.9}\n"
    );
}

#[test]
fn keys_may_hold_any_bytes_but_the_separators() {
    let input: Vec<u8> = vec![0xff, 0x00, b' ', b';', b'1', b'.', b'0', b'\n'];
    let out = summarize(&input, 1);
    let mut expected: Vec<u8> = vec![b'{', 0xff, 0x00, b' ', b'='];
    expected.extend_from_slice(b"1.0/1.0/1.0}\n");
    assert_eq!(out, expected);
}

#[test]
fn empty_key_is_a_key() {
    assert_eq!(report(";1.0\n;3.0\n", 2), "{=1.0/2.0/3.0}\n");
}

#[test]
fn checked_entry_accepts_well_formed_input() {
    let out = try_summarize(b"Hamburg;12.3\n", 0).unwrap();
    assert_eq!(out, b"{Hamburg=12.3/12.3/12.3}\n".to_vec());
    assert_eq!(try_summarize(b"", 3), Ok(b"{}\n".to_vec()));
}

#[test]
fn checked_entry_rejects_malformed_input() {
    assert_eq!(try_summarize(b"Hamburg 12.3\n", 1), Err(InputError::Malformed));
    assert_eq!(try_summarize(b"Hamburg;12.34\n", 1), Err(InputError::Malformed));
    assert_eq!(try_summarize(b"Hamburg;+2.3\n", 1), Err(InputError::Malformed));
    assert_eq!(try_summarize(b"Hamburg;12\n", 1), Err(InputError::Malformed));
    assert_eq!(try_summarize(b"A;1.0\n\nB;2.0\n", 1), Err(InputError::Malformed));
    assert_eq!(try_summarize(b"A;1.0\nB;2.0;3.0\n", 2), Err(InputError::Malformed));
    assert_eq!(try_summarize(b"\n", 1), Err(InputError::Malformed));
}

fn many_records() -> (Vec<u8>, String) {
    // Key `k` gets the readings k - 250 + j tenths for the eleven values of
    // j from -5 to 5, ten times over, so its mean is k - 250 tenths.
    let mut data: Vec<u8> = Vec::new();
    for _ in 0..10 {
        for k in 0..500i32 {
            for j in -5..=5i32 {
                let v = k - 250 + j;
                let sign = if v < 0 { "-" } else { "" };
                let line = format!("key{:03};{}{}.{}\n", k, sign, v.abs() / 10, v.abs() % 10);
                data.extend_from_slice(line.as_bytes());
            }
        }
    }
    let mut expected = String::from("{");
    for k in 0..500i32 {
        if k > 0 {
            expected.push(',');
        }
        let text = |v: i32| format!("{}{}.{}", if v < 0 { "-" } else { "" }, v.abs() / 10, v.abs() % 10);
        let mean = k - 250;
        expected.push_str(&format!("key{:03}={}/{}/{}", k, text(mean - 5), text(mean), text(mean + 5)));
    }
    expected.push_str("}\n");
    (data, expected)
}

#[test]
fn many_records_and_keys() {
    let (data, expected) = many_records();
    assert_eq!(String::from_utf8(summarize(&data, 1)).unwrap(), expected);
    assert_eq!(String::from_utf8(summarize(&data, 7)).unwrap(), expected);
    assert_eq!(String::from_utf8(try_summarize(&data, 64).unwrap()).unwrap(), expected);
}
