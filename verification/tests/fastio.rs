use rust_ps::fastio::{parse_int, parse_magnitude, Arr, IStream};

fn stream(s: &str) -> IStream {
    IStream::new(s.as_bytes().to_vec())
}

#[test]
fn tokens_are_split_at_whitespace() {
    let mut it = stream("  12 ab\tc\n\nxyz \n");
    assert_eq!(it.next_token(), Some(b"12".to_vec()));
    assert_eq!(it.next_token(), Some(b"ab".to_vec()));
    assert_eq!(it.next_token(), Some(b"c".to_vec()));
    assert_eq!(it.next_token(), Some(b"xyz".to_vec()));
    assert_eq!(it.next_token(), None);
    assert_eq!(it.next_token(), None);
}

#[test]
fn last_token_without_delimiter_is_dropped() {
    let mut it = stream("1 2 3");
    assert_eq!(it.next_token(), Some(b"1".to_vec()));
    assert_eq!(it.next_token(), Some(b"2".to_vec()));
    assert_eq!(it.next_token(), None);
    assert_eq!(it.next_token(), None);
}

#[test]
fn empty_input_has_no_tokens() {
    assert_eq!(stream("").next_token(), None);
    assert_eq!(stream(" \n\t ").next_token(), None);
}

#[test]
fn skip_whitespace_and_remain() {
    let mut it = stream(" \n ab c\n");
    it.skip_whitespace();
    assert_eq!(it.remain(), b"ab c\n");
    assert_eq!(it.next_token(), Some(b"ab".to_vec()));
    assert_eq!(it.remain(), b" c\n");
}

#[test]
fn parse_int_follows_str_parse() {
    let cases: [(&str, i128, i128); 12] = [
        ("0", 0, 255),
        ("255", 0, 255),
        ("256", 0, 255),
        ("+7", 0, 255),
        ("-0", 0, 255),
        ("-5", -128, 127),
        ("-128", -128, 127),
        ("-129", -128, 127),
        ("+", -128, 127),
        ("-", -128, 127),
        ("", 0, 255),
        ("1_0", 0, 255),
    ];
    for (s, lo, hi) in cases {
        let expected = if lo < 0 {
            s.parse::<i64>().ok().map(|v| v as i128).filter(|v| *v >= lo && *v <= hi)
        } else {
            s.parse::<u64>().ok().map(|v| v as i128).filter(|v| *v <= hi)
        };
        assert_eq!(parse_int(&s.as_bytes().to_vec(), lo, hi), expected, "{}", s);
    }
    assert_eq!(parse_int(&b"18446744073709551615".to_vec(), 0, u64::MAX as i128), Some(u64::MAX as i128));
    assert_eq!(parse_int(&b"18446744073709551616".to_vec(), 0, u64::MAX as i128), None);
    assert_eq!(parse_int(&b"99999999999999999999999999".to_vec(), 0, u64::MAX as i128), None);
    assert_eq!(parse_int(&b"-9223372036854775808".to_vec(), i64::MIN as i128, i64::MAX as i128), Some(i64::MIN as i128));
    assert_eq!(parse_int(&b"000123".to_vec(), 0, 255), Some(123));
}

#[test]
fn read_atoms() {
    let mut it = stream("42 -7 true false hello 300 x 18446744073709551615 \n");
    assert_eq!(it.read::<u32>(), 42);
    assert_eq!(it.read::<i64>(), -7);
    assert_eq!(it.read::<bool>(), true);
    assert_eq!(it.read::<bool>(), false);
    assert_eq!(it.read::<String>(), "hello".to_string());
    assert_eq!(it.read_checked::<u8>(), None);
    assert_eq!(it.read_checked::<i32>(), None);
    assert_eq!(it.read::<u64>(), u64::MAX);
    assert_eq!(it.read_checked::<u64>(), None);
}

#[test]
fn read_every_integer_type() {
    let mut it = stream("1 2 3 4 5 -6 -7 -8 -9 -10 \n");
    assert_eq!(it.read::<u8>(), 1);
    assert_eq!(it.read::<u16>(), 2);
    assert_eq!(it.read::<u32>(), 3);
    assert_eq!(it.read::<u64>(), 4);
    assert_eq!(it.read::<usize>(), 5);
    assert_eq!(it.read::<i8>(), -6);
    assert_eq!(it.read::<i16>(), -7);
    assert_eq!(it.read::<i32>(), -8);
    assert_eq!(it.read::<i64>(), -9);
    assert_eq!(it.read::<isize>(), -10);
}

#[test]
fn read_tuples() {
    let mut it = stream("3 abc 1\n4 5 6\n7 x\n");
    assert_eq!(it.read::<(u32, String)>(), (3, "abc".to_string()));
    assert_eq!(it.read_checked::<(i64, i64, i64)>(), Some((1, 4, 5)));
    assert_eq!(it.read_checked::<(u8, u8)>(), Some((6, 7)));
    assert_eq!(it.read_checked::<u8>(), None);
    let mut it = stream("1 x 2 3
");
    assert_eq!(it.read_checked::<(u8, u8)>(), None);
    assert_eq!(it.read::<(u8, u8)>(), (2, 3));
}

#[test]
fn read_string_rejects_invalid_utf8() {
    let mut it = IStream::new(vec![0xff, 0xfe, b' ', b'o', b'k', b'\n']);
    assert_eq!(it.read_checked::<String>(), None);
    assert_eq!(it.read::<String>(), "ok".to_string());
}

#[test]
fn read_collect_stops_at_size_or_failure() {
    let mut it = stream("1 2 3 4 5\n");
    assert_eq!(it.read_collect::<u32>(3), vec![1, 2, 3]);
    assert_eq!(it.read_collect::<u32>(10), vec![4, 5]);
    let mut it = stream("1 2 x 4\n");
    assert_eq!(it.read_collect::<u32>(10), vec![1, 2]);
    assert_eq!(it.read::<u32>(), 4);
}

#[test]
fn read_iter_reads_until_failure() {
    let mut it = stream("5 6 7 end 8\n");
    assert_eq!(it.read_iter::<u64>(), vec![5, 6, 7]);
    assert_eq!(it.read::<u64>(), 8);
    let mut it = stream("");
    assert_eq!(it.read_iter::<u64>(), Vec::<u64>::new());
}

#[test]
fn read_map_maps_n_values() {
    let mut it = stream("1 2 3 9\n");
    let v = it.read_map::<u64, u64, _, 3>(|x| x * 10);
    assert_eq!(v, vec![10, 20, 30]);
    assert_eq!(it.read::<u64>(), 9);
}

#[test]
fn tokens_are_nonempty_runs_without_delimiters() {
    let input = "  a\x01b c\x7f \n\n d\u{e9} \n";
    let mut it = IStream::new(input.as_bytes().to_vec());
    let mut tokens = Vec::new();
    while let Some(t) = it.next_token() {
        assert!(!t.is_empty());
        assert!(t.iter().all(|&b| b > b' '));
        tokens.push(t);
    }
    assert_eq!(tokens, vec![b"a".to_vec(), b"b".to_vec(), b"c\x7f".to_vec(), "d\u{e9}".as_bytes().to_vec()]);
}

#[test]
fn wide_integers_follow_str_parse() {
    let cases = [
        "0",
        "-0",
        "+17",
        "340282366920938463463374607431768211455",
        "340282366920938463463374607431768211456",
        "170141183460469231731687303715884105727",
        "170141183460469231731687303715884105728",
        "-170141183460469231731687303715884105728",
        "-170141183460469231731687303715884105729",
        "-5",
        "12a",
        "999999999999999999999999999999999999999999",
    ];
    for s in cases {
        let mut it = stream(&format!("{} ", s));
        assert_eq!(it.read_checked::<u128>(), s.parse::<u128>().ok(), "u128 {}", s);
        let mut it = stream(&format!("{} ", s));
        assert_eq!(it.read_checked::<i128>(), s.parse::<i128>().ok(), "i128 {}", s);
    }
}

#[test]
fn magnitude_and_sign() {
    assert_eq!(parse_magnitude(&b"-42".to_vec(), true), Some((true, 42)));
    assert_eq!(parse_magnitude(&b"-42".to_vec(), false), None);
    assert_eq!(parse_magnitude(&b"+42".to_vec(), false), Some((false, 42)));
    assert_eq!(parse_magnitude(&b"".to_vec(), true), None);
    assert_eq!(parse_magnitude(&b"4x".to_vec(), true), None);
}

#[test]
fn read_quadruples() {
    let mut it = stream("1 -2 true word 9\n");
    assert_eq!(
        it.read_checked::<(u8, i32, bool, String)>(),
        Some((1, -2, true, "word".to_string()))
    );
    assert_eq!(it.read_checked::<(u8, u8, u8, u8)>(), None);
}

#[test]
fn read_map_calls_f_on_the_values_read() {
    let mut it = stream("1 2 3\n");
    let got = it.read_map::<i32, i32, _, 3>(|x: i32| x * 10);
    assert_eq!(got, vec![10, 20, 30]);
    assert_eq!(it.read_checked::<i32>(), None);
}

#[test]
fn read_arrays_inside_tuples() {
    let mut it = stream("7 ab 1 2\n");
    assert_eq!(
        it.read_checked::<(i32, String, Arr<u8, 2>)>(),
        Some((7, "ab".to_string(), Arr(vec![1u8, 2])))
    );
    assert_eq!(it.read_checked::<i32>(), None);
    let mut it = stream("1 2 x 4\n");
    assert_eq!(it.read_checked::<Arr<u8, 3>>(), None);
    assert_eq!(it.read_checked::<u8>(), Some(4));
    let mut it = stream("5\n");
    assert_eq!(it.read_checked::<Arr<u8, 0>>(), Some(Arr(vec![])));
    assert_eq!(it.read::<u8>(), 5);
}

#[test]
fn read_long_tuples() {
    let mut it = stream("1 2 3 4 5 6 7 8 9 10 11 12\n");
    assert_eq!(
        it.read_checked::<(u8, u8, u8, u8, u8, u8, u8, u8, u8, u8, u8, u8)>(),
        Some((1, 2, 3, 4, 5, 6, 7, 8, 9, 10, 11, 12))
    );
    let mut it = stream("1 2 3 4 x\n");
    assert_eq!(it.read_checked::<(u8, u8, u8, u8, u8)>(), None);
}

#[test]
fn read_iter_of_arrays() {
    let mut it = stream("1 2 3 4 5\n");
    let v = it.read_iter::<Arr<u32, 2>>();
    assert_eq!(v, vec![Arr(vec![1u32, 2]), Arr(vec![3, 4])]);
}
