use textutils::tailr::Offset::{End, Start};
use textutils::tailr::{
    count_lines_bytes, fits, get_start_index, parse_bytes, parse_lines, parse_offset, print_bytes,
    print_lines, run, run_file, Config,
};

#[test]
fn test_count_lines_bytes() {
    let res = count_lines_bytes(b"Only one line in here!!\n");
    assert_eq!(res, (1, 24));

    let res = count_lines_bytes(b"one\ntwo\nthree\nfour\nfive\nsix\nseven\neight\nnine\nten\n");
    assert_eq!(res, (10, 49));
}

#[test]
fn test_get_start_index() {
    // +0 from an empty file (0 lines/bytes) returns None
    assert_eq!(get_start_index(&Start(0), 0), None);

    // +0 from a nonempty file returns an index that
    // is one less than the number of lines/bytes
    assert_eq!(get_start_index(&Start(0), 1), Some(0));

    // Taking 0 lines/bytes returns None
    assert_eq!(get_start_index(&End(0), 1), None);

    // Taking any lines/bytes from an empty file returns None
    assert_eq!(get_start_index(&Start(1), 0), None);

    // Taking more lines/bytes than is available returns None
    assert_eq!(get_start_index(&Start(2), 1), None);

    // When starting line/byte is less than total lines/bytes,
    // return one less than starting number
    assert_eq!(get_start_index(&Start(1), 10), Some(0));
    assert_eq!(get_start_index(&Start(2), 10), Some(1));
    assert_eq!(get_start_index(&Start(3), 10), Some(2));

    // When starting line/byte is negative and less than total,
    // return total - start
    assert_eq!(get_start_index(&End(1), 10), Some(9));
    assert_eq!(get_start_index(&End(2), 10), Some(8));
    assert_eq!(get_start_index(&End(3), 10), Some(7));

    // When the starting line/byte is negative and more than the total,
    // return 0 to print the whole file
    assert_eq!(get_start_index(&End(20), 10), Some(0));
}

#[test]
fn test_parse_offset() {
    // All integers should be interpreted as negative numbers
    let res = parse_offset("3");
    assert!(res.is_some());
    assert_eq!(res.unwrap(), End(3));

    // A leading "+" should result in a positive number
    let res = parse_offset("+3");
    assert!(res.is_some());
    assert_eq!(res.unwrap(), Start(3));

    // An explicit "-" value should result in a negative number
    let res = parse_offset("-3");
    assert!(res.is_some());
    assert_eq!(res.unwrap(), End(3));

    // Zero is zero
    let res = parse_offset("0");
    assert!(res.is_some());
    assert_eq!(res.unwrap(), End(0));

    // Plus zero is special
    let res = parse_offset("+0");
    assert!(res.is_some());
    assert_eq!(res.unwrap(), Start(0));

    // Test boundaries
    let res = parse_offset(&u64::MAX.to_string());
    assert!(res.is_some());
    assert_eq!(res.unwrap(), End(u64::MAX));

    let res = parse_offset(&format!("+{}", u64::MAX));
    assert!(res.is_some());
    assert_eq!(res.unwrap(), Start(u64::MAX));

    // A floating-point value is invalid
    let res = parse_offset("3.14");
    assert!(res.is_none());

    // Any non-integer string is invalid
    let res = parse_offset("foo");
    assert!(res.is_none());
}

#[test]
fn an_offset_is_digits_behind_at_most_one_sign() {
    assert_eq!(parse_offset(""), None);
    assert_eq!(parse_offset("+"), None);
    assert_eq!(parse_offset("-"), None);
    assert_eq!(parse_offset("++1"), None);
    assert_eq!(parse_offset("1+"), None);
    assert_eq!(parse_offset(" 1"), None);
    assert_eq!(parse_offset("007"), Some(End(7)));
    assert_eq!(parse_offset("-007"), Some(End(7)));
}

#[test]
fn an_offset_must_fit() {
    assert!(fits("18446744073709551615"));
    assert!(!fits("18446744073709551616"));
    assert!(!fits("+99999999999999999999999"));
    assert!(fits("foo"));
    assert!(fits(""));
}

#[test]
fn a_count_that_is_none_is_complained_of() {
    assert_eq!(parse_lines("+5"), Ok(Start(5)));
    assert_eq!(parse_lines("foo"), Err("illegal line count -- foo".to_string()));
    assert_eq!(parse_bytes("-12"), Ok(End(12)));
    assert_eq!(parse_bytes("1.5"), Err("illegal byte count -- 1.5".to_string()));
}

#[test]
fn lines_are_shown_from_the_start_index_on() {
    let text = b"one\ntwo\nthree\n";
    assert_eq!(print_lines(text, &End(2), 3), "two\nthree\n");
    assert_eq!(print_lines(text, &Start(2), 3), "two\nthree\n");
    assert_eq!(print_lines(text, &Start(0), 3), "one\ntwo\nthree\n");
    assert_eq!(print_lines(text, &End(10), 3), "one\ntwo\nthree\n");
    assert_eq!(print_lines(text, &End(0), 3), "");
    assert_eq!(print_lines(text, &Start(4), 3), "");
    assert_eq!(print_lines(b"a\r\nb", &End(1), 2), "b");
    // reading ends at a line that is not UTF-8
    assert_eq!(print_lines(b"a\nb\n\xff\nc\n", &Start(2), 4), "b\n");
}

#[test]
fn bytes_are_shown_from_the_start_index_on() {
    assert_eq!(print_bytes(b"abcdef", &End(3), 6), "def");
    assert_eq!(print_bytes(b"abcdef", &Start(3), 6), "cdef");
    assert_eq!(print_bytes(b"abcdef", &End(0), 6), "");
    assert_eq!(print_bytes("ábc".as_bytes(), &End(3), 4), "\u{FFFD}bc");
    assert_eq!(print_bytes(b"abc", &Start(9), 10), "");
}

#[test]
fn a_file_is_shown_by_bytes_where_bytes_are_asked_for() {
    let by_lines = Config { files: vec![], lines: End(1), bytes: None, quiet: false };
    assert_eq!(run_file(b"a\nb\n", &by_lines, 2, 4), "b\n");
    let by_bytes = Config { files: vec![], lines: End(1), bytes: Some(End(3)), quiet: false };
    assert_eq!(run_file(b"a\nb\n", &by_bytes, 2, 4), "\nb\n");
}

#[test]
fn several_files_are_shown_under_their_names() {
    let files = vec!["a.txt".to_string(), "gone".to_string(), "b.txt".to_string()];
    let contents = vec![Some(b"1\n2\n".to_vec()), None, Some(b"3\n4\n".to_vec())];
    let config = Config { files: files.clone(), lines: End(1), bytes: None, quiet: false };
    assert_eq!(
        run(&config, &contents).unwrap(),
        "==> a.txt <==\n2\n\n==> b.txt <==\n4\n"
    );
    let quiet = Config { files, lines: End(1), bytes: None, quiet: true };
    assert_eq!(run(&quiet, &contents).unwrap(), "2\n4\n");
    let single = Config { files: vec!["a".to_string()], lines: Start(2), bytes: None, quiet: false };
    assert_eq!(run(&single, &vec![Some(b"1\n2\n3".to_vec())]).unwrap(), "2\n3");
}
