use csv::StringRecord;
use textutils::cutr::{
    bytes_in_range, chars_in_range, config_args_into_config, create_interval_error,
    create_range_error, extract_bytes, extract_chars, extract_fields, extract_fields_from_file,
    fields_in_range, get_config, get_delimiter, get_extract, interval_to_range, parse_pos, run,
    run_file, run_line, Config, ConfigArgs, CutError, Extract,
};

#[test]
fn test_parse_pos() {
    // The empty string is an error
    assert!(parse_pos("").is_err());

    // Zero is an error
    let res = parse_pos("0");
    assert!(res.is_err());
    assert_eq!(res.unwrap_err().to_string(), "illegal list value: \"0\"",);

    let res = parse_pos("0-1");
    assert!(res.is_err());
    assert_eq!(res.unwrap_err().to_string(), "illegal list value: \"0\"",);

    // A leading "+" is an error
    let res = parse_pos("+1");
    assert!(res.is_err());
    assert_eq!(res.unwrap_err().to_string(), "illegal list value: \"+1\"",);

    let res = parse_pos("+1-2");
    assert!(res.is_err());
    assert_eq!(res.unwrap_err().to_string(), "illegal list value: \"+1-2\"",);

    let res = parse_pos("1-+2");
    assert!(res.is_err());
    assert_eq!(res.unwrap_err().to_string(), "illegal list value: \"1-+2\"",);

    // Any non-number is an error
    let res = parse_pos("a");
    assert!(res.is_err());
    assert_eq!(res.unwrap_err().to_string(), "illegal list value: \"a\"",);

    let res = parse_pos("1,a");
    assert!(res.is_err());
    assert_eq!(res.unwrap_err().to_string(), "illegal list value: \"a\"",);

    let res = parse_pos("1-a");
    assert!(res.is_err());
    assert_eq!(res.unwrap_err().to_string(), "illegal list value: \"1-a\"",);

    let res = parse_pos("a-1");
    assert!(res.is_err());
    assert_eq!(res.unwrap_err().to_string(), "illegal list value: \"a-1\"",);

    // Wonky ranges
    let res = parse_pos("-");
    assert!(res.is_err());

    let res = parse_pos(",");
    assert!(res.is_err());

    let res = parse_pos("1,");
    assert!(res.is_err());

    let res = parse_pos("1-");
    assert!(res.is_err());

    let res = parse_pos("1-1-1");
    assert!(res.is_err());

    let res = parse_pos("1-1-a");
    assert!(res.is_err());

    // First number must be less than second
    let res = parse_pos("1-1");
    assert!(res.is_err());
    assert_eq!(
        res.unwrap_err().to_string(),
        "First number in range (1) must be lower than second number (1)"
    );

    let res = parse_pos("2-1");
    assert!(res.is_err());
    assert_eq!(
        res.unwrap_err().to_string(),
        "First number in range (2) must be lower than second number (1)"
    );

    // All the following are acceptable
    let res = parse_pos("1");
    assert!(res.is_ok());
    assert_eq!(res.unwrap(), vec![0..1]);

    let res = parse_pos("01");
    assert!(res.is_ok());
    assert_eq!(res.unwrap(), vec![0..1]);

    let res = parse_pos("1,3");
    assert!(res.is_ok());
    assert_eq!(res.unwrap(), vec![0..1, 2..3]);

    let res = parse_pos("001,0003");
    assert!(res.is_ok());
    assert_eq!(res.unwrap(), vec![0..1, 2..3]);

    let res = parse_pos("1-3");
    assert!(res.is_ok());
    assert_eq!(res.unwrap(), vec![0..3]);

    let res = parse_pos("0001-03");
    assert!(res.is_ok());
    assert_eq!(res.unwrap(), vec![0..3]);

    let res = parse_pos("1,7,3-5");
    assert!(res.is_ok());
    assert_eq!(res.unwrap(), vec![0..1, 6..7, 2..5]);

    let res = parse_pos("15,19-20");
    assert!(res.is_ok());
    assert_eq!(res.unwrap(), vec![14..15, 18..20]);
}

#[test]
fn test_extract_chars() {
    assert_eq!(extract_chars("", &[0..1]), "".to_string());
    assert_eq!(extract_chars("ábc", &[0..1]), "á".to_string());
    assert_eq!(extract_chars("ábc", &[0..1, 2..3]), "ác".to_string());
    assert_eq!(extract_chars("ábc", &[0..3]), "ábc".to_string());
    assert_eq!(extract_chars("ábc", &[2..3, 1..2]), "cb".to_string());
    assert_eq!(extract_chars("ábc", &[0..1, 1..2, 4..5]), "áb".to_string());
}

#[test]
fn test_extract_bytes() {
    assert_eq!(extract_bytes("ábc", &[0..1]), "�".to_string());
    assert_eq!(extract_bytes("ábc", &[0..2]), "á".to_string());
    assert_eq!(extract_bytes("ábc", &[0..3]), "áb".to_string());
    assert_eq!(extract_bytes("ábc", &[0..4]), "ábc".to_string());
    assert_eq!(extract_bytes("ábc", &[3..4, 2..3]), "cb".to_string());
    assert_eq!(extract_bytes("ábc", &[0..2, 5..6]), "á".to_string());
}

#[test]
fn test_extract_fields() {
    let rec = StringRecord::from(vec!["Captain", "Sham", "12345"]);
    assert_eq!(extract_fields(&rec, &[0..1]), &["Captain"]);
    assert_eq!(extract_fields(&rec, &[1..2]), &["Sham"]);
    assert_eq!(extract_fields(&rec, &[0..1, 2..3]), &["Captain", "12345"]);
    assert_eq!(extract_fields(&rec, &[0..1, 3..4]), &["Captain"]);
    assert_eq!(extract_fields(&rec, &[1..2, 0..1]), &["Sham", "Captain"]);
}

fn args(delimiter: &str, fields: Option<&str>, bytes: Option<&str>, chars: Option<&str>) -> ConfigArgs {
    ConfigArgs {
        files: vec!["-".to_string()],
        delimiter: delimiter.to_string(),
        field_positions: fields.map(|s| s.to_string()),
        byte_positions: bytes.map(|s| s.to_string()),
        char_positions: chars.map(|s| s.to_string()),
    }
}

#[test]
fn parse_pos_echoes_the_empty_item() {
    assert_eq!(parse_pos("").unwrap_err().to_string(), "illegal list value: \"\"");
    assert_eq!(parse_pos("1,").unwrap_err().to_string(), "illegal list value: \"\"");
    assert_eq!(parse_pos(",").unwrap_err().to_string(), "illegal list value: \"\"");
    assert_eq!(parse_pos("-").unwrap_err().to_string(), "illegal list value: \"-\"");
    assert_eq!(parse_pos("1-").unwrap_err().to_string(), "illegal list value: \"1-\"");
    assert_eq!(parse_pos("1-1-1").unwrap_err().to_string(), "illegal list value: \"1-1-1\"");
    assert_eq!(parse_pos("-1").unwrap_err().to_string(), "illegal list value: \"-1\"");
    assert_eq!(parse_pos("1 ").unwrap_err().to_string(), "illegal list value: \"1 \"");
}

#[test]
fn parse_pos_zero_is_echoed_as_a_number() {
    assert_eq!(parse_pos("000").unwrap_err().to_string(), "illegal list value: \"0\"");
    assert_eq!(parse_pos("00-5").unwrap_err().to_string(), "illegal list value: \"0\"");
    assert_eq!(parse_pos("0-x").unwrap_err().to_string(), "illegal list value: \"0-x\"");
}

#[test]
fn parse_pos_refuses_numbers_that_do_not_fit() {
    let huge = "99999999999999999999999999";
    assert!(matches!(parse_pos(huge), Err(CutError::ValueTooLarge)));
    assert_eq!(
        parse_pos(huge).unwrap_err().to_string(),
        "number too large to fit in target type"
    );
    assert!(matches!(parse_pos(&format!("1-{}", huge)), Err(CutError::ValueTooLarge)));
    // the first number is looked at before the second is read
    assert!(matches!(parse_pos(&format!("0-{}", huge)), Err(CutError::IllegalListValue(_))));
    let max = usize::MAX;
    assert_eq!(parse_pos(&max.to_string()).unwrap(), vec![max - 1..max]);
}

#[test]
fn parse_pos_gives_each_kind_of_error() {
    assert!(matches!(parse_pos("a"), Err(CutError::IllegalListValue(t)) if t == "a"));
    assert!(matches!(parse_pos("7-3"), Err(CutError::InvalidRangeOrder(7, 3))));
    assert!(matches!(parse_pos("1-0"), Err(CutError::InvalidRangeOrder(1, 0))));
}

#[test]
fn a_position_selects_one_index() {
    for n in [1usize, 9, 10, 42, 100, 65536] {
        assert_eq!(parse_pos(&n.to_string()).unwrap(), vec![n - 1..n]);
    }
}

#[test]
fn a_span_selects_from_its_first_to_its_second() {
    for (a, b) in [(1usize, 2usize), (3, 5), (9, 10), (99, 1000)] {
        assert_eq!(parse_pos(&format!("{}-{}", a, b)).unwrap(), vec![a - 1..b]);
    }
}

#[test]
fn a_span_out_of_order_cites_both_numbers() {
    for (a, b) in [(1usize, 1usize), (5, 3), (10, 9), (7, 0), (0, 0)] {
        assert_eq!(
            parse_pos(&format!("{}-{}", a, b)).unwrap_err().to_string(),
            format!("First number in range ({}) must be lower than second number ({})", a, b)
        );
    }
}

#[test]
fn leading_zeros_change_nothing() {
    assert_eq!(parse_pos("01").unwrap(), parse_pos("1").unwrap());
    assert_eq!(parse_pos("0001-03").unwrap(), parse_pos("1-3").unwrap());
    assert_eq!(parse_pos("007").unwrap(), vec![6..7]);
    assert_eq!(
        parse_pos("03-0003").unwrap_err().to_string(),
        parse_pos("3-3").unwrap_err().to_string()
    );
}

#[test]
fn a_comma_joins_two_lists() {
    let mut joined = parse_pos("1,7").unwrap();
    joined.extend(parse_pos("3-5,1").unwrap());
    assert_eq!(parse_pos("1,7,3-5,1").unwrap(), joined);
    assert_eq!(joined, vec![0..1, 6..7, 2..5, 0..1]);
    // the error of the first item that has one
    assert_eq!(parse_pos("1,x,0").unwrap_err().to_string(), "illegal list value: \"x\"");
    assert_eq!(parse_pos("1,0,x").unwrap_err().to_string(), "illegal list value: \"0\"");
}

#[test]
fn interval_to_range_reads_one_item() {
    assert_eq!(interval_to_range("3").unwrap(), 2..3);
    assert_eq!(interval_to_range("3-9").unwrap(), 2..9);
    assert!(interval_to_range("1,2").is_err());
    assert!(create_interval_error("x").is_err());
    assert!(matches!(create_range_error(CutError::NoPositions), Err(CutError::NoPositions)));
}

#[test]
fn a_range_past_the_end_is_cut_short() {
    assert_eq!(extract_chars("abc", &[1..10]), "bc");
    assert_eq!(extract_chars("abc", &[3..4]), "");
    assert_eq!(extract_chars("abc", &[0..usize::MAX]), "abc");
    assert_eq!(extract_bytes("abc", &[1..10]), "bc");
    assert_eq!(extract_bytes("", &[0..1]), "");
    let rec = StringRecord::from(vec!["A", "B", "C"]);
    assert_eq!(extract_fields(&rec, &[1..10]), &["B", "C"]);
    assert_eq!(extract_fields(&rec, &[0..usize::MAX]), &["A", "B", "C"]);
    let none: Vec<String> = vec![];
    assert_eq!(extract_fields(&StringRecord::new(), &[0..1]), none);
    assert_eq!(fields_in_range(&rec, &(2..1)), none);
    assert_eq!(chars_in_range(&vec!['x', 'y'], &(1..5)), "y");
    assert_eq!(bytes_in_range(b"xy", &(0..1)), "x");
}

#[test]
fn a_character_of_several_bytes_stays_whole() {
    assert_eq!(extract_chars("日本語", &[0..1]), "日");
    assert_eq!(extract_chars("😀a", &[0..1]), "😀");
    assert_eq!(extract_chars("😀a", &[1..2]), "a");
}

#[test]
fn a_character_cut_in_two_is_replaced() {
    assert_eq!(extract_bytes("日本語", &[0..1]), "\u{FFFD}");
    assert_eq!(extract_bytes("日本語", &[0..3]), "日");
    // each range is read by itself
    assert_eq!(extract_bytes("á", &[0..1, 1..2]), "\u{FFFD}\u{FFFD}");
    assert_eq!(extract_bytes("aáb", &[0..1, 3..4]), "ab");
}

#[test]
fn fields_follow_the_order_of_the_ranges() {
    let rec = StringRecord::from(vec!["A", "B"]);
    assert_eq!(extract_fields(&rec, &[1..2, 0..1]), &["B", "A"]);
    assert_eq!(extract_fields(&rec, &[0..2, 0..1]), &["A", "B", "A"]);
    assert_eq!(extract_chars("AB", &[1..2, 0..1]), "BA");
}

#[test]
fn a_request_needs_a_mode_a_delimiter_and_a_list() {
    let e = config_args_into_config(args("\t", None, None, None)).unwrap_err();
    assert!(matches!(e, CutError::MissingMode));
    assert_eq!(e.to_string(), "Must have --fields, --bytes, or --chars");

    let e = config_args_into_config(args(",,", Some("1"), None, None)).unwrap_err();
    assert_eq!(e.to_string(), "--delim \",,\" must be a single byte");
    let e = get_config(args("", Some("1"), None, None)).unwrap_err();
    assert_eq!(e.to_string(), "--delim \"\" must be a single byte");
    let e = get_config(args("é", Some("1"), None, None)).unwrap_err();
    assert!(matches!(e, CutError::InvalidDelimiter(d) if d == "é"));

    let e = config_args_into_config(args(",", None, Some("2-1"), None)).unwrap_err();
    assert!(matches!(e, CutError::InvalidRangeOrder(2, 1)));
    // a missing mode is found before a bad delimiter, a bad delimiter before a bad list
    let e = config_args_into_config(args(",,", None, None, None)).unwrap_err();
    assert!(matches!(e, CutError::MissingMode));
    let e = config_args_into_config(args(",,", Some("x"), None, None)).unwrap_err();
    assert!(matches!(e, CutError::InvalidDelimiter(_)));

    let e = get_extract(&args(",", None, None, None)).unwrap_err();
    assert_eq!(e.to_string(), "No positions were specified");
    assert_eq!(get_delimiter(&args(";", None, None, None)).unwrap(), b';');
}

#[test]
fn a_request_is_read_under_its_mode() {
    let config = config_args_into_config(args("\t", None, None, Some("1,3-4"))).unwrap();
    assert_eq!(config.delimiter, b'\t');
    assert_eq!(config.files, vec!["-".to_string()]);
    assert!(matches!(config.extract, Extract::Chars(p) if p == vec![0..1, 2..4]));
    let config = config_args_into_config(args(",", None, Some("2"), None)).unwrap();
    assert!(matches!(config.extract, Extract::Bytes(p) if p == vec![1..2]));
    let config = config_args_into_config(args(",", Some("2"), Some("x"), Some("y"))).unwrap();
    assert!(matches!(config.extract, Extract::Fields(p) if p == vec![1..2]));
}

fn config(delimiter: u8, extract: Extract) -> Config {
    Config { files: vec![], delimiter, extract }
}

#[test]
fn lines_are_cut_one_by_one() {
    let chars = config(b'\t', Extract::Chars(vec![0..1]));
    assert_eq!(run_line("ábc", &chars), Some("á".to_string()));
    assert_eq!(run_file("ábc\r\nxyz\n\nlast".as_bytes(), &chars), vec!["á", "x", "", "l"]);
    let bytes = config(b'\t', Extract::Bytes(vec![1..3]));
    assert_eq!(run_line("abcd", &bytes), Some("bc".to_string()));
    assert_eq!(run_file(b"abcd\nxy\n", &bytes), vec!["bc", "y"]);
    // a line that is not UTF-8 is passed over
    assert_eq!(run_file(b"ab\n\xff\xfe\ncd\n", &chars), vec!["a", "c"]);
    let fields = config(b'\t', Extract::Fields(vec![0..1]));
    assert_eq!(run_line("a\tb", &fields), None);
}

#[test]
fn records_are_cut_field_by_field() {
    let fields = config(b',', Extract::Fields(vec![0..1, 2..3]));
    assert_eq!(run_file(b"a,b,c\n1,2,3\n", &fields), vec!["a,c", "1,3"]);
    // a quoted field may hold the delimiter, a quote or a newline
    let second = config(b',', Extract::Fields(vec![1..2]));
    assert_eq!(
        run_file(b"x,\"y,z\",w\n1,\"say \"\"hi\"\"\",3\n4,\"two\nlines\",6\n", &second),
        vec!["y,z", "say \"hi\"", "two\nlines"]
    );
    let tabs = config(b'\t', Extract::Fields(vec![1..2, 0..1]));
    assert_eq!(run_file(b"a\tb\n1\t2\n", &tabs), vec!["b\ta", "2\t1"]);
    // a record with another number of fields than the first is passed over
    let first = config(b',', Extract::Fields(vec![0..1]));
    assert_eq!(run_file(b"a,b\n1\n2,3\n", &first), vec!["a", "2"]);
    // the first record is cut like every other; a text without any record gives no line
    assert_eq!(run_file(b"", &first), Vec::<String>::new());
    assert_eq!(run_file(b"\n\n", &first), Vec::<String>::new());
    assert_eq!(run_file(b"x\n", &first), vec!["x"]);
    // a first record whose fields are all passed over is still a record
    assert_eq!(run_file(b"x\n", &config(b',', Extract::Fields(vec![5..6]))), vec![""]);
    assert_eq!(
        extract_fields_from_file(b"h1,h2\nv1,v2\n", &vec![1..2], &first),
        vec!["h2", "v2"]
    );
}

#[test]
fn files_are_cut_in_order() {
    let chars = config(b'\t', Extract::Chars(vec![0..2]));
    let contents = vec![Some(b"abc\ndef\n".to_vec()), None, Some(b"xyz".to_vec())];
    assert_eq!(run(&chars, &contents).unwrap(), vec!["ab", "de", "xy"]);
    assert_eq!(run(&chars, &vec![]).unwrap(), Vec::<String>::new());
}

#[test]
fn any_byte_may_part_the_fields() {
    let first = |delimiter: u8| config(delimiter, Extract::Fields(vec![0..1]));
    assert_eq!(run_file(b"a;b\n1;2\n", &first(b';')), vec!["a", "1"]);
    assert_eq!(run_file(b"a b\n1 2\n", &first(b' ')), vec!["a", "1"]);
    // the delimiter is written between the fields as the character of its number
    let both = config(0xe9, Extract::Fields(vec![0..2]));
    assert_eq!(run_file(b"a\xe9b\n", &both), vec!["a\u{e9}b"]);
    for delimiter in [b'"', b'\n', b'\r', 0u8, 0xffu8] {
        let out = run_file(b"a,b\n\"c\",d\n", &first(delimiter));
        assert!(!out.is_empty());
    }
}

#[test]
fn a_range_of_two_zeros_is_out_of_order() {
    assert_eq!(
        interval_to_range("0-0").unwrap_err().to_string(),
        "First number in range (0) must be lower than second number (0)"
    );
    assert!(matches!(parse_pos("0-0"), Err(CutError::InvalidRangeOrder(0, 0))));
    assert!(matches!(parse_pos("00-000"), Err(CutError::InvalidRangeOrder(0, 0))));
    assert!(matches!(parse_pos("1,0-0"), Err(CutError::InvalidRangeOrder(0, 0))));
    // a range that begins with zero and is in order is refused for the zero
    assert_eq!(parse_pos("0-1").unwrap_err().to_string(), "illegal list value: \"0\"");
    assert_eq!(parse_pos("00-5").unwrap_err().to_string(), "illegal list value: \"0\"");
    let huge = "99999999999999999999999999";
    assert_eq!(
        parse_pos(&format!("0-{}", huge)).unwrap_err().to_string(),
        "illegal list value: \"0\""
    );
    assert_eq!(parse_pos("0").unwrap_err().to_string(), "illegal list value: \"0\"");
}

#[test]
fn zeros_in_front_of_any_number_change_nothing() {
    assert_eq!(parse_pos("01,007,0003-05").unwrap(), parse_pos("1,7,3-5").unwrap());
    assert_eq!(parse_pos("1,07,3-005,00002").unwrap(), vec![0..1, 6..7, 2..5, 1..2]);
    assert_eq!(
        parse_pos("01,005-03,x").unwrap_err().to_string(),
        parse_pos("1,5-3,x").unwrap_err().to_string()
    );
}

#[test]
fn on_one_byte_characters_bytes_and_characters_select_the_same() {
    let line = "The quick brown fox";
    for ranges in [vec![0..1], vec![4..9, 0..3], vec![16..30, 2..2, 40..41], vec![0..usize::MAX]] {
        assert_eq!(extract_bytes(line, &ranges), extract_chars(line, &ranges));
    }
    assert_eq!(extract_bytes(line, &[4..9, 0..3]), "quickThe");
}
