use regex::Regex;
use textutils::fortuner::{find_fortune_in_file, find_non_existing, has_dot, parse_u64, Cli, Config};

#[test]
fn test_parse_u64() {
    let res = parse_u64("a");
    assert!(res.is_err());
    assert!(res.unwrap_err().to_string().contains("\"a\" is not a valid integer"));

    let res = parse_u64("0");
    assert!(res.is_ok());
    assert_eq!(res.unwrap(), 0);

    let res = parse_u64("42");
    assert!(res.is_ok());
    assert_eq!(res.unwrap(), 42);
}

#[test]
fn a_number_may_have_a_plus_and_must_fit() {
    assert_eq!(parse_u64("+42").unwrap(), 42);
    assert_eq!(parse_u64("0042").unwrap(), 42);
    assert_eq!(parse_u64("18446744073709551615").unwrap(), u64::MAX);
    assert!(parse_u64("18446744073709551616").is_err());
    assert!(parse_u64("").is_err());
    assert!(parse_u64("+").is_err());
    assert!(parse_u64("-1").is_err());
    assert!(parse_u64("-0").is_err());
    assert!(parse_u64("++1").is_err());
    assert!(parse_u64("1 ").is_err());
    assert_eq!(parse_u64("x y").unwrap_err().to_string(), "\"x y\" is not a valid integer");
    // the same inputs as the standard library takes
    for s in ["7", "+7", "-7", "", "+", "007", "7a", "٣", "18446744073709551616"] {
        assert_eq!(parse_u64(s).ok(), s.parse::<u64>().ok(), "{:?}", s);
    }
}

fn cli(sources: &[&str], pattern: Option<&str>, seed: Option<&str>, insensitive: bool) -> Cli {
    Cli::new(
        sources.iter().map(|s| s.to_string()).collect(),
        pattern.map(|s| s.to_string()),
        seed.map(|s| s.to_string()),
        insensitive,
    )
    .unwrap()
}

#[test]
fn a_request_names_at_least_one_source() {
    let res = Cli::new(vec![], None, None, false);
    assert!(res.is_err());
    assert_eq!(
        res.unwrap_err().to_string(),
        "the following required arguments were not provided: <FILE>..."
    );
    let cli = cli(&["a", "b"], Some("x"), Some("1"), true);
    assert_eq!(cli.sources, vec!["a", "b"]);
    assert_eq!(cli.pattern, Some("x".to_string()));
    assert_eq!(cli.seed, Some("1".to_string()));
    assert!(cli.case_insensitive);
}

#[test]
fn the_first_source_that_is_missing_is_found() {
    let files = vec!["a".to_string(), "b".to_string(), "c".to_string()];
    assert_eq!(find_non_existing(&files, &vec![true, true, true]), None);
    assert_eq!(find_non_existing(&files, &vec![true, false, false]), Some("b".to_string()));
    assert_eq!(find_non_existing(&vec![], &vec![]), None);
}

#[test]
fn a_request_is_checked() {
    let e = Config::try_from(cli(&["a", "b"], None, None, false), &vec![true, false]).unwrap_err();
    assert_eq!(e.to_string(), "b: No such file or directory (os error 2)");
    let e = Config::try_from(cli(&["a"], Some("*x"), Some("y"), false), &vec![true]).unwrap_err();
    assert_eq!(e.to_string(), "Invalid --pattern \"*x\"");
    let e = Config::try_from(cli(&["a"], Some("x"), Some("y"), false), &vec![true]).unwrap_err();
    assert_eq!(e.to_string(), "invalid value 'y' for '--seed <SEED>'");

    let config = Config::try_from(cli(&["a"], None, Some("12"), false), &vec![true]).unwrap();
    assert_eq!(config.sources, vec!["a"]);
    assert_eq!(config.seed, Some(12));
    assert!(config.pattern.is_none());

    let config = Config::try_from(cli(&["a"], Some("fox"), None, true), &vec![true]).unwrap();
    let regex = config.pattern.unwrap();
    assert!(regex.is_match("A FOX"));
    assert_eq!(regex.as_str(), "(?i)fox");
    let config = Config::try_from(cli(&["a"], Some("fox"), None, false), &vec![true]).unwrap();
    assert!(!config.pattern.unwrap().is_match("A FOX"));
}

#[test]
fn a_saying_is_shown_whole_where_one_of_its_lines_matches() {
    let regex = Regex::new("fox").unwrap();
    let text = b"a fox\nb\n%\nc\n%\nd\nthe fox\r\n%\nfox without an end";
    let (lines, status) = find_fortune_in_file(text, &regex);
    assert!(status.is_ok());
    assert_eq!(lines, vec!["a fox", "b", "%", "d", "the fox", "%"]);

    // the mark is a line of its saying
    let (lines, _) = find_fortune_in_file(b"x\n%\ny\n%\n", &Regex::new("%").unwrap());
    assert_eq!(lines, vec!["x", "%", "y", "%"]);

    let (lines, status) = find_fortune_in_file(b"", &regex);
    assert!(status.is_ok());
    assert!(lines.is_empty());

    // reading ends at a line that is not UTF-8
    let (lines, status) = find_fortune_in_file(b"fox\n%\n\xff\nfox\n%\n", &regex);
    assert_eq!(lines, vec!["fox", "%"]);
    assert_eq!(status.unwrap_err().to_string(), "stream did not contain valid UTF-8");
}

#[test]
fn a_search_goes_through_the_files_in_order() {
    let config = Config { sources: vec![], pattern: Some(Regex::new("a").unwrap()), seed: None };
    let files = vec![b"a\n%\n".to_vec(), b"b\n%\n".to_vec(), b"ab\n%\n".to_vec()];
    let (lines, status) = config.run(&files);
    assert!(status.is_ok());
    assert_eq!(lines, vec!["a", "%", "ab", "%"]);

    let files = vec![b"a\n%\n\xff".to_vec(), b"a\n%\n".to_vec()];
    let (lines, status) = config.run(&files);
    assert!(status.is_err());
    assert_eq!(lines, vec!["a", "%"]);

    let config = Config { sources: vec![], pattern: None, seed: None };
    let (lines, status) = config.run(&files);
    assert!(status.is_ok());
    assert_eq!(lines, vec!["No pattern"]);
}

#[test]
fn a_path_with_a_dot_is_told_apart() {
    assert!(has_dot("fortunes/quotes.dat"));
    assert!(has_dot("."));
    assert!(!has_dot("fortunes/quotes"));
    assert!(!has_dot(""));
}
