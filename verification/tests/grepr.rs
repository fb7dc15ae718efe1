use regex::{Regex, RegexBuilder};
use textutils::grepr::{
    find_files, find_files_in_path, find_lines, get_config, print_result, run, Arguments, Config,
    Input, MyError, PathKind,
};

#[test]
fn test_find_lines() {
    let text = b"Lorem\nIpsum\r\nDOLOR";

    // The pattern _or_ should match the one line, "Lorem"
    let re1 = Regex::new("or").unwrap();
    let matches = find_lines(text, &re1, false);
    assert!(matches.is_ok());
    assert_eq!(matches.unwrap().len(), 1);

    // When inverted, the function should match the other two lines
    let matches = find_lines(text, &re1, true);
    assert!(matches.is_ok());
    assert_eq!(matches.unwrap().len(), 2);

    // This regex will be case-insensitive
    let re2 = RegexBuilder::new("or").case_insensitive(true).build().unwrap();

    // The two lines "Lorem" and "DOLOR" should match
    let matches = find_lines(text, &re2, false);
    assert!(matches.is_ok());
    assert_eq!(matches.unwrap().len(), 2);

    // When inverted, the one remaining line should match
    let matches = find_lines(text, &re2, true);
    assert!(matches.is_ok());
    assert_eq!(matches.unwrap().len(), 1);
}

#[test]
fn the_lines_found_keep_their_endings_and_their_order() {
    let re = Regex::new("o").unwrap();
    assert_eq!(
        find_lines(b"Lorem\nIpsum\r\nDolor\r\nfoo", &re, false).unwrap(),
        vec!["Lorem\n", "Dolor\r\n", "foo"]
    );
    assert_eq!(find_lines(b"Lorem\nIpsum\r\nDolor", &re, true).unwrap(), vec!["Ipsum\r\n"]);
    assert!(find_lines(b"", &re, true).unwrap().is_empty());
    // reading ends at a line that is not UTF-8
    assert_eq!(find_lines(b"one\n\xc3\x28\ntwo\n", &re, false).unwrap(), vec!["one\n"]);
}

fn arguments(pattern: &str, insensitive: bool) -> Arguments {
    Arguments {
        pattern: pattern.to_string(),
        files: vec!["f".to_string()],
        insensitive,
        recursive: true,
        count: false,
        invert_match: true,
    }
}

#[test]
fn the_pattern_of_a_search_is_compiled() {
    let config = get_config(arguments("fo+", false)).unwrap();
    assert!(config.pattern.is_match("a foo"));
    assert!(!config.pattern.is_match("A FOO"));
    assert_eq!(config.files, vec!["f"]);
    assert!(config.recursive && !config.count && config.invert_match);
    let config = get_config(arguments("fo+", true)).unwrap();
    assert!(config.pattern.is_match("A FOO"));
    assert_eq!(config.pattern.as_str(), "fo+");
    let e = get_config(arguments("*foo", false)).unwrap_err();
    assert_eq!(e.to_string(), "Invalid pattern \"*foo\"");
}

fn config(pattern: &str, count: bool, invert_match: bool) -> Config {
    Config {
        pattern: Regex::new(pattern).unwrap(),
        files: vec![],
        recursive: false,
        count,
        invert_match,
    }
}

#[test]
fn a_result_is_listed_or_counted() {
    let lines = vec!["a\n".to_string(), "b\n".to_string()];
    assert_eq!(print_result(&lines, None, &config("x", false, false)), "a\nb\n");
    assert_eq!(print_result(&lines, Some("f.txt"), &config("x", false, false)), "f.txt:a\nf.txt:b\n");
    assert_eq!(print_result(&lines, None, &config("x", true, false)), "2\n");
    assert_eq!(print_result(&lines, Some("f.txt"), &config("x", true, false)), "f.txt:2\n");
    assert_eq!(print_result(&vec![], Some("f.txt"), &config("x", true, false)), "f.txt:0\n");
    assert_eq!(print_result(&vec![], Some("f.txt"), &config("x", false, false)), "");
}

#[test]
fn several_files_are_searched_in_order() {
    let inputs = vec![
        Some(Input { path: "a.txt".to_string(), content: b"fox\ndog\n".to_vec() }),
        None,
        Some(Input { path: "b.txt".to_string(), content: b"cat\nfoxes\n".to_vec() }),
    ];
    assert_eq!(run(&config("fox", false, false), &inputs).unwrap(), "a.txt:fox\nb.txt:foxes\n");
    assert_eq!(run(&config("fox", true, true), &inputs).unwrap(), "a.txt:1\nb.txt:1\n");
    let one = vec![Some(Input { path: "a.txt".to_string(), content: b"fox\ndog\n".to_vec() })];
    assert_eq!(run(&config("o", false, false), &one).unwrap(), "fox\ndog\n");
    // a path that could not be opened still counts as one of several
    let two = vec![None, Some(Input { path: "-".to_string(), content: b"fox\n".to_vec() })];
    assert_eq!(run(&config("o", false, false), &two).unwrap(), "-:fox\n");
}

#[test]
fn test_find_files() {
    // Verify that the function finds a file known to exist
    let files = find_files(&["./tests/inputs/fox.txt".to_string()], vec![PathKind::File], false);
    assert_eq!(files.len(), 1);
    assert_eq!(files[0].as_ref().unwrap(), "./tests/inputs/fox.txt");

    // The function should reject a directory without the recursive option
    let files =
        find_files(&["./tests/inputs".to_string()], vec![PathKind::Directory(vec![])], false);
    assert_eq!(files.len(), 1);
    if let Err(e) = &files[0] {
        assert_eq!(e.to_string(), "./tests/inputs is a directory");
    }

    // Verify the function recurses to find four files in the directory
    let below = vec![
        Ok("./tests/inputs/nobody.txt".to_string()),
        Ok("./tests/inputs/bustle.txt".to_string()),
        Ok("./tests/inputs/fox.txt".to_string()),
        Ok("./tests/inputs/empty.txt".to_string()),
    ];
    let res = find_files(&["./tests/inputs".to_string()], vec![PathKind::Directory(below)], true);
    let mut files: Vec<String> =
        res.iter().map(|r| r.as_ref().unwrap().replace("\\", "/")).collect();
    files.sort();
    assert_eq!(files.len(), 4);
    assert_eq!(
        files,
        vec![
            "./tests/inputs/bustle.txt",
            "./tests/inputs/empty.txt",
            "./tests/inputs/fox.txt",
            "./tests/inputs/nobody.txt",
        ]
    );

    // A name that stands for a nonexistent file
    let bad: String = "q7Zk2Lp".to_string();

    // Verify that the function returns the bad file as an error
    let reason = "No such file or directory (os error 2)".to_string();
    let files = find_files(&[bad], vec![PathKind::Missing(reason)], false);
    assert_eq!(files.len(), 1);
    assert!(files[0].is_err());
}

#[test]
fn each_path_gives_what_the_file_system_holds_there() {
    let found = find_files_in_path("-", PathKind::Missing("no".to_string()), false);
    assert_eq!(found.len(), 1);
    assert_eq!(found[0].as_ref().unwrap(), "-");
    let found = find_files_in_path("gone", PathKind::Missing("no such file".to_string()), true);
    assert_eq!(found[0].as_ref().unwrap_err().to_string(), "gone: no such file");
    let found = find_files_in_path("dir", PathKind::Directory(vec![]), false);
    assert_eq!(found[0].as_ref().unwrap_err().to_string(), "dir is a directory");
    let below = vec![Ok("dir/a".to_string()), Err(MyError { error_message: "x".to_string() })];
    let found = find_files_in_path("dir", PathKind::Directory(below), true);
    assert_eq!(found.len(), 2);
    assert_eq!(found[0].as_ref().unwrap(), "dir/a");
    assert_eq!(found[1].as_ref().unwrap_err().to_string(), "x");
    assert!(find_files_in_path("pipe", PathKind::Other, true).is_empty());
    let paths = vec!["a".to_string(), "d".to_string(), "-".to_string()];
    let kinds = vec![PathKind::File, PathKind::Directory(vec![]), PathKind::Other];
    let found = find_files(&paths, kinds, false);
    assert_eq!(found.len(), 3);
    assert_eq!(found[0].as_ref().unwrap(), "a");
    assert_eq!(found[1].as_ref().unwrap_err().to_string(), "d is a directory");
    assert_eq!(found[2].as_ref().unwrap(), "-");
}
