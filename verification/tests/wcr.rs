use textutils::wcr::{compose_message, count, count_words, format_count, get_args, run, Config, FileInfo};

#[test]
fn test_count() {
    let text = "I don't want the world. I just want your half.\r\n";
    let info = count(text.as_bytes());

    assert!(info.is_ok());

    let expected = FileInfo { num_lines: 1, num_words: 10, num_chars: 48, num_bytes: 48 };

    assert_eq!(info.unwrap(), expected);
}

#[test]
fn characters_are_not_bytes() {
    let info = count("á b\nçd\n\nlast".as_bytes()).unwrap();
    assert_eq!(info, FileInfo { num_lines: 4, num_words: 4, num_chars: 12, num_bytes: 14 });
    let info = count(b"").unwrap();
    assert_eq!(info, FileInfo { num_lines: 0, num_words: 0, num_chars: 0, num_bytes: 0 });
    // counting ends at a line that is not UTF-8
    let info = count(b"one two\n\xff\nthree\n").unwrap();
    assert_eq!(info, FileInfo { num_lines: 1, num_words: 2, num_chars: 8, num_bytes: 8 });
}

#[test]
fn words_are_parted_by_white_space() {
    assert_eq!(count_words(""), 0);
    assert_eq!(count_words("   "), 0);
    assert_eq!(count_words("a"), 1);
    assert_eq!(count_words("  a  bc\td\r\n"), 3);
    assert_eq!(count_words("a\u{a0}b\u{3000}c\u{2003}d"), 4);
    assert_eq!(count_words("a\u{200b}b"), 1);
    for s in ["x y", " x\u{85}y ", "\u{1680}\u{2028}\u{2029}\u{202f}\u{205f}z", "a\u{b}b\u{c}c", "a\u{1c}b"] {
        assert_eq!(count_words(s), s.split_whitespace().count(), "{:?}", s);
    }
}

fn config(files: &[&str], lines: bool, words: bool, bytes: bool, chars: bool) -> Config {
    Config { files: files.iter().map(|s| s.to_string()).collect(), lines, words, bytes, chars }
}

#[test]
fn counts_stand_in_columns() {
    assert_eq!(format_count(0), "      0");
    assert_eq!(format_count(1234567), "1234567");
    assert_eq!(format_count(12345678), "12345678");
    let info = FileInfo { num_lines: 1, num_words: 10, num_chars: 47, num_bytes: 48 };
    assert_eq!(compose_message(&info, &config(&[], true, true, true, false)), "       1      10      48");
    assert_eq!(compose_message(&info, &config(&[], false, false, false, true)), "      47");
    assert_eq!(compose_message(&info, &config(&[], true, false, false, true)), "       1      47");
    assert_eq!(compose_message(&info, &config(&[], false, true, true, false)), "      10      48");
    assert_eq!(compose_message(&info, &config(&[], false, false, false, false)), " ");
}

#[test]
fn lines_words_and_bytes_are_counted_by_default() {
    let c = get_args(config(&["a"], false, false, false, false));
    assert!(c.lines && c.words && c.bytes && !c.chars);
    assert_eq!(c.files, vec!["a"]);
    let c = get_args(config(&["a"], false, false, false, true));
    assert!(!c.lines && !c.words && !c.bytes && c.chars);
    let c = get_args(config(&["a"], false, true, false, false));
    assert!(!c.lines && c.words && !c.bytes && !c.chars);
}

#[test]
fn several_files_are_added_up() {
    let c = config(&["a.txt", "gone", "-"], true, true, true, false);
    let contents = vec![Some(b"one two\nthree\n".to_vec()), None, Some(b"four\n".to_vec())];
    assert_eq!(
        run(&c, &contents).unwrap(),
        vec![
            "       2       3      14 a.txt",
            "       1       1       5",
            "       3       4      19 total",
        ]
    );
    let c = config(&["a.txt", "gone"], true, false, false, false);
    let contents = vec![Some(b"one two\nthree\n".to_vec()), None];
    assert_eq!(run(&c, &contents).unwrap(), vec!["       2 a.txt"]);
    let c = config(&[], true, false, false, false);
    assert_eq!(run(&c, &vec![]).unwrap(), Vec::<String>::new());
}
