//! Looking up sayings: what is asked for, and whether it can be served.

pub use crate::error::{MyError, MyResult};
use crate::lines::{byte_views, chomp, raw_lines, readable, readable_lines, split_lines};
use crate::pattern::{compiles, regex_matches, regex_source};
use crate::text::{chain, chain3, parse_unsigned, same_text, texts, unsigned_value};
use regex::Regex;
use vstd::prelude::*;

verus! {

/// What the user asked for, as written on the command line.
#[derive(Debug)]
pub struct Cli {
    pub sources: Vec<String>,
    pub pattern: Option<String>,
    pub seed: Option<String>,
    pub case_insensitive: bool,
}

/// What was asked for, checked and ready for use.
#[derive(Debug)]
pub struct Config {
    pub sources: Vec<String>,
    pub pattern: Option<Regex>,
    pub seed: Option<u64>,
}

impl Cli {
    /// At least one source is named.
    pub open spec fn well_formed(&self) -> bool {
        self.sources.len() > 0
    }

    /// A request for the sayings of `sources`; there must be at least one
    /// source.
    pub fn new(
        sources: Vec<String>,
        pattern: Option<String>,
        seed: Option<String>,
        case_insensitive: bool,
    ) -> (result: MyResult<Cli>)
        ensures
            match result {
                Ok(cli) => cli.well_formed() && cli.sources == sources && cli.pattern == pattern
                    && cli.seed == seed && cli.case_insensitive == case_insensitive,
                Err(e) => sources.len() == 0 && e@
                    == "the following required arguments were not provided: <FILE>..."@,
            },
    {
        if sources.len() == 0 {
            Err(
                MyError {
                    error_message: String::from_str(
                        "the following required arguments were not provided: <FILE>...",
                    ),
                },
            )
        } else {
            Ok(Cli { sources, pattern, seed, case_insensitive })
        }
    }
}

/// The index of the first of `exists` that is false, or its length.
pub open spec fn first_missing(exists: Seq<bool>) -> int {
    crate::text::first_index(exists, false)
}

/// The first of `files` that does not exist, where `exists` says of each
/// file, in order, whether it does.
pub fn find_non_existing(files: &Vec<String>, exists: &Vec<bool>) -> (missing: Option<String>)
    requires
        files.len() == exists.len(),
    ensures
        match missing {
            Some(f) => first_missing(exists@) < files.len() && f@ == files[first_missing(
                exists@,
            )]@,
            None => first_missing(exists@) == files.len(),
        },
{
    let mut i: usize = 0;
    while i < files.len()
        invariant
            i <= files.len() == exists.len(),
            forall|j: int| 0 <= j < i ==> exists@[j] != false,
        decreases files.len() - i,
    {
        if !exists[i] {
            proof {
                crate::text::lemma_first_index_is(exists@, false, i as int);
            }
            return Some(files[i].clone());
        }
        i += 1;
    }
    proof {
        crate::text::lemma_first_index_is(exists@, false, i as int);
    }
    None
}

/// The message for a text that is no number.
pub open spec fn not_an_integer(s: Seq<char>) -> Seq<char> {
    "\""@ + s + "\" is not a valid integer"@
}

/// Reads a decimal number that fits 64 bits.
pub fn parse_u64(s: &str) -> (result: MyResult<u64>)
    ensures
        match result {
            Ok(n) => unsigned_value(s@, u64::MAX as nat) == Some(n as nat),
            Err(e) => unsigned_value(s@, u64::MAX as nat) is None && e@ == not_an_integer(s@),
        },
{
    match parse_unsigned(s) {
        Some(n) => Ok(n),
        None => Err(MyError { error_message: chain3("\"", s, "\" is not a valid integer") }),
    }
}

/// The expression that is compiled for `pattern`.
pub open spec fn pattern_text(pattern: Seq<char>, case_insensitive: bool) -> Seq<char> {
    if case_insensitive {
        "(?i)"@ + pattern
    } else {
        pattern
    }
}

/// What checking a request ends in, where `missing` is the first source that
/// does not exist, if any.
pub open spec fn request_error(cli: Cli, missing: Option<Seq<char>>) -> Option<Seq<char>> {
    if let Some(f) = missing {
        Some(f + ": No such file or directory (os error 2)"@)
    } else if cli.pattern is Some && !compiles(
        pattern_text(cli.pattern->0@, cli.case_insensitive),
        false,
    ) {
        Some("Invalid --pattern \""@ + cli.pattern->0@ + "\""@)
    } else if cli.seed is Some && unsigned_value(cli.seed->0@, u64::MAX as nat) is None {
        Some("invalid value '"@ + cli.seed->0@ + "' for '--seed <SEED>'"@)
    } else {
        None
    }
}

impl Config {
    /// Checks a request: every source must exist, the pattern must compile
    /// and the seed must be a number. `exists` says of each source, in order,
    /// whether it exists.
    pub fn try_from(value: Cli, exists: &Vec<bool>) -> (result: MyResult<Config>)
        requires
            value.sources.len() == exists.len(),
        ensures
            match result {
                Ok(config) => {
                    &&& first_missing(exists@) == exists.len()
                    &&& request_error(value, None) is None
                    &&& config.sources == value.sources
                    &&& config.pattern is Some <==> value.pattern is Some
                    &&& config.pattern matches Some(regex) ==> regex_source(regex) == pattern_text(
                        value.pattern->0@,
                        value.case_insensitive,
                    )
                    &&& config.seed is Some <==> value.seed is Some
                    &&& config.seed matches Some(n) ==> unsigned_value(
                        value.seed->0@,
                        u64::MAX as nat,
                    ) == Some(n as nat)
                },
                Err(e) => {
                    let missing = if first_missing(exists@) < exists.len() {
                        Some(value.sources[first_missing(exists@)]@)
                    } else {
                        None
                    };
                    request_error(value, missing) == Some(e@)
                },
            },
    {
        if let Some(f) = find_non_existing(&value.sources, exists) {
            return Err(
                MyError {
                    error_message: chain(f.as_str(), ": No such file or directory (os error 2)"),
                },
            );
        }
        let pattern = match &value.pattern {
            Some(p) => {
                let text = if value.case_insensitive {
                    chain("(?i)", p.as_str())
                } else {
                    p.clone()
                };
                match Regex::new(text.as_str()) {
                    Ok(r) => Some(r),
                    Err(_) => {
                        return Err(
                            MyError {
                                error_message: chain3("Invalid --pattern \"", p.as_str(), "\""),
                            },
                        );
                    },
                }
            },
            None => None,
        };
        let seed = match &value.seed {
            Some(s) => {
                match parse_u64(s.as_str()) {
                    Ok(n) => Some(n),
                    Err(_) => {
                        return Err(
                            MyError {
                                error_message: chain3(
                                    "invalid value '",
                                    s.as_str(),
                                    "' for '--seed <SEED>'",
                                ),
                            },
                        );
                    },
                }
            },
            None => None,
        };
        Ok(Config { sources: value.sources, pattern, seed })
    }
}

/// The line that ends a saying.
pub open spec fn end_mark() -> Seq<char> {
    "%"@
}

/// The lines of the saying that is still open after `lines`.
pub open spec fn pending(lines: Seq<Seq<char>>) -> Seq<Seq<char>>
    decreases lines.len(),
{
    if lines.len() == 0 || lines.last() == end_mark() {
        Seq::empty()
    } else {
        pending(lines.drop_last()).push(lines.last())
    }
}

/// Whether one of `lines` matches.
pub open spec fn any_matches(lines: Seq<Seq<char>>, regex: Regex) -> bool {
    exists|i: int| 0 <= i < lines.len() && regex_matches(regex, #[trigger] lines[i])
}

/// The sayings found in `lines`: every saying that is ended by its mark
/// and has a line that matches, the mark being one of its lines.
pub open spec fn found(lines: Seq<Seq<char>>, regex: Regex) -> Seq<Seq<char>>
    decreases lines.len(),
{
    if lines.len() == 0 {
        Seq::empty()
    } else {
        let before = lines.drop_last();
        let saying = pending(before).push(lines.last());
        if lines.last() == end_mark() && any_matches(saying, regex) {
            found(before, regex) + saying
        } else {
            found(before, regex)
        }
    }
}

/// The lines without their line endings.
pub open spec fn bodies(lines: Seq<Seq<char>>) -> Seq<Seq<char>> {
    lines.map_values(|line: Seq<char>| crate::lines::chomped(line))
}

/// The sayings of `content` that match `regex`, line by line. The text is
/// read up to the first line that is not well-formed UTF-8; where there is
/// such a line, the second part of the result is an error.
pub fn find_fortune_in_file(content: &[u8], regex: &Regex) -> (result: (Vec<String>, MyResult<()>))
    ensures
        texts(result.0@) == found(bodies(readable(raw_lines(content@))), *regex),
        result.1 is Ok <==> readable(raw_lines(content@)).len() == raw_lines(content@).len(),
        result.1 matches Err(e) ==> e@ == "stream did not contain valid UTF-8"@,
{
    let lines = readable_lines(content);
    let total = split_lines(content);
    let ghost all = bodies(texts(lines@));
    let mut out: Vec<String> = Vec::new();
    let mut record: Vec<String> = Vec::new();
    let mut match_found = false;
    let mut i: usize = 0;
    proof {
        assert(all.take(0) =~= Seq::<Seq<char>>::empty());
        assert(texts(out@) =~= found(all.take(0), *regex));
        assert(texts(record@) =~= pending(all.take(0)));
        assert(byte_views(total@).len() == total@.len());
    }
    while i < lines.len()
        invariant
            i <= lines.len() == all.len(),
            all == bodies(texts(lines@)),
            texts(out@) == found(all.take(i as int), *regex),
            texts(record@) == pending(all.take(i as int)),
            match_found == any_matches(pending(all.take(i as int)), *regex),
        decreases lines.len() - i,
    {
        let ghost shown = texts(out@);
        let ghost open = texts(record@);
        let ghost upto = all.take(i + 1);
        let line = chomp(lines[i].as_str());
        proof {
            assert(upto.drop_last() =~= all.take(i as int));
            assert(upto.last() == line@);
            let saying = open.push(line@);
            let here = regex_matches(*regex, line@);
            assert(any_matches(saying, *regex) == (match_found || here)) by {
                if match_found {
                    let k = choose|k: int| 0 <= k < open.len() && regex_matches(*regex, open[k]);
                    assert(saying[k] == open[k]);
                }
                if regex_matches(*regex, line@) {
                    assert(saying[open.len() as int] == line@);
                }
                if any_matches(saying, *regex) {
                    let k = choose|k: int|
                        0 <= k < saying.len() && regex_matches(*regex, saying[k]);
                    if k < open.len() {
                        assert(saying[k] == open[k]);
                    }
                }
            }
        }
        if regex.is_match(line.as_str()) {
            match_found = true;
        }
        let record_done = same_text(line.as_str(), "%");
        record.push(line);
        assert(texts(record@) =~= open.push(upto.last()));
        if record_done {
            if match_found {
                proof {
                    assert(texts(out@ + record@) =~= shown + open.push(upto.last()));
                }
                out.append(&mut record);
            }
            record.clear();
            match_found = false;
            assert(texts(record@) =~= Seq::<Seq<char>>::empty());
        }
        i += 1;
    }
    assert(all.take(lines.len() as int) =~= all);
    let status = if lines.len() < total.len() {
        Err(MyError { error_message: String::from_str("stream did not contain valid UTF-8") })
    } else {
        proof {
            crate::lines::lemma_readable_len(raw_lines(content@));
        }
        Ok(())
    };
    (out, status)
}

/// Whether a text can be read to its end.
pub open spec fn whole(content: Seq<u8>) -> bool {
    readable(raw_lines(content)).len() == raw_lines(content).len()
}

/// Whether every one of the texts can be read to its end.
pub open spec fn all_whole(files: Seq<Vec<u8>>) -> bool {
    forall|i: int| 0 <= i < files.len() ==> whole(#[trigger] files[i]@)
}

/// The sayings found in files, in order; the search ends with the first
/// file that cannot be read to its end.
pub open spec fn search_output(files: Seq<Vec<u8>>, regex: Regex) -> Seq<Seq<char>>
    decreases files.len(),
{
    if files.len() == 0 {
        Seq::empty()
    } else if all_whole(files.drop_last()) {
        search_output(files.drop_last(), regex) + found(
            bodies(readable(raw_lines(files.last()@))),
            regex,
        )
    } else {
        search_output(files.drop_last(), regex)
    }
}

/// A path with a dot in it names no file of sayings.
pub fn has_dot(path: &str) -> (dotted: bool)
    ensures
        dotted == path@.contains('.'),
{
    let chars = crate::text::chars_of(path);
    let mut i: usize = 0;
    while i < chars.len()
        invariant
            i <= chars.len(),
            chars@ == path@,
            forall|j: int| 0 <= j < i ==> chars@[j] != '.',
        decreases chars.len() - i,
    {
        if chars[i] == '.' {
            assert(chars@[i as int] == '.');
            return true;
        }
        i += 1;
    }
    false
}

impl Config {
    /// The lines to print for a search through `files`, the texts of the
    /// files of sayings in the order in which they are met. Without a
    /// pattern nothing is searched.
    pub fn run(&self, files: &Vec<Vec<u8>>) -> (result: (Vec<String>, MyResult<()>))
        ensures
            match self.pattern {
                Some(regex) => {
                    &&& texts(result.0@) == search_output(files@, regex)
                    &&& result.1 is Ok <==> all_whole(files@)
                    &&& result.1 matches Err(e) ==> e@ == "stream did not contain valid UTF-8"@
                },
                None => texts(result.0@) == seq!["No pattern"@] && result.1 is Ok,
            },
    {
        let mut out: Vec<String> = Vec::new();
        match &self.pattern {
            Some(regex) => {
                let mut i: usize = 0;
                proof {
                    assert(files@.take(0) =~= Seq::<Vec<u8>>::empty());
                    assert(texts(out@) =~= search_output(files@.take(0), *regex));
                }
                while i < files.len()
                    invariant
                        i <= files.len(),
                        self.pattern == Some(*regex),
                        all_whole(files@.take(i as int)),
                        texts(out@) == search_output(files@.take(i as int), *regex),
                    decreases files.len() - i,
                {
                    let ghost before = texts(out@);
                    proof {
                        assert(files@.take(i + 1).drop_last() =~= files@.take(i as int));
                        assert(files@.take(i + 1).last() == files@[i as int]);
                    }
                    let (mut lines, status) = find_fortune_in_file(files[i].as_slice(), regex);
                    proof {
                        assert(texts(out@ + lines@) =~= before + texts(lines@));
                    }
                    out.append(&mut lines);
                    if let Err(e) = status {
                        proof {
                            lemma_search_stops(files@, i as int, *regex);
                            assert(!whole(files@[i as int]@));
                        }
                        return (out, Err(e));
                    }
                    i += 1;
                    assert(all_whole(files@.take(i as int))) by {
                        assert forall|j: int| 0 <= j < i implies whole(
                            #[trigger] files@.take(i as int)[j]@,
                        ) by {
                            if j < i - 1 {
                                assert(files@.take(i as int)[j] == files@.take(i - 1)[j]);
                            }
                        }
                    }
                }
                assert(files@.take(files.len() as int) =~= files@);
                (out, Ok(()))
            },
            None => {
                out.push(String::from_str("No pattern"));
                assert(texts(out@) =~= seq!["No pattern"@]);
                (out, Ok(()))
            },
        }
    }
}

/// After a file that cannot be read to its end nothing more is found.
proof fn lemma_search_stops(files: Seq<Vec<u8>>, k: int, regex: Regex)
    requires
        0 <= k < files.len(),
        !whole(files[k]@),
    ensures
        search_output(files, regex) == search_output(files.take(k + 1), regex),
        !all_whole(files),
    decreases files.len(),
{
    if k == files.len() - 1 {
        assert(files.take(k + 1) =~= files);
    } else {
        let before = files.drop_last();
        assert(before[k] == files[k]);
        lemma_search_stops(before, k, regex);
        assert(before.take(k + 1) =~= files.take(k + 1));
    }
}

} // verus!
