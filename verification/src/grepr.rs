//! Finding the lines of a text that match a regular expression.

pub use crate::error::{MyError, MyResult};
use crate::lines::{raw_lines, readable, readable_lines};
use crate::pattern::{build_regex, compiles, regex_matches, regex_source};
use crate::text::{chain3, decimal_digits, decimal_string, texts};
use regex::Regex;
use vstd::prelude::*;
use vstd::string::StringExecFns;

verus! {

/// What is searched for and where, as written on the command line.
#[derive(Debug)]
pub struct Arguments {
    pub pattern: String,
    pub files: Vec<String>,
    pub insensitive: bool,
    pub recursive: bool,
    pub count: bool,
    pub invert_match: bool,
}

/// A search that is ready to run.
#[derive(Debug)]
pub struct Config {
    pub pattern: Regex,
    pub files: Vec<String>,
    pub recursive: bool,
    pub count: bool,
    pub invert_match: bool,
}

/// The message for a pattern that is no regular expression.
pub open spec fn invalid_pattern(pattern: Seq<char>) -> Seq<char> {
    "Invalid pattern \""@ + pattern + "\""@
}

/// Compiles the pattern of a search.
pub fn get_config(args: Arguments) -> (result: MyResult<Config>)
    ensures
        match result {
            Ok(config) => {
                &&& compiles(args.pattern@, args.insensitive)
                &&& regex_source(config.pattern) == args.pattern@
                &&& config.files == args.files
                &&& config.recursive == args.recursive
                &&& config.count == args.count
                &&& config.invert_match == args.invert_match
            },
            Err(e) => !compiles(args.pattern@, args.insensitive) && e@ == invalid_pattern(
                args.pattern@,
            ),
        },
{
    match build_regex(args.pattern.as_str(), args.insensitive) {
        Ok(regex) => Ok(
            Config {
                pattern: regex,
                files: args.files,
                recursive: args.recursive,
                count: args.count,
                invert_match: args.invert_match,
            },
        ),
        Err(_) => Err(
            MyError { error_message: chain3("Invalid pattern \"", args.pattern.as_str(), "\"") },
        ),
    }
}

/// The lines that are kept: those that match, or, where the search is
/// inverted, those that do not.
pub open spec fn kept(lines: Seq<Seq<char>>, pattern: Regex, invert_match: bool) -> Seq<Seq<char>>
    decreases lines.len(),
{
    if lines.len() == 0 {
        Seq::empty()
    } else if regex_matches(pattern, lines.last()) != invert_match {
        kept(lines.drop_last(), pattern, invert_match).push(lines.last())
    } else {
        kept(lines.drop_last(), pattern, invert_match)
    }
}

/// The lines of `content`, each with its line ending, that are kept; the
/// lines are read up to the first that is not well-formed UTF-8.
pub fn find_lines(content: &[u8], pattern: &Regex, invert_match: bool) -> (result: MyResult<
    Vec<String>,
>)
    ensures
        result matches Ok(found) && texts(found@) == kept(
            readable(raw_lines(content@)),
            *pattern,
            invert_match,
        ),
{
    let lines = readable_lines(content);
    let ghost all = texts(lines@);
    let mut ret: Vec<String> = Vec::new();
    let mut i: usize = 0;
    proof {
        assert(all.take(0) =~= Seq::<Seq<char>>::empty());
        assert(texts(ret@) =~= kept(all.take(0), *pattern, invert_match));
    }
    while i < lines.len()
        invariant
            i <= lines.len() == all.len(),
            all == texts(lines@),
            texts(ret@) == kept(all.take(i as int), *pattern, invert_match),
        decreases lines.len() - i,
    {
        let ghost before = texts(ret@);
        proof {
            assert(all.take(i + 1).drop_last() =~= all.take(i as int));
            assert(all.take(i + 1).last() == lines@[i as int]@);
        }
        let matched = pattern.is_match(lines[i].as_str());
        if matched != invert_match {
            ret.push(lines[i].clone());
            assert(texts(ret@) =~= before.push(lines@[i as int]@));
        }
        i += 1;
    }
    assert(all.take(lines.len() as int) =~= all);
    Ok(ret)
}

/// What stands before each line of a result: the file and a colon, where
/// more than one file is searched.
pub open spec fn prefix(file_path: Option<Seq<char>>) -> Seq<char> {
    match file_path {
        Some(path) => path + ":"@,
        None => Seq::empty(),
    }
}

/// The lines found, each behind its prefix.
pub open spec fn listing(lines: Seq<Seq<char>>, file_path: Option<Seq<char>>) -> Seq<char>
    decreases lines.len(),
{
    if lines.len() == 0 {
        Seq::empty()
    } else {
        listing(lines.drop_last(), file_path) + prefix(file_path) + lines.last()
    }
}

/// What is printed for the lines found in one file: the lines themselves,
/// or, where a count is asked for, their number.
pub open spec fn result_text(
    lines: Seq<Seq<char>>,
    file_path: Option<Seq<char>>,
    count: bool,
) -> Seq<char> {
    if count {
        prefix(file_path) + decimal_digits(lines.len()) + "\n"@
    } else {
        listing(lines, file_path)
    }
}

/// The view of an optional text.
pub open spec fn option_text(s: Option<&str>) -> Option<Seq<char>> {
    match s {
        Some(t) => Some(t@),
        None => None,
    }
}

/// The text to print for the lines found in one file.
pub fn print_result(lines: &Vec<String>, file_path: Option<&str>, config: &Config) -> (out: String)
    ensures
        out@ == result_text(texts(lines@), option_text(file_path), config.count),
{
    let mut out = String::new();
    let ghost all = texts(lines@);
    if !config.count {
        let mut i: usize = 0;
        assert(all.take(0) =~= Seq::<Seq<char>>::empty());
        while i < lines.len()
            invariant
                i <= lines.len() == all.len(),
                all == texts(lines@),
                out@ == listing(all.take(i as int), option_text(file_path)),
            decreases lines.len() - i,
        {
            proof {
                assert(all.take(i + 1).drop_last() =~= all.take(i as int));
                assert(all.take(i + 1).last() == lines@[i as int]@);
            }
            if let Some(path) = file_path {
                out.append(path);
                out.append(":");
            }
            out.append(lines[i].as_str());
            i += 1;
            assert(out@ =~= listing(all.take(i as int), option_text(file_path)));
        }
        assert(all.take(lines.len() as int) =~= all);
    } else {
        if let Some(path) = file_path {
            out.append(path);
            out.append(":");
        }
        out.append(decimal_string(lines.len() as u64).as_str());
        out.append("\n");
        assert(out@ =~= result_text(all, option_text(file_path), true));
    }
    out
}

/// A file to search: its path, and what was read of it.
#[derive(Debug)]
pub struct Input {
    pub path: String,
    pub content: Vec<u8>,
}

/// The text printed for one file of a search.
pub open spec fn file_output(input: Input, many_files: bool, config: Config) -> Seq<char> {
    result_text(
        kept(readable(raw_lines(input.content@)), config.pattern, config.invert_match),
        if many_files {
            Some(input.path@)
        } else {
            None
        },
        config.count,
    )
}

/// The text printed for the files found, in order; `None` stands for a
/// path that is no file to search, or for a file that could not be opened,
/// and gives nothing.
pub open spec fn run_output(inputs: Seq<Option<Input>>, many_files: bool, config: Config) -> Seq<
    char,
>
    decreases inputs.len(),
{
    if inputs.len() == 0 {
        Seq::empty()
    } else {
        run_output(inputs.drop_last(), many_files, config) + match inputs.last() {
            Some(input) => file_output(input, many_files, config),
            None => Seq::empty(),
        }
    }
}

/// The text to print for a search in `inputs`; every line is named by its
/// file where `inputs` holds more than one entry.
pub fn run(config: &Config, inputs: &Vec<Option<Input>>) -> (result: MyResult<String>)
    ensures
        result matches Ok(out) && out@ == run_output(inputs@, inputs.len() > 1, *config),
{
    let many_files = inputs.len() > 1;
    let mut out = String::new();
    let mut i: usize = 0;
    proof {
        assert(inputs@.take(0) =~= Seq::<Option<Input>>::empty());
    }
    while i < inputs.len()
        invariant
            i <= inputs.len(),
            many_files == (inputs.len() > 1),
            out@ == run_output(inputs@.take(i as int), many_files, *config),
        decreases inputs.len() - i,
    {
        proof {
            assert(inputs@.take(i + 1).drop_last() =~= inputs@.take(i as int));
            assert(inputs@.take(i + 1).last() == inputs@[i as int]);
        }
        if let Some(input) = &inputs[i] {
            let content = input.content.as_slice();
            let lines = match find_lines(content, &config.pattern, config.invert_match) {
                Ok(lines) => lines,
                Err(e) => {
                    return Err(e);
                },
            };
            let file_path_opt = if many_files {
                Some(input.path.as_str())
            } else {
                None
            };
            let text = print_result(&lines, file_path_opt, config);
            out.append(text.as_str());
        }
        i += 1;
        assert(out@ =~= run_output(inputs@.take(i as int), many_files, *config));
    }
    proof {
        assert(inputs@.take(inputs.len() as int) =~= inputs@);
    }
    Ok(out)
}

/// What the file system says of a path.
#[derive(Debug)]
pub enum PathKind {
    /// The path cannot be resolved; the system's reason is given.
    Missing(String),
    /// A directory; what a search of the entries below it has found is
    /// given, in the order of the walk.
    Directory(Vec<MyResult<String>>),
    /// A file.
    File,
    /// Something else.
    Other,
}

/// A file found, or the complaint about a path.
pub type Finding = Result<Seq<char>, Seq<char>>;

/// The mathematical content of a list of files found.
pub open spec fn findings(results: Seq<MyResult<String>>) -> Seq<Finding> {
    Seq::new(
        results.len(),
        |i: int|
            match results[i] {
                Ok(path) => Ok(path@),
                Err(e) => Err(e@),
            },
    )
}

/// What a search for files finds at one path: the standard input under
/// its name `-`; a file; below a directory what a search that goes into
/// directories has found there, and else a complaint; a complaint about a
/// path that cannot be resolved.
pub open spec fn found_at(file_path: Seq<char>, kind: PathKind, recursive: bool) -> Seq<Finding> {
    if file_path == "-"@ {
        seq![Ok(file_path)]
    } else {
        match kind {
            PathKind::Missing(reason) => seq![Err(file_path + ": "@ + reason@)],
            PathKind::Directory(below) => if recursive {
                findings(below@)
            } else {
                seq![Err(file_path + " is a directory"@)]
            },
            PathKind::File => seq![Ok(file_path)],
            PathKind::Other => Seq::empty(),
        }
    }
}

/// Finds the files to search at one path.
pub fn find_files_in_path(file_path: &str, kind: PathKind, recursive: bool) -> (results: Vec<
    MyResult<String>,
>)
    ensures
        findings(results@) == found_at(file_path@, kind, recursive),
{
    let mut results: Vec<MyResult<String>> = Vec::new();
    if crate::text::same_text(file_path, "-") {
        results.push(Ok(String::from_str("-")));
        assert(findings(results@) =~= seq![Ok::<Seq<char>, Seq<char>>(file_path@)]);
        return results;
    }
    match kind {
        PathKind::Missing(reason) => {
            let error_message = crate::text::chain3(file_path, ": ", reason.as_str());
            results.push(Err(MyError { error_message }));
            assert(findings(results@) =~= found_at(file_path@, kind, recursive));
        },
        PathKind::Directory(below) => {
            if recursive {
                return below;
            } else {
                let error_message = crate::text::chain(file_path, " is a directory");
                results.push(Err(MyError { error_message }));
                assert(findings(results@) =~= found_at(file_path@, kind, recursive));
            }
        },
        PathKind::File => {
            results.push(Ok(String::from_str(file_path)));
            assert(findings(results@) =~= found_at(file_path@, kind, recursive));
        },
        PathKind::Other => {
            assert(findings(results@) =~= found_at(file_path@, kind, recursive));
        },
    }
    results
}

/// What a search for files finds at paths, in their order.
pub open spec fn found_all(paths: Seq<String>, kinds: Seq<PathKind>, recursive: bool) -> Seq<
    Finding,
>
    decreases paths.len(),
{
    if paths.len() == 0 || kinds.len() != paths.len() {
        Seq::empty()
    } else {
        found_all(paths.drop_last(), kinds.drop_last(), recursive) + found_at(
            paths.last()@,
            kinds.last(),
            recursive,
        )
    }
}

/// Finds the files to search at `paths`, where `kinds` says of each path
/// in order what the file system holds there.
pub fn find_files(paths: &[String], kinds: Vec<PathKind>, recursive: bool) -> (results: Vec<
    MyResult<String>,
>)
    requires
        kinds.len() == paths.len(),
    ensures
        findings(results@) == found_all(paths@, kinds@, recursive),
{
    let mut ret: Vec<MyResult<String>> = Vec::new();
    let mut kinds = kinds;
    let ghost all = kinds@;
    let mut i: usize = 0;
    proof {
        assert(all.skip(0) =~= all);
        assert(paths@.take(0) =~= Seq::<String>::empty());
        assert(all.take(0) =~= Seq::<PathKind>::empty());
        assert(findings(ret@) =~= found_all(paths@.take(0), all.take(0), recursive));
    }
    while i < paths.len()
        invariant
            i <= paths.len() == all.len(),
            kinds@ == all.skip(i as int),
            findings(ret@) == found_all(paths@.take(i as int), all.take(i as int), recursive),
        decreases paths.len() - i,
    {
        let ghost shown = findings(ret@);
        let kind = kinds.remove(0);
        proof {
            assert(kind == all[i as int]);
            assert(kinds@ =~= all.skip(i + 1));
            assert(paths@.take(i + 1).drop_last() =~= paths@.take(i as int));
            assert(all.take(i + 1).drop_last() =~= all.take(i as int));
            assert(paths@.take(i + 1).last() == paths@[i as int]);
            assert(all.take(i + 1).last() == all[i as int]);
        }
        let mut found = find_files_in_path(paths[i].as_str(), kind, recursive);
        proof {
            assert(findings(ret@ + found@) =~= shown + findings(found@));
        }
        ret.append(&mut found);
        i += 1;
    }
    proof {
        assert(paths@.take(paths.len() as int) =~= paths@);
        assert(all.take(paths.len() as int) =~= all);
    }
    ret
}

} // verus!
