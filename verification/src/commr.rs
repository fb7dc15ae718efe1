//! Comparing two sorted texts line by line: what only the first has, what
//! only the second has, and what both have.

pub use crate::error::{MyError, MyResult};
use crate::lines::{chomp, chomped, option_texts, read_lines, text_lines};
use crate::text::{chars_of, chain, chain3, texts};
use vstd::prelude::*;
use vstd::string::StringExecFns;

verus! {

/// The two files to compare, and how the result is shown.
#[derive(Debug)]
pub struct Config {
    pub file1: String,
    pub file2: String,
    pub show_col1: bool,
    pub show_col2: bool,
    pub show_col3: bool,
    pub insensitive: bool,
    pub delimiter: String,
}

/// The name that stands for the standard input.
pub open spec fn stdin_name() -> Seq<char> {
    "-"@
}

/// At most one of the two texts can come from the standard input.
pub fn check_sources(config: &Config) -> (result: MyResult<()>)
    ensures
        match result {
            Ok(_) => !(config.file1@ == stdin_name() && config.file2@ == stdin_name()),
            Err(e) => config.file1@ == stdin_name() && config.file2@ == stdin_name() && e@
                == "Both input files cannot be STDIN (\"-\")"@,
        },
{
    let dash = String::from_str("-");
    if config.file1 == dash && config.file2 == dash {
        Err(MyError { error_message: String::from_str("Both input files cannot be STDIN (\"-\")") })
    } else {
        Ok(())
    }
}

/// The lines without their line endings, where every line is well-formed
/// UTF-8.
pub open spec fn all_lines(lines: Seq<Option<Seq<char>>>) -> Option<Seq<Seq<char>>>
    decreases lines.len(),
{
    if lines.len() == 0 {
        Some(Seq::empty())
    } else {
        match (all_lines(lines.drop_last()), lines.last()) {
            (Some(before), Some(line)) => Some(before.push(chomped(line))),
            _ => None,
        }
    }
}

/// The lines of `content` without their line endings; a line that is not
/// well-formed UTF-8 is an error.
pub fn read_file_content(content: &[u8]) -> (result: MyResult<Vec<String>>)
    ensures
        match result {
            Ok(lines) => all_lines(text_lines(content@)) == Some(texts(lines@)),
            Err(e) => all_lines(text_lines(content@)) is None && e@
                == "stream did not contain valid UTF-8"@,
        },
{
    let read = read_lines(content);
    let ghost all = option_texts(read@);
    let mut result: Vec<String> = Vec::new();
    let mut i: usize = 0;
    proof {
        assert(all.take(0) =~= Seq::<Option<Seq<char>>>::empty());
        assert(texts(result@) =~= Seq::<Seq<char>>::empty());
    }
    while i < read.len()
        invariant
            i <= read.len() == all.len(),
            all == option_texts(read@),
            all == text_lines(content@),
            all_lines(all.take(i as int)) == Some(texts(result@)),
        decreases read.len() - i,
    {
        let ghost before = texts(result@);
        proof {
            assert(all.take(i + 1).drop_last() =~= all.take(i as int));
            assert(all.take(i + 1).last() == all[i as int]);
        }
        match &read[i] {
            Some(line) => {
                let body = chomp(line.as_str());
                result.push(body);
                assert(texts(result@) =~= before.push(chomped(line@)));
            },
            None => {
                proof {
                    lemma_all_lines_fails(all, i as int);
                }
                let error_message = String::from_str("stream did not contain valid UTF-8");
                return Err(MyError { error_message });
            },
        }
        i += 1;
    }
    assert(all.take(read.len() as int) =~= all);
    Ok(result)
}

proof fn lemma_all_lines_fails(lines: Seq<Option<Seq<char>>>, k: int)
    requires
        0 <= k < lines.len(),
        lines[k] is None,
    ensures
        all_lines(lines) is None,
    decreases lines.len(),
{
    if k < lines.len() - 1 {
        lemma_all_lines_fails(lines.drop_last(), k);
    }
}

/// `a` stands before `b` in the order of a dictionary, character by
/// character.
pub open spec fn lex_less(a: Seq<char>, b: Seq<char>) -> bool
    decreases a.len(),
{
    if b.len() == 0 {
        false
    } else if a.len() == 0 {
        true
    } else if a[0] != b[0] {
        a[0] < b[0]
    } else {
        lex_less(a.drop_first(), b.drop_first())
    }
}

/// How two lines stand to each other.
pub enum Standing {
    Before,
    Same,
    After,
}

pub open spec fn standing(a: Seq<char>, b: Seq<char>) -> Standing {
    if lex_less(a, b) {
        Standing::Before
    } else if a == b {
        Standing::Same
    } else {
        Standing::After
    }
}

proof fn lemma_lex_less_common(a: Seq<char>, b: Seq<char>, k: int)
    requires
        0 <= k <= a.len(),
        k <= b.len(),
        a.take(k) == b.take(k),
    ensures
        lex_less(a, b) == lex_less(a.skip(k), b.skip(k)),
    decreases k,
{
    if k == 0 {
        assert(a.skip(0) =~= a);
        assert(b.skip(0) =~= b);
    } else {
        assert(a[0] == a.take(k)[0]);
        assert(b[0] == b.take(k)[0]);
        let a1 = a.drop_first();
        let b1 = b.drop_first();
        assert(a1.take(k - 1) =~= a.take(k).drop_first());
        assert(b1.take(k - 1) =~= b.take(k).drop_first());
        lemma_lex_less_common(a1, b1, k - 1);
        assert(a1.skip(k - 1) =~= a.skip(k));
        assert(b1.skip(k - 1) =~= b.skip(k));
    }
}

/// Compares two lines.
pub fn compare(line1: &str, line2: &str) -> (order: Standing)
    ensures
        order == standing(line1@, line2@),
{
    let a = chars_of(line1);
    let b = chars_of(line2);
    let mut i: usize = 0;
    assert(a@.take(0) =~= b@.take(0));
    while i < a.len() && i < b.len()
        invariant
            i <= a.len(),
            i <= b.len(),
            a@ == line1@,
            b@ == line2@,
            a@.take(i as int) == b@.take(i as int),
        decreases a.len() - i,
    {
        if a[i] != b[i] {
            proof {
                lemma_lex_less_common(a@, b@, i as int);
                assert(a@.skip(i as int)[0] == a@[i as int]);
                assert(b@.skip(i as int)[0] == b@[i as int]);
                assert(a@[i as int] != b@[i as int]);
            }
            return if a[i] < b[i] {
                Standing::Before
            } else {
                Standing::After
            };
        }
        i += 1;
        assert(a@.take(i as int) =~= a@.take(i - 1).push(a@[i - 1]));
        assert(b@.take(i as int) =~= b@.take(i - 1).push(b@[i - 1]));
    }
    proof {
        lemma_lex_less_common(a@, b@, i as int);
        if i == a.len() && i == b.len() {
            assert(a@.take(i as int) =~= a@);
            assert(b@.take(i as int) =~= b@);
        } else if i == a.len() {
            assert(a@.len() != b@.len());
        } else {
            assert(a@.len() != b@.len());
        }
    }
    if i < b.len() {
        Standing::Before
    } else if i == a.len() {
        Standing::Same
    } else {
        Standing::After
    }
}

/// The lower-case form of a text.
pub uninterp spec fn lowercase(s: Seq<char>) -> Seq<char>;

/// `str::to_lowercase`: the result depends on the text alone.
#[verifier::external_body]
fn to_lowercase(s: &str) -> (lower: String)
    ensures
        lower@ == lowercase(s@),
{
    s.to_lowercase()
}

/// What is printed for a line that only the first text has.
pub open spec fn col1(line: Seq<char>, config: Config) -> Seq<Seq<char>> {
    if config.show_col1 {
        seq![line]
    } else {
        Seq::empty()
    }
}

/// What is printed for a line that only the second text has.
pub open spec fn col2(line: Seq<char>, config: Config) -> Seq<Seq<char>> {
    if config.show_col2 {
        seq![
            (if config.show_col1 {
                config.delimiter@
            } else {
                Seq::empty()
            }) + line,
        ]
    } else {
        Seq::empty()
    }
}

/// What is printed for a line that both texts have.
pub open spec fn col3(line: Seq<char>, config: Config) -> Seq<Seq<char>> {
    if config.show_col3 {
        seq![
            (if config.show_col1 {
                config.delimiter@
            } else {
                Seq::empty()
            }) + (if config.show_col2 {
                config.delimiter@
            } else {
                Seq::empty()
            }) + line,
        ]
    } else {
        Seq::empty()
    }
}

/// A line as it is compared: in lower case where case is not to count.
pub open spec fn folded(line: Seq<char>, config: Config) -> Seq<char> {
    if config.insensitive {
        lowercase(line)
    } else {
        line
    }
}

/// What one step of the walk through two texts prints, and how far it
/// goes in each.
pub struct Step {
    pub printed: Seq<Seq<char>>,
    pub first: int,
    pub second: int,
}

/// The step that the walk takes where at least one text has a line left:
/// of the two lines at the front, the one that stands first goes to its
/// column; where they are the same, both go to the third column as one.
pub open spec fn step(lines1: Seq<Seq<char>>, lines2: Seq<Seq<char>>, config: Config) -> Step {
    if lines1.len() == 0 {
        Step { printed: col2(lines2[0], config), first: 0, second: 1 }
    } else if lines2.len() == 0 {
        Step { printed: col1(lines1[0], config), first: 1, second: 0 }
    } else {
        let line1 = folded(lines1[0], config);
        let line2 = folded(lines2[0], config);
        match standing(line1, line2) {
            Standing::Before => Step { printed: col1(line1, config), first: 1, second: 0 },
            Standing::After => Step { printed: col2(line2, config), first: 0, second: 1 },
            Standing::Same => Step { printed: col3(line1, config), first: 1, second: 1 },
        }
    }
}

/// The lines printed for two texts: the texts are walked through
/// together, step by step, until both are at their end.
pub open spec fn line_diffs(lines1: Seq<Seq<char>>, lines2: Seq<Seq<char>>, config: Config) -> Seq<
    Seq<char>,
>
    decreases lines1.len() + lines2.len(),
{
    if lines1.len() == 0 && lines2.len() == 0 {
        Seq::empty()
    } else {
        let taken = step(lines1, lines2, config);
        taken.printed + line_diffs(lines1.skip(taken.first), lines2.skip(taken.second), config)
    }
}

pub fn print_col1(out: &mut Vec<String>, line: &str, config: &Config)
    ensures
        texts(final(out)@) == texts(old(out)@) + col1(line@, *config),
{
    let ghost before = texts(out@);
    if config.show_col1 {
        out.push(String::from_str(line));
        assert(texts(out@) =~= before + col1(line@, *config));
    } else {
        assert(before + col1(line@, *config) =~= before);
    }
}

pub fn print_col2(out: &mut Vec<String>, line: &str, config: &Config)
    ensures
        texts(final(out)@) == texts(old(out)@) + col2(line@, *config),
{
    let ghost before = texts(out@);
    if !config.show_col2 {
        assert(before + col2(line@, *config) =~= before);
        return ;
    }
    let mut tabs = String::new();
    if config.show_col1 {
        tabs.append(config.delimiter.as_str());
    }
    tabs.append(line);
    assert(tabs@ =~= col2(line@, *config)[0]);
    out.push(tabs);
    assert(texts(out@) =~= before + col2(line@, *config));
}

pub fn print_col3(out: &mut Vec<String>, line: &str, config: &Config)
    ensures
        texts(final(out)@) == texts(old(out)@) + col3(line@, *config),
{
    let ghost before = texts(out@);
    if !config.show_col3 {
        assert(before + col3(line@, *config) =~= before);
        return ;
    }
    let mut tabs = String::new();
    if config.show_col1 {
        tabs.append(config.delimiter.as_str());
    }
    if config.show_col2 {
        tabs.append(config.delimiter.as_str());
    }
    tabs.append(line);
    assert(tabs@ =~= col3(line@, *config)[0]);
    out.push(tabs);
    assert(texts(out@) =~= before + col3(line@, *config));
}

/// Takes one step of the walk from line `i1` of the first text and line
/// `i2` of the second; answers how far it went in each.
fn take_step(
    out: &mut Vec<String>,
    lines1: &[String],
    lines2: &[String],
    i1: usize,
    i2: usize,
    config: &Config,
) -> (went: (usize, usize))
    requires
        i1 <= lines1.len(),
        i2 <= lines2.len(),
        i1 < lines1.len() || i2 < lines2.len(),
    ensures
        texts(final(out)@) == texts(old(out)@) + step(
            texts(lines1@).skip(i1 as int),
            texts(lines2@).skip(i2 as int),
            *config,
        ).printed,
        went.0 == step(
            texts(lines1@).skip(i1 as int),
            texts(lines2@).skip(i2 as int),
            *config,
        ).first,
        went.1 == step(
            texts(lines1@).skip(i1 as int),
            texts(lines2@).skip(i2 as int),
            *config,
        ).second,
{
    let ghost rest1 = texts(lines1@).skip(i1 as int);
    let ghost rest2 = texts(lines2@).skip(i2 as int);
    proof {
        if i1 < lines1.len() {
            assert(rest1[0] == lines1@[i1 as int]@);
        }
        if i2 < lines2.len() {
            assert(rest2[0] == lines2@[i2 as int]@);
        }
    }
    if i1 >= lines1.len() {
        print_col2(out, lines2[i2].as_str(), config);
        return (0, 1);
    } else if i2 >= lines2.len() {
        print_col1(out, lines1[i1].as_str(), config);
        return (1, 0);
    }
    let mut line1 = lines1[i1].clone();
    let mut line2 = lines2[i2].clone();
    if config.insensitive {
        line1 = to_lowercase(line1.as_str());
        line2 = to_lowercase(line2.as_str());
    }
    match compare(line1.as_str(), line2.as_str()) {
        Standing::Before => {
            print_col1(out, line1.as_str(), config);
            (1, 0)
        },
        Standing::After => {
            print_col2(out, line2.as_str(), config);
            (0, 1)
        },
        Standing::Same => {
            print_col3(out, line1.as_str(), config);
            (1, 1)
        },
    }
}

/// The walk from two places on is one step, then the walk from where the
/// step leads.
proof fn lemma_walk_on(all1: Seq<Seq<char>>, all2: Seq<Seq<char>>, i1: int, i2: int, config: Config)
    requires
        0 <= i1 <= all1.len(),
        0 <= i2 <= all2.len(),
        i1 < all1.len() || i2 < all2.len(),
    ensures
        ({
            let taken = step(all1.skip(i1), all2.skip(i2), config);
            &&& 0 <= taken.first <= all1.len() - i1
            &&& 0 <= taken.second <= all2.len() - i2
            &&& 0 < taken.first + taken.second
            &&& line_diffs(all1.skip(i1), all2.skip(i2), config) == taken.printed + line_diffs(
                all1.skip(i1 + taken.first),
                all2.skip(i2 + taken.second),
                config,
            )
        }),
{
    let rest1 = all1.skip(i1);
    let rest2 = all2.skip(i2);
    let taken = step(rest1, rest2, config);
    assert(rest1.skip(taken.first) =~= all1.skip(i1 + taken.first));
    assert(rest2.skip(taken.second) =~= all2.skip(i2 + taken.second));
}

/// The lines to print for two texts, given line by line.
pub fn print_line_diffs(lines1: &[String], lines2: &[String], config: &Config) -> (out: Vec<String>)
    ensures
        texts(out@) == line_diffs(texts(lines1@), texts(lines2@), *config),
{
    let n1 = lines1.len();
    let n2 = lines2.len();
    let ghost all1 = texts(lines1@);
    let ghost all2 = texts(lines2@);
    let mut out: Vec<String> = Vec::new();
    let mut i1: usize = 0;
    let mut i2: usize = 0;
    proof {
        assert(all1.skip(0) =~= all1);
        assert(all2.skip(0) =~= all2);
        assert(texts(out@) + line_diffs(all1, all2, *config) =~= line_diffs(all1, all2, *config));
    }
    while i1 < n1 || i2 < n2
        invariant
            i1 <= n1 == lines1.len(),
            i2 <= n2 == lines2.len(),
            all1 == texts(lines1@),
            all2 == texts(lines2@),
            line_diffs(all1, all2, *config) == texts(out@) + line_diffs(
                all1.skip(i1 as int),
                all2.skip(i2 as int),
                *config,
            ),
        decreases (n1 - i1) + (n2 - i2),
    {
        let ghost shown = texts(out@);
        let (d1, d2) = take_step(&mut out, lines1, lines2, i1, i2, config);
        proof {
            lemma_walk_on(all1, all2, i1 as int, i2 as int, *config);
            let taken = step(all1.skip(i1 as int), all2.skip(i2 as int), *config);
            let tail = line_diffs(all1.skip(i1 + d1), all2.skip(i2 + d2), *config);
            assert(shown + (taken.printed + tail) =~= (shown + taken.printed) + tail);
        }
        i1 += d1;
        i2 += d2;
    }
    proof {
        assert(all1.skip(n1 as int) =~= Seq::<Seq<char>>::empty());
        assert(all2.skip(n2 as int) =~= Seq::<Seq<char>>::empty());
        assert(texts(out@) + Seq::<Seq<char>>::empty() =~= texts(out@));
    }
    out
}

/// What comparing two texts ends in: the lines to print, or why nothing
/// can be compared.
pub open spec fn run_meaning(config: Config, content1: Seq<u8>, content2: Seq<u8>) -> Result<
    Seq<Seq<char>>,
    Seq<char>,
> {
    if config.file1@ == stdin_name() && config.file2@ == stdin_name() {
        Err("Both input files cannot be STDIN (\"-\")"@)
    } else {
        match (all_lines(text_lines(content1)), all_lines(text_lines(content2))) {
            (Some(lines1), Some(lines2)) => Ok(line_diffs(lines1, lines2, config)),
            _ => Err("stream did not contain valid UTF-8"@),
        }
    }
}

/// Compares the texts of the two files of `config`.
pub fn run(config: &Config, content1: &[u8], content2: &[u8]) -> (result: MyResult<Vec<String>>)
    ensures
        match result {
            Ok(out) => run_meaning(*config, content1@, content2@) == Ok::<
                Seq<Seq<char>>,
                Seq<char>,
            >(texts(out@)),
            Err(e) => run_meaning(*config, content1@, content2@) == Err::<
                Seq<Seq<char>>,
                Seq<char>,
            >(e@),
        },
{
    match check_sources(config) {
        Ok(_) => {},
        Err(e) => {
            return Err(e);
        },
    }
    let lines1 = match read_file_content(content1) {
        Ok(lines) => lines,
        Err(e) => {
            return Err(e);
        },
    };
    let lines2 = match read_file_content(content2) {
        Ok(lines) => lines,
        Err(e) => {
            return Err(e);
        },
    };
    Ok(print_line_diffs(lines1.as_slice(), lines2.as_slice(), config))
}

} // verus!
