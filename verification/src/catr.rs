//! Showing a text line by line, with or without numbers.

pub use crate::error::{MyError, MyResult};
use crate::lines::{chomp, chomped, option_texts, read_lines, text_lines};
use crate::text::{align_right, decimal_digits, right_aligned, texts};
use vstd::prelude::*;
use vstd::string::StringExecFns;

verus! {

/// What is shown, and how it is numbered.
#[derive(Debug)]
pub struct Config {
    pub files: Vec<String>,
    pub number_lines: bool,
    pub number_nonblank_lines: bool,
}

/// The width of the column of line numbers.
pub const COLUMN: usize = 6;

/// A line behind its number.
pub open spec fn numbered(number: nat, line: Seq<char>) -> Seq<char> {
    right_aligned(decimal_digits(number), COLUMN as nat) + "\t"@ + line
}

/// How many of the lines are well-formed UTF-8 and not empty.
pub open spec fn nonblank_count(lines: Seq<Option<Seq<char>>>) -> nat
    decreases lines.len(),
{
    if lines.len() == 0 {
        0
    } else {
        nonblank_count(lines.drop_last()) + match lines.last() {
            Some(t) => if chomped(t).len() > 0 {
                1nat
            } else {
                0nat
            },
            None => 0nat,
        }
    }
}

/// What is printed for the last of `lines`; nothing for a line that is not
/// well-formed UTF-8. Where all lines are numbered, such a line still
/// takes a number; where only the lines that are not empty are numbered,
/// an empty line is printed as it is.
pub open spec fn last_shown(lines: Seq<Option<Seq<char>>>, config: Config) -> Seq<Seq<char>> {
    match lines.last() {
        None => Seq::empty(),
        Some(t) => {
            let line = chomped(t);
            if config.number_lines {
                seq![numbered(lines.len(), line)]
            } else if config.number_nonblank_lines && line.len() > 0 {
                seq![numbered(nonblank_count(lines), line)]
            } else {
                seq![line]
            }
        },
    }
}

/// The lines printed for a text.
pub open spec fn shown(lines: Seq<Option<Seq<char>>>, config: Config) -> Seq<Seq<char>>
    decreases lines.len(),
{
    if lines.len() == 0 {
        Seq::empty()
    } else {
        shown(lines.drop_last(), config) + last_shown(lines, config)
    }
}

/// Writes a line behind its number.
fn number_line(number: usize, line: &str) -> (out: String)
    ensures
        out@ == numbered(number as nat, line@),
{
    let mut out = align_right(number as u64, COLUMN);
    out.append("\t");
    out.append(line);
    out
}

/// The lines to print for the text of one file.
pub fn print_file_content(content: &[u8], config: &Config) -> (out: Vec<String>)
    ensures
        texts(out@) == shown(text_lines(content@), *config),
{
    let read = read_lines(content);
    let ghost all = option_texts(read@);
    let mut out: Vec<String> = Vec::new();
    let mut line_num: usize = 0;
    let mut i: usize = 0;
    proof {
        assert(all.take(0) =~= Seq::<Option<Seq<char>>>::empty());
        assert(texts(out@) =~= shown(all.take(0), *config));
    }
    while i < read.len()
        invariant
            i <= read.len() == all.len(),
            all == option_texts(read@),
            line_num == nonblank_count(all.take(i as int)),
            line_num <= i,
            texts(out@) == shown(all.take(i as int), *config),
        decreases read.len() - i,
    {
        let ghost before = texts(out@);
        let ghost upto = all.take(i + 1);
        proof {
            assert(upto.drop_last() =~= all.take(i as int));
            assert(upto.last() == all[i as int]);
        }
        if let Some(raw) = &read[i] {
            let line = chomp(raw.as_str());
            let blank = line.as_str().unicode_len() == 0;
            if config.number_lines {
                out.push(number_line(i + 1, line.as_str()));
            } else if config.number_nonblank_lines && !blank {
                out.push(number_line(line_num + 1, line.as_str()));
            } else {
                out.push(line);
            }
            if !blank {
                line_num += 1;
            }
            assert(texts(out@) =~= before + last_shown(upto, *config));
        } else {
            assert(before + last_shown(upto, *config) =~= before);
        }
        i += 1;
    }
    assert(all.take(read.len() as int) =~= all);
    out
}

/// The lines printed for files, in order; `None` stands for a file that
/// could not be opened and gives no line.
pub open spec fn run_output(contents: Seq<Option<Vec<u8>>>, config: Config) -> Seq<Seq<char>>
    decreases contents.len(),
{
    if contents.len() == 0 {
        Seq::empty()
    } else {
        run_output(contents.drop_last(), config) + match contents.last() {
            Some(content) => shown(text_lines(content@), config),
            None => Seq::empty(),
        }
    }
}

/// The lines to print for every file that could be opened.
pub fn run(config: &Config, contents: &Vec<Option<Vec<u8>>>) -> (result: MyResult<Vec<String>>)
    ensures
        result matches Ok(out) && texts(out@) == run_output(contents@, *config),
{
    let mut out: Vec<String> = Vec::new();
    let mut i: usize = 0;
    proof {
        assert(contents@.take(0) =~= Seq::<Option<Vec<u8>>>::empty());
        assert(texts(out@) =~= run_output(contents@.take(0), *config));
    }
    while i < contents.len()
        invariant
            i <= contents.len(),
            texts(out@) == run_output(contents@.take(i as int), *config),
        decreases contents.len() - i,
    {
        let ghost before = texts(out@);
        proof {
            assert(contents@.take(i + 1).drop_last() =~= contents@.take(i as int));
            assert(contents@.take(i + 1).last() == contents@[i as int]);
        }
        if let Some(content) = &contents[i] {
            let mut lines = print_file_content(content.as_slice(), config);
            proof {
                assert(texts(out@ + lines@) =~= before + texts(lines@));
            }
            out.append(&mut lines);
        } else {
            assert(before + Seq::<Seq<char>>::empty() =~= before);
        }
        i += 1;
    }
    assert(contents@.take(contents.len() as int) =~= contents@);
    Ok(out)
}

} // verus!
