//! The beginning of a text: its first lines or its first bytes.

pub use crate::error::{MyError, MyResult};
use crate::lines::{flat, raw_lines, readable, readable_lines};
use crate::text::{
    chain, chain3, parse_unsigned, read_bytes, read_text, texts, unsigned_value,
};
use vstd::prelude::*;
use vstd::slice::slice_subrange;
use vstd::string::StringExecFns;

verus! {

/// What is to be shown of each file.
#[derive(Debug)]
pub struct Config {
    pub files: Vec<String>,
    pub lines: usize,
    pub bytes: Option<usize>,
}

/// Reads a count, or answers with `message`.
pub fn validate(s: &str, message: String) -> (result: Result<usize, String>)
    ensures
        match result {
            Ok(value) => unsigned_value(s@, usize::MAX as nat) == Some(value as nat),
            Err(m) => unsigned_value(s@, usize::MAX as nat) is None && m == message,
        },
{
    match parse_unsigned(s) {
        Some(value) => {
            if value <= usize::MAX as u64 {
                Ok(value as usize)
            } else {
                Err(message)
            }
        },
        None => Err(message),
    }
}

/// Whether `result` is the count that `s` writes, or else the complaint
/// that begins with `complaint`.
pub open spec fn count_or(
    result: Result<usize, String>,
    s: Seq<char>,
    complaint: Seq<char>,
) -> bool {
    match result {
        Ok(value) => unsigned_value(s, usize::MAX as nat) == Some(value as nat),
        Err(m) => unsigned_value(s, usize::MAX as nat) is None && m@ == complaint + s,
    }
}

/// Reads a count of lines.
pub fn validate_lines(s: &str) -> (result: Result<usize, String>)
    ensures
        count_or(result, s@, "illegal line count -- "@),
{
    validate(s, chain("illegal line count -- ", s))
}

/// Reads a count of bytes.
pub fn validate_bytes(s: &str) -> (result: Result<usize, String>)
    ensures
        count_or(result, s@, "illegal byte count -- "@),
{
    validate(s, chain("illegal byte count -- ", s))
}

/// The first `n` elements of `s`, or all of them where there are fewer.
pub open spec fn first<T>(s: Seq<T>, n: nat) -> Seq<T> {
    if n <= s.len() {
        s.take(n as int)
    } else {
        s
    }
}

/// The first `num_lines` lines of `content` that can be read, each with
/// its line ending.
pub fn print_n_first_lines(content: &[u8], num_lines: usize) -> (out: String)
    ensures
        out@ == flat(first(readable(raw_lines(content@)), num_lines as nat)),
{
    let lines = readable_lines(content);
    let ghost all = texts(lines@);
    let mut out = String::new();
    let mut i: usize = 0;
    assert(all.take(0) =~= Seq::<Seq<char>>::empty());
    while i < num_lines && i < lines.len()
        invariant
            i <= lines.len(),
            i <= num_lines,
            all == texts(lines@),
            out@ == flat(all.take(i as int)),
        decreases lines.len() - i,
    {
        proof {
            assert(all.take(i + 1).drop_last() =~= all.take(i as int));
            assert(all.take(i + 1).last() == lines@[i as int]@);
        }
        out.append(lines[i].as_str());
        i += 1;
    }
    assert(all.take(i as int) =~= first(all, num_lines as nat));
    out
}

/// The first `num_bytes` bytes of `content`, read as text.
pub fn print_n_first_bytes(content: &[u8], num_bytes: usize) -> (out: String)
    ensures
        out@ == read_text(first(content@, num_bytes as nat)),
{
    let n = content.len();
    let end = if num_bytes <= n {
        num_bytes
    } else {
        n
    };
    assert(content@.subrange(0, end as int) =~= first(content@, num_bytes as nat));
    read_bytes(slice_subrange(content, 0, end))
}

/// The line that names a file above what is shown of it.
pub open spec fn title(filename: Seq<char>) -> Seq<char> {
    "==> "@ + filename + " <==\n"@
}

/// What is shown of one file: the title where titles are printed, then
/// the first bytes where a count of bytes is given, else the first lines.
pub open spec fn header_lines(
    content: Seq<u8>,
    is_title_printed: bool,
    filename: Seq<char>,
    config: Config,
) -> Seq<char> {
    (if is_title_printed {
        title(filename)
    } else {
        Seq::empty()
    }) + match config.bytes {
        Some(num_bytes) => read_text(first(content, num_bytes as nat)),
        None => flat(first(readable(raw_lines(content)), config.lines as nat)),
    }
}

/// The text to print for one file.
pub fn print_header_lines(
    content: &[u8],
    is_title_printed: bool,
    filename: &str,
    config: &Config,
) -> (out: String)
    ensures
        out@ == header_lines(content@, is_title_printed, filename@, *config),
{
    let mut out = if is_title_printed {
        chain3("==> ", filename, " <==\n")
    } else {
        String::new()
    };
    let body = match config.bytes {
        Some(num_bytes) => print_n_first_bytes(content, num_bytes),
        None => print_n_first_lines(content, config.lines),
    };
    out.append(body.as_str());
    out
}

/// The text printed for files, in order: an empty line before every file
/// but the first, and what is shown of each file that could be opened,
/// under its title where there is more than one file.
pub open spec fn run_output(
    files: Seq<String>,
    contents: Seq<Option<Vec<u8>>>,
    config: Config,
) -> Seq<char>
    decreases contents.len(),
{
    if contents.len() == 0 || files.len() != contents.len() {
        Seq::empty()
    } else {
        run_output(files.drop_last(), contents.drop_last(), config) + (if contents.len() > 1 {
            "\n"@
        } else {
            Seq::empty()
        }) + match contents.last() {
            Some(content) => header_lines(
                content@,
                config.files.len() > 1,
                files.last()@,
                config,
            ),
            None => Seq::empty(),
        }
    }
}

/// The text to print for the files of `config`, where `contents` holds in
/// the same order what was read of each, or `None` for a file that could
/// not be opened.
pub fn run(config: &Config, contents: &Vec<Option<Vec<u8>>>) -> (result: MyResult<String>)
    requires
        contents.len() == config.files.len(),
    ensures
        result matches Ok(out) && out@ == run_output(config.files@, contents@, *config),
{
    let is_title_printed = config.files.len() > 1;
    let mut out = String::new();
    let mut i: usize = 0;
    let ghost files = config.files@;
    proof {
        assert(contents@.take(0) =~= Seq::<Option<Vec<u8>>>::empty());
        assert(files.take(0) =~= Seq::<String>::empty());
    }
    while i < contents.len()
        invariant
            i <= contents.len() == files.len(),
            files == config.files@,
            is_title_printed == (config.files.len() > 1),
            out@ == run_output(files.take(i as int), contents@.take(i as int), *config),
        decreases contents.len() - i,
    {
        let ghost before = out@;
        proof {
            assert(contents@.take(i + 1).drop_last() =~= contents@.take(i as int));
            assert(files.take(i + 1).drop_last() =~= files.take(i as int));
            assert(contents@.take(i + 1).last() == contents@[i as int]);
            assert(files.take(i + 1).last() == files[i as int]);
        }
        if i > 0 {
            out.append("\n");
        }
        if let Some(content) = &contents[i] {
            let text = print_header_lines(
                content.as_slice(),
                is_title_printed,
                config.files[i].as_str(),
                config,
            );
            out.append(text.as_str());
        }
        i += 1;
        assert(out@ =~= run_output(files.take(i as int), contents@.take(i as int), *config));
    }
    proof {
        assert(contents@.take(contents.len() as int) =~= contents@);
        assert(files.take(contents.len() as int) =~= files);
    }
    Ok(out)
}

} // verus!
