//! The end of a text: from which line or byte on it is shown.

pub use crate::error::{MyError, MyResult};
use crate::lines::{
    byte_views, decode_strict, flat, lemma_readable_push, lemma_readable_stops, raw_lines, readable,
    split_lines,
};
use crate::text::{
    all_digits, chain, chars_of, decimal_value, is_digit, is_number, read_bytes, read_text,
    parse_digits,
};
use crate::tailr::Offset::{End, Start};
use vstd::prelude::*;
use vstd::slice::slice_subrange;
use vstd::string::StringExecFns;
use vstd::utf8::{decode_utf8, valid_utf8};

verus! {

/// A count of lines or bytes: from the start of a text, or from its end.
#[derive(Debug, PartialEq, Clone)]
pub enum Offset {
    Start(u64),
    End(u64),
}

/// What is to be shown of each file.
#[derive(Debug)]
pub struct Config {
    pub files: Vec<String>,
    pub lines: Offset,
    pub bytes: Option<Offset>,
    pub quiet: bool,
}

/// The digits of a count, without the sign that may stand in front.
pub open spec fn offset_digits(s: Seq<char>) -> Seq<char> {
    if s.len() > 0 && (s[0] == '+' || s[0] == '-') {
        s.skip(1)
    } else {
        s
    }
}

/// Whether `s` is written as a count: digits, with or without a sign in
/// front.
pub open spec fn is_offset(s: Seq<char>) -> bool {
    is_number(offset_digits(s))
}

/// Whether the number of a count fits 64 bits.
pub open spec fn offset_fits(s: Seq<char>) -> bool {
    is_offset(s) ==> decimal_value(offset_digits(s)) <= u64::MAX
}

/// What a count means: with `+` in front it is counted from the start,
/// else from the end.
pub open spec fn offset_meaning(s: Seq<char>) -> Option<Offset> {
    if !is_offset(s) {
        None
    } else if s[0] == '+' {
        Some(Start(decimal_value(offset_digits(s)) as u64))
    } else {
        Some(End(decimal_value(offset_digits(s)) as u64))
    }
}

/// Where the digits of `chars` begin, and whether they are a number.
fn scan_offset(chars: &Vec<char>) -> (found: (usize, bool))
    ensures
        found.0 <= chars.len(),
        chars@.subrange(found.0 as int, chars.len() as int) == offset_digits(chars@),
        found.1 == is_offset(chars@),
        found.1 ==> all_digits(chars@.subrange(found.0 as int, chars.len() as int)),
{
    let n = chars.len();
    let from: usize = if n > 0 && (chars[0] == '+' || chars[0] == '-') {
        1
    } else {
        0
    };
    assert(chars@.subrange(from as int, n as int) =~= offset_digits(chars@));
    let mut i: usize = from;
    while i < n
        invariant
            from <= i <= n == chars.len(),
            chars@.subrange(from as int, n as int) == offset_digits(chars@),
            all_digits(chars@.subrange(from as int, i as int)),
        decreases n - i,
    {
        if !('0' <= chars[i] && chars[i] <= '9') {
            assert(chars@.subrange(from as int, n as int)[i - from] == chars@[i as int]);
            return (from, false);
        }
        i += 1;
    }
    (from, from < n)
}

/// Tells whether the number of a count fits 64 bits.
pub fn fits(s: &str) -> (b: bool)
    ensures
        b == offset_fits(s@),
{
    let chars = chars_of(s);
    let (from, ok) = scan_offset(&chars);
    if ok {
        parse_digits(&chars, from, chars.len()).is_some()
    } else {
        true
    }
}

/// Reads a count of lines or bytes.
pub fn parse_offset(s: &str) -> (result: Option<Offset>)
    requires
        offset_fits(s@),
    ensures
        result == offset_meaning(s@),
{
    let chars = chars_of(s);
    let (from, ok) = scan_offset(&chars);
    if !ok {
        return None;
    }
    match parse_digits(&chars, from, chars.len()) {
        Some(num) => {
            if chars[0] == '+' {
                Some(Start(num))
            } else {
                Some(End(num))
            }
        },
        None => None,
    }
}

/// Whether `result` is the count that `s` writes, or else the complaint
/// that begins with `complaint`.
pub open spec fn offset_or(
    result: Result<Offset, String>,
    s: Seq<char>,
    complaint: Seq<char>,
) -> bool {
    match result {
        Ok(offset) => offset_meaning(s) == Some(offset),
        Err(message) => offset_meaning(s) is None && message@ == complaint + s,
    }
}

/// Reads a count of lines.
pub fn parse_lines(s: &str) -> (result: Result<Offset, String>)
    requires
        offset_fits(s@),
    ensures
        offset_or(result, s@, "illegal line count -- "@),
{
    match parse_offset(s) {
        Some(offset) => Ok(offset),
        None => Err(chain("illegal line count -- ", s)),
    }
}

/// Reads a count of bytes.
pub fn parse_bytes(s: &str) -> (result: Result<Offset, String>)
    requires
        offset_fits(s@),
    ensures
        offset_or(result, s@, "illegal byte count -- "@),
{
    match parse_offset(s) {
        Some(offset) => Ok(offset),
        None => Err(chain("illegal byte count -- ", s)),
    }
}

/// The index of the first line or byte to show, out of `size`; `None`
/// where nothing is to be shown.
pub open spec fn start_index(offset: Offset, size: u64) -> Option<u64> {
    match offset {
        Start(num) => if size == 0 || num > size {
            None
        } else if num == 0 {
            Some(0)
        } else {
            Some((num - 1) as u64)
        },
        End(num) => if size == 0 || num == 0 {
            None
        } else if num <= size {
            Some((size - num) as u64)
        } else {
            Some(0)
        },
    }
}

/// Finds the index of the first line or byte to show, out of `size`.
pub fn get_start_index(offset: &Offset, size: u64) -> (start: Option<u64>)
    ensures
        start == start_index(*offset, size),
        start matches Some(idx) ==> idx < size,
{
    if size == 0 {
        return None;
    }
    match offset {
        Start(num) => {
            if *num == 0 {
                Some(0)
            } else if *num <= size {
                Some(*num - 1)
            } else {
                None
            }
        },
        End(num) => {
            if *num == 0 {
                None
            } else if size >= *num {
                Some(size - *num)
            } else {
                Some(0)
            }
        },
    }
}

/// The number of lines and of bytes of a text; a last line without a
/// newline counts as a line.
pub fn count_lines_bytes(content: &[u8]) -> (counts: (u64, u64))
    ensures
        counts.0 == raw_lines(content@).len(),
        counts.1 == content@.len(),
{
    let raw = split_lines(content);
    assert(byte_views(raw@).len() == raw@.len());
    (raw.len() as u64, content.len() as u64)
}

/// What is shown of a text by lines: the readable lines from the start
/// index on.
pub open spec fn shown_lines(content: Seq<u8>, offset: Offset, num_lines: u64) -> Seq<
    char,
> {
    match start_index(offset, num_lines) {
        Some(idx) => {
            let lines = readable(raw_lines(content));
            if idx <= lines.len() {
                flat(lines.skip(idx as int))
            } else {
                Seq::empty()
            }
        },
        None => Seq::empty(),
    }
}

/// The text to print of `content`: its lines from the one that `offset`
/// names on, where `content` has `num_lines` lines.
pub fn print_lines(content: &[u8], offset: &Offset, num_lines: u64) -> (out: String)
    ensures
        out@ == shown_lines(content@, *offset, num_lines),
{
    let mut out = String::new();
    if let Some(start_idx) = get_start_index(offset, num_lines) {
        let raw = split_lines(content);
        let ghost all = raw_lines(content@);
        let mut idx: usize = 0;
        proof {
            assert(all.take(0) =~= Seq::<Seq<u8>>::empty());
            assert(readable(all.take(0)).skip(0) =~= Seq::<Seq<char>>::empty());
        }
        while idx < raw.len()
            invariant
                idx <= raw.len() == all.len(),
                all == raw_lines(content@),
                byte_views(raw@) == all,
                readable(all.take(idx as int)).len() == idx,
                start_index(*offset, num_lines) == Some(start_idx),
                out@ == if start_idx <= idx {
                    flat(readable(all.take(idx as int)).skip(start_idx as int))
                } else {
                    Seq::<char>::empty()
                },
            decreases raw.len() - idx,
        {
            let ghost before = readable(all.take(idx as int));
            proof {
                assert(byte_views(raw@)[idx as int] == raw@[idx as int]@);
                lemma_readable_push(all.take(idx as int), all[idx as int]);
                assert(all.take(idx as int).push(all[idx as int]) =~= all.take(idx + 1));
            }
            match decode_strict(raw[idx]) {
                Some(line) => {
                    proof {
                        let after = readable(all.take(idx + 1));
                        assert(after == before.push(line@));
                        if start_idx <= idx {
                            assert(after.skip(start_idx as int).drop_last() =~= before.skip(
                                start_idx as int,
                            ));
                            assert(after.skip(start_idx as int).last() == line@);
                        } else if start_idx == idx + 1 {
                            assert(after.skip(start_idx as int) =~= Seq::<Seq<char>>::empty());
                        }
                    }
                    if idx as u64 >= start_idx {
                        out.append(line);
                    }
                },
                None => {
                    proof {
                        lemma_readable_stops(all, idx as int);
                    }
                    return out;
                },
            }
            idx += 1;
        }
        proof {
            assert(all.take(idx as int) =~= all);
        }
    }
    out
}

/// What is shown of a text by bytes: its bytes from the start index on,
/// read as text.
pub open spec fn shown_bytes(content: Seq<u8>, offset: Offset, num_bytes: u64) -> Seq<
    char,
> {
    match start_index(offset, num_bytes) {
        Some(idx) => read_text(
            content.skip(
                if idx <= content.len() {
                    idx as int
                } else {
                    content.len() as int
                },
            ),
        ),
        None => Seq::empty(),
    }
}

/// The text to print of `content`: its bytes from the one that `offset`
/// names on, where `content` has `num_bytes` bytes.
pub fn print_bytes(content: &[u8], offset: &Offset, num_bytes: u64) -> (out: String)
    ensures
        out@ == shown_bytes(content@, *offset, num_bytes),
{
    if let Some(start_idx) = get_start_index(offset, num_bytes) {
        let n = content.len();
        let from: usize = if start_idx <= n as u64 {
            start_idx as usize
        } else {
            n
        };
        assert(content@.skip(from as int) =~= content@.subrange(from as int, n as int));
        read_bytes(slice_subrange(content, from, n))
    } else {
        String::new()
    }
}

/// The text to print of one file: by bytes where a count of bytes is
/// given, else by lines.
pub fn run_file(content: &[u8], config: &Config, num_lines: u64, num_bytes: u64) -> (out: String)
    ensures
        out@ == match config.bytes {
            Some(bytes_offset) => shown_bytes(content@, bytes_offset, num_bytes),
            None => shown_lines(content@, config.lines, num_lines),
        },
{
    if let Some(bytes_offset) = &config.bytes {
        print_bytes(content, bytes_offset, num_bytes)
    } else {
        print_lines(content, &config.lines, num_lines)
    }
}

/// The line that names a file above what is shown of it; an empty line
/// parts it from what was shown before. Nothing where there is one file
/// only, or where titles are not wanted.
pub open spec fn title(file_num: int, filename: Seq<char>, config: Config) -> Seq<char> {
    if config.files.len() > 1 && !config.quiet {
        (if file_num > 0 {
            "\n"@
        } else {
            Seq::empty()
        }) + "==> "@ + filename + " <==\n"@
    } else {
        Seq::empty()
    }
}

/// What is shown of the text of one file.
pub open spec fn file_output(content: Seq<u8>, config: Config) -> Seq<char> {
    match config.bytes {
        Some(bytes_offset) => shown_bytes(content, bytes_offset, content.len() as u64),
        None => shown_lines(content, config.lines, raw_lines(content).len() as u64),
    }
}

/// The text printed for files, in order; `None` stands for a file that
/// could not be opened and gives nothing.
pub open spec fn run_output(
    files: Seq<String>,
    contents: Seq<Option<Vec<u8>>>,
    config: Config,
) -> Seq<char>
    decreases contents.len(),
{
    if contents.len() == 0 || files.len() != contents.len() {
        Seq::empty()
    } else {
        run_output(files.drop_last(), contents.drop_last(), config) + match contents.last() {
            Some(content) => title(contents.len() - 1, files.last()@, config) + file_output(
                content@,
                config,
            ),
            None => Seq::empty(),
        }
    }
}

/// The text to print for the files of `config`, where `contents` holds in
/// the same order what was read of each, or `None` for a file that could
/// not be opened.
pub fn run(config: &Config, contents: &Vec<Option<Vec<u8>>>) -> (result: MyResult<String>)
    requires
        contents.len() == config.files.len(),
    ensures
        result matches Ok(out) && out@ == run_output(config.files@, contents@, *config),
{
    let multiple_files = config.files.len() > 1;
    let mut out = String::new();
    let mut i: usize = 0;
    let ghost files = config.files@;
    proof {
        assert(contents@.take(0) =~= Seq::<Option<Vec<u8>>>::empty());
        assert(files.take(0) =~= Seq::<String>::empty());
    }
    while i < contents.len()
        invariant
            i <= contents.len() == files.len(),
            files == config.files@,
            multiple_files == (config.files.len() > 1),
            out@ == run_output(files.take(i as int), contents@.take(i as int), *config),
        decreases contents.len() - i,
    {
        proof {
            assert(contents@.take(i + 1).drop_last() =~= contents@.take(i as int));
            assert(files.take(i + 1).drop_last() =~= files.take(i as int));
            assert(contents@.take(i + 1).last() == contents@[i as int]);
            assert(files.take(i + 1).last() == files[i as int]);
        }
        if let Some(content) = &contents[i] {
            if multiple_files && !config.quiet {
                if i > 0 {
                    out.append("\n");
                }
                out.append("==> ");
                out.append(config.files[i].as_str());
                out.append(" <==\n");
            }
            let (num_lines, num_bytes) = count_lines_bytes(content.as_slice());
            let text = run_file(content.as_slice(), config, num_lines, num_bytes);
            out.append(text.as_str());
        }
        i += 1;
        assert(out@ =~= run_output(files.take(i as int), contents@.take(i as int), *config));
    }
    proof {
        assert(contents@.take(contents.len() as int) =~= contents@);
        assert(files.take(contents.len() as int) =~= files);
    }
    Ok(out)
}

} // verus!
