//! Counting the lines, words, bytes and characters of a text.

pub use crate::error::{MyError, MyResult};
use crate::lines::{
    byte_views, decode_strict, flat, is_raw_line, law_lines_partition, raw_lines, split_lines,
};
use crate::text::{
    align_right, chars_of, decimal_digits, is_space, right_aligned, space, texts,
};
use vstd::prelude::*;
use vstd::string::{StringExecFns, StringSliceAdditionalSpecFns};
use vstd::utf8::{decode_utf8, encode_scalar, encode_utf8, valid_utf8};

verus! {

/// What is to be counted, and in which files.
#[derive(Debug)]
pub struct Config {
    pub files: Vec<String>,
    pub lines: bool,
    pub words: bool,
    pub bytes: bool,
    pub chars: bool,
}

/// The counts of one text.
#[derive(Debug, PartialEq)]
pub struct FileInfo {
    pub num_lines: usize,
    pub num_words: usize,
    pub num_bytes: usize,
    pub num_chars: usize,
}

/// Counts as numbers without bound.
pub struct Tally {
    pub lines: nat,
    pub words: nat,
    pub bytes: nat,
    pub chars: nat,
}

impl View for FileInfo {
    type V = Tally;

    open spec fn view(&self) -> Tally {
        Tally {
            lines: self.num_lines as nat,
            words: self.num_words as nat,
            bytes: self.num_bytes as nat,
            chars: self.num_chars as nat,
        }
    }
}

impl Tally {
    pub open spec fn zero() -> Tally {
        Tally { lines: 0, words: 0, bytes: 0, chars: 0 }
    }

    pub open spec fn plus(self, other: Tally) -> Tally {
        Tally {
            lines: self.lines + other.lines,
            words: self.words + other.words,
            bytes: self.bytes + other.bytes,
            chars: self.chars + other.chars,
        }
    }
}

/// Where no count is asked for, lines, words and bytes are counted.
pub fn get_args(parsed: Config) -> (config: Config)
    ensures
        config.files == parsed.files,
        parsed.lines || parsed.words || parsed.bytes || parsed.chars ==> config == parsed,
        !(parsed.lines || parsed.words || parsed.bytes || parsed.chars) ==> config.lines
            && config.words && config.bytes && !config.chars,
{
    let mut config = parsed;
    if !config.lines && !config.words && !config.bytes && !config.chars {
        config.lines = true;
        config.words = true;
        config.bytes = true;
    }
    config
}

/// Whether a word begins at index `i` of `s`.
pub open spec fn word_starts(s: Seq<char>, i: int) -> bool {
    !is_space(s[i]) && (i == 0 || is_space(s[i - 1]))
}

/// The number of words of `s`: of its longest runs free of white space.
pub open spec fn word_count(s: Seq<char>) -> nat
    decreases s.len(),
{
    if s.len() == 0 {
        0
    } else {
        word_count(s.drop_last()) + if word_starts(s, s.len() - 1) {
            1nat
        } else {
            0nat
        }
    }
}

proof fn lemma_word_count_bound(s: Seq<char>)
    ensures
        word_count(s) <= s.len(),
    decreases s.len(),
{
    if s.len() > 0 {
        lemma_word_count_bound(s.drop_last());
    }
}

/// Every character takes at least one byte.
proof fn lemma_encoding_length(chars: Seq<char>)
    ensures
        chars.len() <= encode_utf8(chars).len(),
    decreases chars.len(),
{
    if chars.len() > 0 {
        lemma_encoding_length(chars.drop_first());
        assert(encode_scalar(chars[0] as u32).len() >= 1);
    }
}

/// Counts the words of `line`.
pub fn count_words(line: &str) -> (words: usize)
    ensures
        words == word_count(line@),
{
    let chars = chars_of(line);
    let mut words: usize = 0;
    let mut in_word = false;
    let mut i: usize = 0;
    while i < chars.len()
        invariant
            i <= chars.len(),
            words == word_count(chars@.take(i as int)),
            words <= i,
            in_word == (i > 0 && !is_space(chars@[i - 1])),
        decreases chars.len() - i,
    {
        let here = !space(chars[i]);
        proof {
            let next = chars@.take(i + 1);
            assert(next.drop_last() =~= chars@.take(i as int));
            assert(word_starts(next, i as int) == (here && !in_word));
        }
        if here && !in_word {
            words += 1;
        }
        in_word = here;
        i += 1;
    }
    assert(chars@.take(chars.len() as int) =~= chars@);
    words
}

/// The counts of a text read line by line; reading ends before the first
/// line that is not well-formed UTF-8.
pub open spec fn tally(lines: Seq<Seq<u8>>) -> Tally
    decreases lines.len(),
{
    if lines.len() == 0 || !valid_utf8(lines[0]) {
        Tally::zero()
    } else {
        let text = decode_utf8(lines[0]);
        Tally { lines: 1, words: word_count(text), bytes: lines[0].len(), chars: text.len() }.plus(
            tally(lines.drop_first()),
        )
    }
}

/// Counts the lines, words, bytes and characters of `content`.
pub fn count(content: &[u8]) -> (result: MyResult<FileInfo>)
    ensures
        result matches Ok(info) && info@ == tally(raw_lines(content@)) && info.num_lines
            <= content@.len() && info.num_words <= content@.len() && info.num_bytes
            <= content@.len() && info.num_chars <= content@.len(),
{
    let n = content.len();
    let raw = split_lines(content);
    let ghost all = raw_lines(content@);
    let mut info = FileInfo { num_lines: 0, num_words: 0, num_bytes: 0, num_chars: 0 };
    let mut i: usize = 0;
    proof {
        law_lines_partition(content@);
        assert(flat(all.take(0)) =~= Seq::<u8>::empty());
        assert(all.skip(0) =~= all);
        assert(all.take(0) =~= Seq::<Seq<u8>>::empty());
    }
    while i < raw.len()
        invariant
            i <= raw.len() == all.len(),
            all == raw_lines(content@),
            byte_views(raw@) == all,
            flat(all).len() <= usize::MAX,
            tally(all) == info@.plus(tally(all.skip(i as int))),
            info.num_bytes == flat(all.take(i as int)).len(),
            info.num_chars <= info.num_bytes,
            info.num_words <= info.num_bytes,
            info.num_lines <= info.num_bytes,
            forall|k: int| 0 <= k < all.len() ==> is_raw_line(#[trigger] all[k]),
            flat(all).len() == content@.len(),
        decreases raw.len() - i,
    {
        let ghost rest = all.skip(i as int);
        proof {
            assert(byte_views(raw@)[i as int] == raw@[i as int]@);
            assert(rest[0] == all[i as int]);
            assert(rest.drop_first() =~= all.skip(i + 1));
            assert(all.take(i + 1).drop_last() =~= all.take(i as int));
            lemma_flat_take(all, i + 1);
            lemma_flat_take(all, i as int);
        }
        match decode_strict(raw[i]) {
            Some(line) => {
                proof {
                    lemma_encoding_length(line@);
                    lemma_word_count_bound(line@);
                }
                let words = count_words(line);
                let chars = line.unicode_len();
                info.num_lines += 1;
                info.num_words += words;
                info.num_bytes += raw[i].len();
                info.num_chars += chars;
            },
            None => {
                proof {
                    assert(!valid_utf8(rest[0]));
                    assert(tally(rest) == Tally::zero());
                }
                return Ok(info);
            },
        }
        i += 1;
    }
    proof {
        assert(all.take(raw.len() as int) =~= all);
    }
    Ok(info)
}

/// The first lines of a text are no longer than all of them.
proof fn lemma_flat_take(lines: Seq<Seq<u8>>, k: int)
    requires
        0 <= k <= lines.len(),
    ensures
        flat(lines.take(k)).len() <= flat(lines).len(),
    decreases lines.len() - k,
{
    if k == lines.len() {
        assert(lines.take(k) =~= lines);
    } else {
        lemma_flat_take(lines, k + 1);
        assert(lines.take(k + 1).drop_last() =~= lines.take(k));
    }
}

/// The width of a column of counts.
pub const COLUMN: usize = 7;

/// A count in its column.
pub open spec fn column(n: nat) -> Seq<char> {
    right_aligned(decimal_digits(n), COLUMN as nat)
}

/// Writes a count in its column.
pub fn format_count(n: usize) -> (out: String)
    ensures
        out@ == column(n as nat),
{
    align_right(n as u64, COLUMN)
}

/// The columns of a report, in the order lines, words, bytes, characters,
/// each only where it is asked for.
pub open spec fn columns(info: Tally, config: Config) -> Seq<Seq<char>> {
    (if config.lines {
        seq![column(info.lines)]
    } else {
        Seq::empty()
    }) + (if config.words {
        seq![column(info.words)]
    } else {
        Seq::empty()
    }) + (if config.bytes {
        seq![column(info.bytes)]
    } else {
        Seq::empty()
    }) + (if config.chars {
        seq![column(info.chars)]
    } else {
        Seq::empty()
    })
}

/// The report of one text: a blank, then the columns with a blank between
/// neighbours.
pub open spec fn message(info: Tally, config: Config) -> Seq<char> {
    " "@ + crate::text::joined(columns(info, config), " "@)
}

/// Writes the report of one text.
pub fn compose_message(file_info: &FileInfo, config: &Config) -> (ret: String)
    ensures
        ret@ == message(file_info@, *config),
{
    let mut cols: Vec<String> = Vec::new();
    if config.lines {
        cols.push(format_count(file_info.num_lines));
    }
    if config.words {
        cols.push(format_count(file_info.num_words));
    }
    if config.bytes {
        cols.push(format_count(file_info.num_bytes));
    }
    if config.chars {
        cols.push(format_count(file_info.num_chars));
    }
    assert(crate::text::texts(cols@) =~= columns(file_info@, *config));
    let body = crate::text::join(&cols, " ");
    crate::text::chain(" ", body.as_str())
}

/// The line of the report for one file: its counts, and its name unless
/// it is the standard input.
pub open spec fn file_line(info: Tally, name: Seq<char>, config: Config) -> Seq<char> {
    if name == "-"@ {
        message(info, config)
    } else {
        message(info, config) + " "@ + name
    }
}

/// The counts of the files that could be read, added up.
pub open spec fn totals(contents: Seq<Option<Vec<u8>>>) -> Tally
    decreases contents.len(),
{
    if contents.len() == 0 {
        Tally::zero()
    } else {
        match contents.last() {
            Some(content) => totals(contents.drop_last()).plus(tally(raw_lines(content@))),
            None => totals(contents.drop_last()),
        }
    }
}

/// How many of the files could be read.
pub open spec fn opened(contents: Seq<Option<Vec<u8>>>) -> nat
    decreases contents.len(),
{
    if contents.len() == 0 {
        0
    } else {
        opened(contents.drop_last()) + if contents.last() is Some {
            1nat
        } else {
            0nat
        }
    }
}

/// The number of bytes of the files that could be read.
pub open spec fn size(contents: Seq<Option<Vec<u8>>>) -> nat
    decreases contents.len(),
{
    if contents.len() == 0 {
        0
    } else {
        size(contents.drop_last()) + match contents.last() {
            Some(content) => content@.len(),
            None => 0nat,
        }
    }
}

/// The lines of the report for the files one by one.
pub open spec fn file_lines(
    files: Seq<String>,
    contents: Seq<Option<Vec<u8>>>,
    config: Config,
) -> Seq<Seq<char>>
    decreases contents.len(),
{
    if contents.len() == 0 || files.len() != contents.len() {
        Seq::empty()
    } else {
        let before = file_lines(files.drop_last(), contents.drop_last(), config);
        match contents.last() {
            Some(content) => before.push(
                file_line(tally(raw_lines(content@)), files.last()@, config),
            ),
            None => before,
        }
    }
}

/// The report: a line for every file that could be read and, where that is
/// more than one file, a line of totals.
pub open spec fn report(config: Config, contents: Seq<Option<Vec<u8>>>) -> Seq<Seq<char>> {
    file_lines(config.files@, contents, config) + if opened(contents) > 1 {
        seq![message(totals(contents), config) + " total"@]
    } else {
        Seq::empty()
    }
}

/// The lines to print for the files of `config`, where `contents` holds
/// in the same order what was read of each, or `None` for a file that
/// could not be opened.
pub fn run(config: &Config, contents: &Vec<Option<Vec<u8>>>) -> (result: MyResult<Vec<String>>)
    requires
        contents.len() == config.files.len(),
        size(contents@) <= usize::MAX,
    ensures
        result matches Ok(out) && texts(out@) == report(*config, contents@),
{
    let mut num_files: usize = 0;
    let mut sum = FileInfo { num_lines: 0, num_words: 0, num_bytes: 0, num_chars: 0 };
    let mut out: Vec<String> = Vec::new();
    let mut i: usize = 0;
    let ghost files = config.files@;
    proof {
        assert(contents@.take(0) =~= Seq::<Option<Vec<u8>>>::empty());
        assert(files.take(0) =~= Seq::<String>::empty());
        assert(texts(out@) =~= file_lines(files.take(0), contents@.take(0), *config));
    }
    while i < contents.len()
        invariant
            i <= contents.len() == files.len(),
            files == config.files@,
            size(contents@) <= usize::MAX,
            num_files == opened(contents@.take(i as int)),
            num_files <= i,
            sum@ == totals(contents@.take(i as int)),
            sum.num_lines <= size(contents@.take(i as int)),
            sum.num_words <= size(contents@.take(i as int)),
            sum.num_bytes <= size(contents@.take(i as int)),
            sum.num_chars <= size(contents@.take(i as int)),
            texts(out@) == file_lines(files.take(i as int), contents@.take(i as int), *config),
        decreases contents.len() - i,
    {
        let ghost before = texts(out@);
        proof {
            assert(contents@.take(i + 1).drop_last() =~= contents@.take(i as int));
            assert(files.take(i + 1).drop_last() =~= files.take(i as int));
            assert(contents@.take(i + 1).last() == contents@[i as int]);
            assert(files.take(i + 1).last() == files[i as int]);
            lemma_size_take(contents@, i + 1);
        }
        if let Some(content) = &contents[i] {
            let file_info = match count(content.as_slice()) {
                Ok(info) => info,
                Err(e) => {
                    return Err(e);
                },
            };
            num_files += 1;
            sum.num_lines += file_info.num_lines;
            sum.num_words += file_info.num_words;
            sum.num_bytes += file_info.num_bytes;
            sum.num_chars += file_info.num_chars;
            let message = compose_message(&file_info, config);
            let line = if !crate::text::same_text(config.files[i].as_str(), "-") {
                crate::text::chain3(message.as_str(), " ", config.files[i].as_str())
            } else {
                message
            };
            out.push(line);
            assert(texts(out@) =~= before.push(line@));
        }
        i += 1;
    }
    proof {
        assert(contents@.take(contents.len() as int) =~= contents@);
        assert(files.take(contents.len() as int) =~= files);
    }
    if num_files > 1 {
        let message = compose_message(&sum, config);
        out.push(crate::text::chain(message.as_str(), " total"));
    }
    assert(texts(out@) =~= report(*config, contents@));
    Ok(out)
}

proof fn lemma_size_take(contents: Seq<Option<Vec<u8>>>, k: int)
    requires
        0 <= k <= contents.len(),
    ensures
        size(contents.take(k)) <= size(contents),
    decreases contents.len() - k,
{
    if k == contents.len() {
        assert(contents.take(k) =~= contents);
    } else {
        lemma_size_take(contents, k + 1);
        assert(contents.take(k + 1).drop_last() =~= contents.take(k));
    }
}

} // verus!
