//! Column selection: a list of positions such as `1,7,3-5` is read into
//! half-open ranges, and the ranges pick bytes, characters or delimited
//! fields out of each line.

use crate::lines::{lines_of, text_lines, whole_lines};
use crate::text::{
    all_digits, chars_of, decimal_digits, decimal_string, decimal_value, first_index, is_digit,
    is_number, join, joined, lemma_first_index_bounds, lemma_first_index_is, parse_digits,
    read_bytes, read_text, split_on, string_of, texts,
};
use std::ops::Range;
use vstd::prelude::*;
use vstd::slice::slice_subrange;
use vstd::string::{StringExecFns, StringSliceAdditionalSpecFns};

verus! {

/// Ranges of positions counted from zero, each without its end, in the
/// order in which they were asked for.
pub type PositionList = Vec<Range<usize>>;

/// What is to be cut out of each line: always exactly one of the three.
#[derive(Debug)]
pub enum Extract {
    Fields(PositionList),
    Bytes(PositionList),
    Chars(PositionList),
}

/// Why a request to cut was not accepted.
#[derive(Debug)]
pub enum CutError {
    /// None of fields, bytes or characters was asked for.
    MissingMode,
    /// The delimiter, given here, is not exactly one byte long.
    InvalidDelimiter(String),
    /// No list of positions was given.
    NoPositions,
    /// An item of the list is no position and no range, or is zero.
    IllegalListValue(String),
    /// A range whose first number is not below its second.
    InvalidRangeOrder(usize, usize),
    /// A number of the list does not fit the machine.
    ValueTooLarge,
}

/// The mathematical content of a `CutError`.
pub enum CutErrorView {
    MissingMode,
    InvalidDelimiter(Seq<char>),
    NoPositions,
    IllegalListValue(Seq<char>),
    InvalidRangeOrder(nat, nat),
    ValueTooLarge,
}

impl View for CutError {
    type V = CutErrorView;

    open spec fn view(&self) -> CutErrorView {
        match self {
            CutError::MissingMode => CutErrorView::MissingMode,
            CutError::InvalidDelimiter(d) => CutErrorView::InvalidDelimiter(d@),
            CutError::NoPositions => CutErrorView::NoPositions,
            CutError::IllegalListValue(t) => CutErrorView::IllegalListValue(t@),
            CutError::InvalidRangeOrder(a, b) => CutErrorView::InvalidRangeOrder(
                *a as nat,
                *b as nat,
            ),
            CutError::ValueTooLarge => CutErrorView::ValueTooLarge,
        }
    }
}

pub type MyResult<T> = Result<T, CutError>;

impl CutErrorView {
    /// The text shown to the user.
    pub open spec fn message(self) -> Seq<char> {
        match self {
            CutErrorView::MissingMode => "Must have --fields, --bytes, or --chars"@,
            CutErrorView::InvalidDelimiter(d) => "--delim \""@ + d + "\" must be a single byte"@,
            CutErrorView::NoPositions => "No positions were specified"@,
            CutErrorView::IllegalListValue(t) => "illegal list value: \""@ + t + "\""@,
            CutErrorView::InvalidRangeOrder(a, b) => "First number in range ("@ + decimal_digits(a)
                + ") must be lower than second number ("@ + decimal_digits(b) + ")"@,
            CutErrorView::ValueTooLarge => "number too large to fit in target type"@,
        }
    }
}

impl CutError {
    /// The text shown to the user.
    pub fn to_string(&self) -> (text: String)
        ensures
            text@ == self@.message(),
    {
        match self {
            CutError::MissingMode => String::from_str("Must have --fields, --bytes, or --chars"),
            CutError::InvalidDelimiter(d) => {
                let mut text = String::from_str("--delim \"");
                text.append(d.as_str());
                text.append("\" must be a single byte");
                text
            },
            CutError::NoPositions => String::from_str("No positions were specified"),
            CutError::IllegalListValue(t) => {
                let mut text = String::from_str("illegal list value: \"");
                text.append(t.as_str());
                text.append("\"");
                text
            },
            CutError::InvalidRangeOrder(a, b) => {
                let mut text = String::from_str("First number in range (");
                text.append(decimal_string(*a as u64).as_str());
                text.append(") must be lower than second number (");
                text.append(decimal_string(*b as u64).as_str());
                text.append(")");
                text
            },
            CutError::ValueTooLarge => String::from_str("number too large to fit in target type"),
        }
    }
}

/// A range that selects something: its start lies below its end.
pub open spec fn range_ok(r: Range<usize>) -> bool {
    r.start < r.end
}

/// Whether `t` is written as a position (`7`) or as a range (`3-5`).
pub open spec fn is_interval(t: Seq<char>) -> bool {
    let k = first_index(t, '-');
    is_number(t.take(k)) && (k == t.len() || is_number(t.skip(k + 1)))
}

/// What one item of a list of positions means.
///
/// Positions are counted from one; the range that comes out counts from zero
/// and leaves its end out. A range whose first number is not below its
/// second is out of order, whatever the first number is; only then is a
/// first number of zero refused for itself.
pub open spec fn interval_meaning(t: Seq<char>) -> Result<Range<usize>, CutErrorView> {
    let k = first_index(t, '-');
    let single = k == t.len();
    let first = decimal_value(t.take(k));
    let second = decimal_value(t.skip(k + 1));
    if !is_interval(t) {
        Err(CutErrorView::IllegalListValue(t))
    } else if first > usize::MAX {
        Err(CutErrorView::ValueTooLarge)
    } else if !single && second <= first {
        Err(CutErrorView::InvalidRangeOrder(first, second))
    } else if first < 1 {
        Err(CutErrorView::IllegalListValue(seq!['0']))
    } else if single {
        Ok(Range { start: (first - 1) as usize, end: first as usize })
    } else if second > usize::MAX {
        Err(CutErrorView::ValueTooLarge)
    } else {
        Ok(Range { start: (first - 1) as usize, end: second as usize })
    }
}

/// What a sequence of items means: the ranges in the order of the items, or
/// the error of the first item that has one.
pub open spec fn intervals_meaning(tokens: Seq<Seq<char>>) -> Result<
    Seq<Range<usize>>,
    CutErrorView,
>
    decreases tokens.len(),
{
    if tokens.len() == 0 {
        Ok(Seq::empty())
    } else {
        match intervals_meaning(tokens.drop_last()) {
            Err(e) => Err(e),
            Ok(ranges) => match interval_meaning(tokens.last()) {
                Err(e) => Err(e),
                Ok(r) => Ok(ranges.push(r)),
            },
        }
    }
}

/// What a comma-separated list of positions means.
pub open spec fn positions_meaning(list: Seq<char>) -> Result<Seq<Range<usize>>, CutErrorView> {
    intervals_meaning(split_on(list, ','))
}

/// The refusal of an item for the reason given.
pub fn create_range_error(error: CutError) -> (result: MyResult<Range<usize>>)
    ensures
        result == Err::<Range<usize>, CutError>(error),
{
    Err(error)
}

/// The refusal of an item that is written wrongly.
pub fn create_interval_error(interval: &str) -> (result: MyResult<Range<usize>>)
    ensures
        result matches Err(e) && e@ == CutErrorView::IllegalListValue(interval@),
{
    create_range_error(CutError::IllegalListValue(String::from_str(interval)))
}

/// Reads `chars[from..to]`, a run of digits, as an index.
pub fn parse_index(chars: &Vec<char>, from: usize, to: usize) -> (result: MyResult<usize>)
    requires
        from <= to <= chars.len(),
        all_digits(chars@.subrange(from as int, to as int)),
    ensures
        match result {
            Ok(n) => n == decimal_value(chars@.subrange(from as int, to as int)),
            Err(e) => e@ == CutErrorView::ValueTooLarge && decimal_value(
                chars@.subrange(from as int, to as int),
            ) > usize::MAX,
        },
{
    match parse_digits(chars, from, to) {
        Some(n) => {
            if n <= usize::MAX as u64 {
                Ok(n as usize)
            } else {
                Err(CutError::ValueTooLarge)
            }
        },
        None => Err(CutError::ValueTooLarge),
    }
}

/// The end of the run of digits that starts at `from`.
fn scan_digits(chars: &Vec<char>, from: usize) -> (to: usize)
    requires
        from <= chars.len(),
    ensures
        from <= to <= chars.len(),
        all_digits(chars@.subrange(from as int, to as int)),
        to < chars.len() ==> !is_digit(chars@[to as int]),
{
    let mut to: usize = from;
    while to < chars.len() && '0' <= chars[to] && chars[to] <= '9'
        invariant
            from <= to <= chars.len(),
            all_digits(chars@.subrange(from as int, to as int)),
        decreases chars.len() - to,
    {
        to += 1;
    }
    to
}

/// Reads one item of a list of positions.
pub fn interval_to_range(interval: &str) -> (result: MyResult<Range<usize>>)
    ensures
        match result {
            Ok(r) => interval_meaning(interval@) == Ok::<Range<usize>, CutErrorView>(r),
            Err(e) => interval_meaning(interval@) == Err::<Range<usize>, CutErrorView>(e@),
        },
        result matches Ok(r) ==> range_ok(r),
{
    let chars = chars_of(interval);
    let n = chars.len();
    let mid = scan_digits(&chars, 0);
    let ghost t = interval@;
    let ghost k = first_index(t, '-');
    proof {
        lemma_first_index_bounds(t, '-');
        assert(t.take(mid as int) =~= t.subrange(0, mid as int));
        assert forall|i: int| 0 <= i < mid implies t[i] != '-' by {
            assert(t.subrange(0, mid as int)[i] == t[i]);
        }
        if mid < n && chars[mid as int] == '-' {
            lemma_first_index_is(t, '-', mid as int);
        } else if mid == n {
            lemma_first_index_is(t, '-', mid as int);
        } else {
            // a character that is neither a digit nor a hyphen ends the digits
            if k < mid {
                assert(t.subrange(0, mid as int)[k] == t[k]);
            } else if k == mid {
            } else {
                assert(t.take(k)[mid as int] == t[mid as int]);
            }
            assert(!is_interval(t));
        }
    }
    if mid == 0 || (mid < n && chars[mid] != '-') {
        return create_interval_error(interval);
    }
    if mid < n {
        let stop = scan_digits(&chars, mid + 1);
        proof {
            assert(t.skip(mid + 1) =~= t.subrange(mid + 1, n as int));
            if stop < n {
                assert(t.skip(mid + 1)[stop - (mid + 1)] == t[stop as int]);
            }
        }
        if stop < n || stop == mid + 1 {
            return create_interval_error(interval);
        }
    }
    let start = match parse_index(&chars, 0, mid) {
        Ok(v) => v,
        Err(e) => {
            return create_range_error(e);
        },
    };
    if mid == n {
        if start < 1 {
            return create_interval_error(decimal_string(start as u64).as_str());
        }
        return Ok((start - 1)..start);
    }
    match parse_index(&chars, mid + 1, n) {
        Ok(end) => {
            if end <= start {
                create_range_error(CutError::InvalidRangeOrder(start, end))
            } else if start < 1 {
                create_interval_error(decimal_string(start as u64).as_str())
            } else {
                Ok((start - 1)..end)
            }
        },
        Err(e) => {
            if start < 1 {
                create_interval_error(decimal_string(start as u64).as_str())
            } else {
                create_range_error(e)
            }
        },
    }
}

/// The meaning of a list in two parts is the meaning of the first part, then
/// that of the second.
pub proof fn lemma_intervals_concat(a: Seq<Seq<char>>, b: Seq<Seq<char>>)
    ensures
        intervals_meaning(a + b) == match intervals_meaning(a) {
            Err(e) => Err::<Seq<Range<usize>>, CutErrorView>(e),
            Ok(ra) => match intervals_meaning(b) {
                Err(e) => Err(e),
                Ok(rb) => Ok(ra + rb),
            },
        },
    decreases b.len(),
{
    if b.len() == 0 {
        assert(a + b =~= a);
        if let Ok(ra) = intervals_meaning(a) {
            assert(ra + Seq::<Range<usize>>::empty() =~= ra);
        }
    } else {
        lemma_intervals_concat(a, b.drop_last());
        assert((a + b).drop_last() =~= a + b.drop_last());
        assert((a + b).last() == b.last());
        if let Ok(ra) = intervals_meaning(a) {
            if let Ok(rb) = intervals_meaning(b.drop_last()) {
                if let Ok(r) = interval_meaning(b.last()) {
                    assert((ra + rb).push(r) =~= ra + rb.push(r));
                }
            }
        }
    }
}

/// A list of one item means what the item means.
pub proof fn lemma_intervals_single(t: Seq<char>)
    ensures
        intervals_meaning(seq![t]) == match interval_meaning(t) {
            Err(e) => Err::<Seq<Range<usize>>, CutErrorView>(e),
            Ok(r) => Ok(seq![r]),
        },
{
    let one = seq![t];
    assert(one.drop_last() =~= Seq::<Seq<char>>::empty());
    assert(one.last() == t);
    assert(intervals_meaning(one.drop_last()) == Ok::<Seq<Range<usize>>, CutErrorView>(
        Seq::empty(),
    ));
    if let Ok(r) = interval_meaning(t) {
        assert(Seq::<Range<usize>>::empty().push(r) =~= seq![r]);
    }
}

/// Every range that a list of positions yields selects something.
pub proof fn lemma_intervals_ranges_ok(tokens: Seq<Seq<char>>)
    ensures
        intervals_meaning(tokens) matches Ok(ranges) ==> ranges.len() == tokens.len()
            && forall|i: int| 0 <= i < ranges.len() ==> range_ok(#[trigger] ranges[i]),
    decreases tokens.len(),
{
    if tokens.len() > 0 {
        lemma_intervals_ranges_ok(tokens.drop_last());
    }
}

/// Reads a comma-separated list of positions and ranges, such as `1,7,3-5`,
/// into ranges that count from zero, in the order in which they are written.
pub fn parse_pos(range: &str) -> (result: MyResult<PositionList>)
    ensures
        match result {
            Ok(list) => positions_meaning(range@) == Ok::<Seq<Range<usize>>, CutErrorView>(list@),
            Err(e) => positions_meaning(range@) == Err::<Seq<Range<usize>>, CutErrorView>(e@),
        },
        result matches Ok(list) ==> forall|i: int|
            0 <= i < list.len() ==> range_ok(#[trigger] list[i]),
{
    let chars = chars_of(range);
    let n = chars.len();
    let ghost s = range@;
    let mut list: Vec<Range<usize>> = Vec::new();
    let ghost mut done: Seq<Seq<char>> = Seq::empty();
    let mut start: usize = 0;
    let mut i: usize = 0;
    proof {
        assert(s.skip(0) =~= s);
        assert(done + split_on(s.skip(0), ',') =~= split_on(s, ','));
    }
    loop
        invariant
            chars@ == s,
            s == range@,
            n == s.len(),
            0 <= start <= i <= n,
            forall|j: int| start <= j < i ==> s[j] != ',',
            split_on(s, ',') == done + split_on(s.skip(start as int), ','),
            intervals_meaning(done) == Ok::<Seq<Range<usize>>, CutErrorView>(list@),
        decreases n - i,
    {
        if i < n && chars[i] != ',' {
            i += 1;
        } else {
            let ghost rest = s.skip(start as int);
            let ghost token = s.subrange(start as int, i as int);
            let ghost after = if i < n {
                split_on(s.skip(i + 1), ',')
            } else {
                Seq::<Seq<char>>::empty()
            };
            proof {
                lemma_first_index_is(rest, ',', i - start);
                assert(rest.take(i - start) =~= token);
                if i < n {
                    assert(rest.skip(i - start + 1) =~= s.skip(i + 1));
                } else {
                    assert(rest =~= token);
                }
                assert(split_on(rest, ',') =~= seq![token] + after);
                assert(split_on(s, ',') =~= (done + seq![token]) + after);
                lemma_intervals_concat(done, seq![token]);
                lemma_intervals_single(token);
                lemma_intervals_concat(done + seq![token], after);
            }
            let ghost prev = list@;
            let piece = string_of(&chars, start, i);
            match interval_to_range(piece.as_str()) {
                Ok(r) => {
                    list.push(r);
                },
                Err(e) => {
                    return Err(e);
                },
            }
            proof {
                done = done + seq![token];
                assert(prev + seq![list@.last()] =~= list@);
            }
            if i == n {
                proof {
                    assert(done + after =~= done);
                    lemma_intervals_ranges_ok(done);
                }
                return Ok(list);
            }
            i += 1;
            start = i;
        }
    }
}

/// The part of the indices of `r` that a sequence of length `len` has:
/// where it starts and where it ends.
pub open spec fn clip_bounds(len: nat, r: Range<usize>) -> (int, int) {
    if r.start < r.end && r.start < len {
        (
            r.start as int,
            if r.end <= len {
                r.end as int
            } else {
                len as int
            },
        )
    } else {
        (0, 0)
    }
}

/// The elements of `seq` at those indices of `r` that `seq` has: a range
/// that reaches past the end is cut short, none is an error.
pub open spec fn clipped<T>(seq: Seq<T>, r: Range<usize>) -> Seq<T> {
    seq.subrange(clip_bounds(seq.len(), r).0, clip_bounds(seq.len(), r).1)
}

/// What `ranges` select from `seq`: range after range in the order given, so
/// that elements may come out reordered or more than once.
pub open spec fn selected<T>(seq: Seq<T>, ranges: Seq<Range<usize>>) -> Seq<T>
    decreases ranges.len(),
{
    if ranges.len() == 0 {
        Seq::empty()
    } else {
        selected(seq, ranges.drop_last()) + clipped(seq, ranges.last())
    }
}

/// What `ranges` select from `bytes`, each range read as text by itself.
pub open spec fn selected_text(bytes: Seq<u8>, ranges: Seq<Range<usize>>) -> Seq<char>
    decreases ranges.len(),
{
    if ranges.len() == 0 {
        Seq::empty()
    } else {
        selected_text(bytes, ranges.drop_last()) + read_text(clipped(bytes, ranges.last()))
    }
}

/// Cuts `range` to a sequence of length `len`.
fn clip(len: usize, range: &Range<usize>) -> (bounds: (usize, usize))
    ensures
        bounds.0 <= bounds.1 <= len,
        (bounds.0 as int, bounds.1 as int) == clip_bounds(len as nat, *range),
{
    if range.start < range.end && range.start < len {
        (
            range.start,
            if range.end <= len {
                range.end
            } else {
                len
            },
        )
    } else {
        (0, 0)
    }
}

/// The characters of `chars` at the indices of `range`.
pub fn chars_in_range(chars: &Vec<char>, range: &Range<usize>) -> (ret: String)
    ensures
        ret@ == clipped(chars@, *range),
{
    let (lo, hi) = clip(chars.len(), range);
    string_of(chars, lo, hi)
}

/// The characters of `line` that `char_positions` select, counted by code
/// point and not by byte.
pub fn extract_chars(line: &str, char_positions: &[Range<usize>]) -> (ret: String)
    ensures
        ret@ == selected(line@, char_positions@),
{
    let chars = chars_of(line);
    let mut ret = String::new();
    let mut i: usize = 0;
    while i < char_positions.len()
        invariant
            i <= char_positions.len(),
            chars@ == line@,
            ret@ == selected(line@, char_positions@.take(i as int)),
        decreases char_positions.len() - i,
    {
        let piece = chars_in_range(&chars, &char_positions[i]);
        proof {
            let next = char_positions@.take(i + 1);
            assert(next.drop_last() =~= char_positions@.take(i as int));
            assert(next.last() == char_positions@[i as int]);
        }
        ret.append(piece.as_str());
        i += 1;
    }
    assert(char_positions@.take(char_positions.len() as int) =~= char_positions@);
    ret
}

/// The bytes of `bytes` at the indices of `range`, read as text: whole
/// characters come out as they are, and a character that the range cuts
/// in two is read permissively.
pub fn bytes_in_range(bytes: &[u8], range: &Range<usize>) -> (ret: String)
    ensures
        ret@ == read_text(clipped(bytes@, *range)),
{
    let (lo, hi) = clip(bytes.len(), range);
    read_bytes(slice_subrange(bytes, lo, hi))
}

/// The bytes of `line` that `byte_positions` select, counted by offset, each
/// range read as text by itself.
pub fn extract_bytes(line: &str, byte_positions: &[Range<usize>]) -> (ret: String)
    ensures
        ret@ == selected_text(line.spec_bytes(), byte_positions@),
{
    let bytes = line.as_bytes();
    let mut ret = String::new();
    let mut i: usize = 0;
    while i < byte_positions.len()
        invariant
            i <= byte_positions.len(),
            bytes@ == line.spec_bytes(),
            ret@ == selected_text(line.spec_bytes(), byte_positions@.take(i as int)),
        decreases byte_positions.len() - i,
    {
        let piece = bytes_in_range(bytes, &byte_positions[i]);
        proof {
            let next = byte_positions@.take(i + 1);
            assert(next.drop_last() =~= byte_positions@.take(i as int));
            assert(next.last() == byte_positions@[i as int]);
        }
        ret.append(piece.as_str());
        i += 1;
    }
    assert(byte_positions@.take(byte_positions.len() as int) =~= byte_positions@);
    ret
}

/// A record of the `csv` crate: a row of fields, each of them text.
#[verifier::external_type_specification]
#[verifier::external_body]
pub struct ExStringRecord(csv::StringRecord);

/// The fields that a record holds, in order.
pub uninterp spec fn record_fields(record: csv::StringRecord) -> Seq<Seq<char>>;

/// `StringRecord::len` is the number of fields.
pub assume_specification[ csv::StringRecord::len ](record: &csv::StringRecord) -> (len: usize)
    ensures
        len == record_fields(*record).len(),
;

/// `StringRecord::get` hands out the field at index `i`, and nothing past
/// the last field.
pub assume_specification<'a>[ csv::StringRecord::get ](
    record: &'a csv::StringRecord,
    i: usize,
) -> (field: Option<&'a str>)
    ensures
        match field {
            Some(f) => i < record_fields(*record).len() && f@ == record_fields(*record)[i as int],
            None => i >= record_fields(*record).len(),
        },
;

/// The fields of `record` at the indices of `range`.
pub fn fields_in_range(record: &csv::StringRecord, range: &Range<usize>) -> (ret: Vec<String>)
    ensures
        texts(ret@) == clipped(record_fields(*record), *range),
{
    let (lo, hi) = clip(record.len(), range);
    let mut ret: Vec<String> = Vec::new();
    let mut i: usize = lo;
    while i < hi
        invariant
            lo <= i <= hi <= record_fields(*record).len(),
            texts(ret@) == record_fields(*record).subrange(lo as int, i as int),
        decreases hi - i,
    {
        let ghost before = texts(ret@);
        if let Some(field) = record.get(i) {
            ret.push(String::from_str(field));
            assert(texts(ret@) =~= before.push(field@));
        }
        i += 1;
        assert(texts(ret@) =~= record_fields(*record).subrange(lo as int, i as int));
    }
    ret
}

/// The fields of `record` that `field_positions` select, in the order of the
/// ranges and not of the fields.
pub fn extract_fields(record: &csv::StringRecord, field_positions: &[Range<usize>]) -> (ret: Vec<
    String,
>)
    ensures
        texts(ret@) == selected(record_fields(*record), field_positions@),
{
    let mut ret: Vec<String> = Vec::new();
    let mut i: usize = 0;
    while i < field_positions.len()
        invariant
            i <= field_positions.len(),
            texts(ret@) == selected(record_fields(*record), field_positions@.take(i as int)),
        decreases field_positions.len() - i,
    {
        let mut piece = fields_in_range(record, &field_positions[i]);
        proof {
            let next = field_positions@.take(i + 1);
            assert(next.drop_last() =~= field_positions@.take(i as int));
            assert(next.last() == field_positions@[i as int]);
            assert(texts(ret@ + piece@) =~= texts(ret@) + texts(piece@));
        }
        ret.append(&mut piece);
        i += 1;
    }
    assert(field_positions@.take(field_positions.len() as int) =~= field_positions@);
    ret
}

/// The options of a request to cut, as written on the command line.
#[derive(Debug)]
pub struct ConfigArgs {
    pub files: Vec<String>,
    pub delimiter: String,
    pub field_positions: Option<String>,
    pub byte_positions: Option<String>,
    pub char_positions: Option<String>,
}

/// A request to cut, checked and ready for use.
#[derive(Debug)]
pub struct Config {
    pub files: Vec<String>,
    pub delimiter: u8,
    pub extract: Extract,
}

/// The mathematical content of an `Extract`.
pub enum ExtractView {
    Fields(Seq<Range<usize>>),
    Bytes(Seq<Range<usize>>),
    Chars(Seq<Range<usize>>),
}

impl View for Extract {
    type V = ExtractView;

    open spec fn view(&self) -> ExtractView {
        match self {
            Extract::Fields(p) => ExtractView::Fields(p@),
            Extract::Bytes(p) => ExtractView::Bytes(p@),
            Extract::Chars(p) => ExtractView::Chars(p@),
        }
    }
}

/// The delimiter that `args` name: the one byte of the text given.
pub open spec fn delimiter_meaning(args: ConfigArgs) -> Result<u8, CutErrorView> {
    let bytes = vstd::utf8::encode_utf8(args.delimiter@);
    if bytes.len() == 1 {
        Ok(bytes[0])
    } else {
        Err(CutErrorView::InvalidDelimiter(args.delimiter@))
    }
}

/// Finds the delimiter, which must be a single byte.
pub fn get_delimiter(args: &ConfigArgs) -> (result: MyResult<u8>)
    ensures
        match result {
            Ok(d) => delimiter_meaning(*args) == Ok::<u8, CutErrorView>(d),
            Err(e) => delimiter_meaning(*args) == Err::<u8, CutErrorView>(e@),
        },
{
    let bytes = args.delimiter.as_str().as_bytes();
    if bytes.len() != 1 {
        return Err(CutError::InvalidDelimiter(args.delimiter.clone()));
    }
    Ok(bytes[0])
}

/// Puts the ranges of a list, if it has a meaning, under a mode.
pub open spec fn under_mode(
    ranges: Result<Seq<Range<usize>>, CutErrorView>,
    mode: spec_fn(Seq<Range<usize>>) -> ExtractView,
) -> Result<ExtractView, CutErrorView> {
    match ranges {
        Ok(list) => Ok(mode(list)),
        Err(e) => Err(e),
    }
}

/// What `args` ask to cut: fields before bytes before characters, where
/// more than one list is given.
pub open spec fn extract_meaning(args: ConfigArgs) -> Result<ExtractView, CutErrorView> {
    if let Some(positions) = args.field_positions {
        under_mode(positions_meaning(positions@), |list| ExtractView::Fields(list))
    } else if let Some(positions) = args.byte_positions {
        under_mode(positions_meaning(positions@), |list| ExtractView::Bytes(list))
    } else if let Some(positions) = args.char_positions {
        under_mode(positions_meaning(positions@), |list| ExtractView::Chars(list))
    } else {
        Err(CutErrorView::NoPositions)
    }
}

/// The ranges of an `Extract`, whatever its mode.
pub open spec fn ranges_of(extract: ExtractView) -> Seq<Range<usize>> {
    match extract {
        ExtractView::Fields(list) => list,
        ExtractView::Bytes(list) => list,
        ExtractView::Chars(list) => list,
    }
}

/// Every range of the list selects something.
pub open spec fn all_ranges_ok(ranges: Seq<Range<usize>>) -> bool {
    forall|i: int| 0 <= i < ranges.len() ==> range_ok(#[trigger] ranges[i])
}

/// Reads the list of positions that is given, under the mode it is given
/// for.
pub fn get_extract(args: &ConfigArgs) -> (result: MyResult<Extract>)
    ensures
        match result {
            Ok(extract) => extract_meaning(*args) == Ok::<ExtractView, CutErrorView>(extract@),
            Err(e) => extract_meaning(*args) == Err::<ExtractView, CutErrorView>(e@),
        },
        result matches Ok(extract) ==> all_ranges_ok(ranges_of(extract@)),
{
    if let Some(positions) = &args.field_positions {
        match parse_pos(positions.as_str()) {
            Ok(list) => Ok(Extract::Fields(list)),
            Err(e) => Err(e),
        }
    } else if let Some(positions) = &args.byte_positions {
        match parse_pos(positions.as_str()) {
            Ok(list) => Ok(Extract::Bytes(list)),
            Err(e) => Err(e),
        }
    } else if let Some(positions) = &args.char_positions {
        match parse_pos(positions.as_str()) {
            Ok(list) => Ok(Extract::Chars(list)),
            Err(e) => Err(e),
        }
    } else {
        Err(CutError::NoPositions)
    }
}

/// Why `args`, if at all, are refused: a missing mode before a bad
/// delimiter before a bad list.
pub open spec fn config_error(args: ConfigArgs) -> Option<CutErrorView> {
    if args.field_positions is None && args.byte_positions is None && args.char_positions is None {
        Some(CutErrorView::MissingMode)
    } else if let Err(e) = delimiter_meaning(args) {
        Some(e)
    } else if let Err(e) = extract_meaning(args) {
        Some(e)
    } else {
        None
    }
}

/// Checks a request to cut.
pub fn config_args_into_config(args: ConfigArgs) -> (result: MyResult<Config>)
    ensures
        match result {
            Ok(config) => {
                &&& config_error(args) is None
                &&& config.files == args.files
                &&& delimiter_meaning(args) == Ok::<u8, CutErrorView>(config.delimiter)
                &&& extract_meaning(args) == Ok::<ExtractView, CutErrorView>(config.extract@)
                &&& all_ranges_ok(ranges_of(config.extract@))
            },
            Err(e) => config_error(args) == Some(e@),
        },
{
    if args.field_positions.is_none() && args.byte_positions.is_none()
        && args.char_positions.is_none() {
        return Err(CutError::MissingMode);
    }
    let delimiter = match get_delimiter(&args) {
        Ok(d) => d,
        Err(e) => {
            return Err(e);
        },
    };
    let extract = match get_extract(&args) {
        Ok(x) => x,
        Err(e) => {
            return Err(e);
        },
    };
    Ok(Config { files: args.files, delimiter, extract })
}

/// What is printed for one line of text: nothing where fields are cut.
pub open spec fn line_output(line: Seq<char>, extract: ExtractView) -> Option<Seq<char>> {
    match extract {
        ExtractView::Chars(positions) => Some(selected(line, positions)),
        ExtractView::Bytes(positions) => Some(
            selected_text(vstd::utf8::encode_utf8(line), positions),
        ),
        ExtractView::Fields(_) => None,
    }
}

/// Cuts the characters or bytes asked for out of `line`.
pub fn run_line(line: &str, config: &Config) -> (extracted: Option<String>)
    ensures
        match extracted {
            Some(text) => line_output(line@, config.extract@) == Some(text@),
            None => line_output(line@, config.extract@) is None,
        },
{
    match &config.extract {
        Extract::Chars(positions) => Some(extract_chars(line, positions.as_slice())),
        Extract::Bytes(positions) => Some(extract_bytes(line, positions.as_slice())),
        _ => None,
    }
}

/// The first record of a delimited text, where it can be read as one.
pub uninterp spec fn csv_header(content: Seq<u8>, delimiter: u8) -> Option<Seq<Seq<char>>>;

/// The records of a delimited text after the first, in order; `None`
/// stands for a record that cannot be read.
pub uninterp spec fn csv_records(content: Seq<u8>, delimiter: u8) -> Seq<Option<Seq<Seq<char>>>>;

/// `csv::Reader::headers` on a reader over `content` with the given
/// delimiter: the first record, which depends on the two alone.
#[verifier::external_body]
fn read_header(content: &[u8], delimiter: u8) -> (header: Option<csv::StringRecord>)
    ensures
        match header {
            Some(h) => csv_header(content@, delimiter) == Some(record_fields(h)),
            None => csv_header(content@, delimiter) is None,
        },
{
    let mut reader = csv::ReaderBuilder::new().delimiter(delimiter).from_reader(content);
    reader.headers().ok().cloned()
}

/// `csv::Reader::records` on a reader over `content` with the given
/// delimiter: every record after the first, or the fact that it could not
/// be read; they depend on the two alone.
#[verifier::external_body]
fn read_records(content: &[u8], delimiter: u8) -> (records: Vec<Option<csv::StringRecord>>)
    ensures
        records.len() == csv_records(content@, delimiter).len(),
        forall|i: int|
            0 <= i < records.len() ==> match #[trigger] records[i] {
                Some(r) => csv_records(content@, delimiter)[i] == Some(record_fields(r)),
                None => csv_records(content@, delimiter)[i] is None,
            },
{
    let mut reader = csv::ReaderBuilder::new().delimiter(delimiter).from_reader(content);
    reader.records().map(|r| r.ok()).collect()
}

/// The text that joins the fields of a line of output.
pub open spec fn delimiter_text(delimiter: u8) -> Seq<char> {
    seq![delimiter as char]
}

/// The line of output for one record.
pub open spec fn record_output(
    fields: Seq<Seq<char>>,
    positions: Seq<Range<usize>>,
    delimiter: u8,
) -> Seq<char> {
    joined(selected(fields, positions), delimiter_text(delimiter))
}

/// The lines of output for records: one for each that can be read.
pub open spec fn records_output(
    records: Seq<Option<Seq<Seq<char>>>>,
    positions: Seq<Range<usize>>,
    delimiter: u8,
) -> Seq<Seq<char>>
    decreases records.len(),
{
    if records.len() == 0 {
        Seq::empty()
    } else {
        match records.last() {
            Some(fields) => records_output(records.drop_last(), positions, delimiter).push(
                record_output(fields, positions, delimiter),
            ),
            None => records_output(records.drop_last(), positions, delimiter),
        }
    }
}

/// The line of output for the first record, which is cut like every
/// other. A first record without fields stands for a text without any
/// record and gives no line.
pub open spec fn header_output(
    header: Option<Seq<Seq<char>>>,
    positions: Seq<Range<usize>>,
    delimiter: u8,
) -> Seq<Seq<char>> {
    match header {
        Some(fields) => if fields.len() > 0 {
            seq![record_output(fields, positions, delimiter)]
        } else {
            Seq::empty()
        },
        None => Seq::empty(),
    }
}

/// The lines of output for a delimited text: one for the first record,
/// where there is one, then one for each record after it.
pub open spec fn fields_output(
    content: Seq<u8>,
    positions: Seq<Range<usize>>,
    delimiter: u8,
) -> Seq<Seq<char>> {
    header_output(csv_header(content, delimiter), positions, delimiter) + records_output(
        csv_records(content, delimiter),
        positions,
        delimiter,
    )
}

/// Cuts the fields asked for out of every record of a delimited text.
pub fn extract_fields_from_file(
    content: &[u8],
    positions: &Vec<Range<usize>>,
    config: &Config,
) -> (out: Vec<String>)
    ensures
        texts(out@) == fields_output(content@, positions@, config.delimiter),
{
    let mut delim_str = String::new();
    delim_str.push(config.delimiter as char);
    assert(delim_str@ =~= delimiter_text(config.delimiter));
    let mut out: Vec<String> = Vec::new();
    if let Some(header) = read_header(content, config.delimiter) {
        if header.len() > 0 {
            let header_fields = extract_fields(&header, positions.as_slice());
            out.push(join(&header_fields, delim_str.as_str()));
        }
    }
    assert(texts(out@) =~= header_output(
        csv_header(content@, config.delimiter),
        positions@,
        config.delimiter,
    ));
    let ghost head = texts(out@);
    let ghost all = csv_records(content@, config.delimiter);
    let records = read_records(content, config.delimiter);
    let mut i: usize = 0;
    proof {
        assert(all.take(0) =~= Seq::<Option<Seq<Seq<char>>>>::empty());
        assert(head + records_output(all.take(0), positions@, config.delimiter) =~= head);
    }
    while i < records.len()
        invariant
            i <= records.len() == all.len(),
            delim_str@ == delimiter_text(config.delimiter),
            forall|k: int|
                0 <= k < records.len() ==> match #[trigger] records[k] {
                    Some(r) => all[k] == Some(record_fields(r)),
                    None => all[k] is None,
                },
            texts(out@) == head + records_output(all.take(i as int), positions@, config.delimiter),
        decreases records.len() - i,
    {
        let ghost before = texts(out@);
        proof {
            assert(all.take(i + 1).drop_last() =~= all.take(i as int));
            assert(all.take(i + 1).last() == all[i as int]);
        }
        if let Some(record) = &records[i] {
            let fields = extract_fields(record, positions.as_slice());
            let line = join(&fields, delim_str.as_str());
            out.push(line);
            assert(texts(out@) =~= before.push(line@));
        }
        i += 1;
    }
    assert(all.take(records.len() as int) =~= all);
    out
}

/// The lines of output for lines of text, each cut by itself.
pub open spec fn lines_output(lines: Seq<Seq<char>>, extract: ExtractView) -> Seq<Seq<char>>
    decreases lines.len(),
{
    if lines.len() == 0 {
        Seq::empty()
    } else {
        match line_output(lines.last(), extract) {
            Some(text) => lines_output(lines.drop_last(), extract).push(text),
            None => lines_output(lines.drop_last(), extract),
        }
    }
}

/// The lines of output for one file: record by record where fields are
/// cut, else line by line, a line that is not well-formed UTF-8 being
/// passed over.
pub open spec fn file_output(content: Seq<u8>, config: Config) -> Seq<Seq<char>> {
    match config.extract@ {
        ExtractView::Fields(positions) => fields_output(content, positions, config.delimiter),
        _ => lines_output(
            whole_lines(text_lines(content)),
            config.extract@,
        ),
    }
}

/// Cuts what is asked for out of the text of one file; each string of the
/// result is one line of output.
pub fn run_file(content: &[u8], config: &Config) -> (out: Vec<String>)
    ensures
        texts(out@) == file_output(content@, *config),
{
    if let Extract::Fields(positions) = &config.extract {
        extract_fields_from_file(content, positions, config)
    } else {
        let lines = lines_of(content);
        let ghost all = texts(lines@);
        let mut out: Vec<String> = Vec::new();
        let mut i: usize = 0;
        proof {
            assert(all.take(0) =~= Seq::<Seq<char>>::empty());
            assert(texts(out@) =~= lines_output(all.take(0), config.extract@));
        }
        while i < lines.len()
            invariant
                i <= lines.len() == all.len(),
                all == texts(lines@),
                texts(out@) == lines_output(all.take(i as int), config.extract@),
            decreases lines.len() - i,
        {
            let ghost before = texts(out@);
            proof {
                assert(all.take(i + 1).drop_last() =~= all.take(i as int));
                assert(all.take(i + 1).last() == lines@[i as int]@);
            }
            if let Some(text) = run_line(lines[i].as_str(), config) {
                out.push(text);
                assert(texts(out@) =~= before.push(text@));
            }
            i += 1;
        }
        assert(all.take(lines.len() as int) =~= all);
        out
    }
}

/// The lines of output for files, in order; `None` stands for a file that
/// could not be opened and gives no line.
pub open spec fn run_output(contents: Seq<Option<Vec<u8>>>, config: Config) -> Seq<Seq<char>>
    decreases contents.len(),
{
    if contents.len() == 0 {
        Seq::empty()
    } else {
        run_output(contents.drop_last(), config) + match contents.last() {
            Some(content) => file_output(content@, config),
            None => Seq::empty(),
        }
    }
}

/// Cuts what is asked for out of every file that could be opened; each
/// string of the result is one line of output.
pub fn run(config: &Config, contents: &Vec<Option<Vec<u8>>>) -> (result: MyResult<Vec<String>>)
    ensures
        result matches Ok(out) && texts(out@) == run_output(contents@, *config),
{
    let mut out: Vec<String> = Vec::new();
    let mut i: usize = 0;
    proof {
        assert(contents@.take(0) =~= Seq::<Option<Vec<u8>>>::empty());
        assert(texts(out@) =~= run_output(contents@.take(0), *config));
    }
    while i < contents.len()
        invariant
            i <= contents.len(),
            texts(out@) == run_output(contents@.take(i as int), *config),
        decreases contents.len() - i,
    {
        let ghost before = texts(out@);
        proof {
            assert(contents@.take(i + 1).drop_last() =~= contents@.take(i as int));
            assert(contents@.take(i + 1).last() == contents@[i as int]);
        }
        if let Some(content) = &contents[i] {
            let mut lines = run_file(content.as_slice(), config);
            proof {
                assert(texts(out@ + lines@) =~= before + texts(lines@));
            }
            out.append(&mut lines);
        } else {
            assert(before + Seq::<Seq<char>>::empty() =~= before);
        }
        i += 1;
    }
    assert(contents@.take(contents.len() as int) =~= contents@);
    Ok(out)
}

/// Checks a request to cut.
pub fn get_config(args: ConfigArgs) -> (result: MyResult<Config>)
    ensures
        match result {
            Ok(config) => {
                &&& config_error(args) is None
                &&& config.files == args.files
                &&& delimiter_meaning(args) == Ok::<u8, CutErrorView>(config.delimiter)
                &&& extract_meaning(args) == Ok::<ExtractView, CutErrorView>(config.extract@)
                &&& all_ranges_ok(ranges_of(config.extract@))
            },
            Err(e) => config_error(args) == Some(e@),
        },
{
    config_args_into_config(args)
}

} // verus!
