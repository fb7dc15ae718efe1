//! A text, given as bytes, taken apart into its lines.

use crate::text::{first_index, lemma_first_index_is};
use vstd::prelude::*;
use vstd::slice::slice_subrange;
use vstd::string::StringSliceAdditionalSpecFns;
use vstd::utf8::{decode_utf8, valid_utf8};

verus! {

/// The byte that ends a line.
pub const NEWLINE: u8 = 10;

/// The lines of a text as a reader hands them out one by one: each with the
/// newline that ends it, the last one possibly without.
pub open spec fn raw_lines(bytes: Seq<u8>) -> Seq<Seq<u8>>
    decreases bytes.len(),
{
    let k = first_index(bytes, NEWLINE);
    if bytes.len() == 0 {
        Seq::empty()
    } else if 0 <= k < bytes.len() {
        seq![bytes.take(k + 1)] + raw_lines(bytes.skip(k + 1))
    } else {
        seq![bytes]
    }
}

/// The views of the slices of `v`, in order.
pub open spec fn byte_views(v: Seq<&[u8]>) -> Seq<Seq<u8>> {
    Seq::new(v.len(), |i: int| v[i]@)
}

/// Cuts `content` into its lines, each with the newline that ends it.
pub fn split_lines<'a>(content: &'a [u8]) -> (lines: Vec<&'a [u8]>)
    ensures
        byte_views(lines@) == raw_lines(content@),
{
    let n = content.len();
    let mut lines: Vec<&'a [u8]> = Vec::new();
    let mut start: usize = 0;
    let mut i: usize = 0;
    proof {
        assert(content@.skip(0) =~= content@);
        assert(byte_views(lines@) =~= Seq::<Seq<u8>>::empty());
    }
    while i < n
        invariant
            n == content@.len(),
            0 <= start <= i <= n,
            forall|j: int| start <= j < i ==> content@[j] != NEWLINE,
            raw_lines(content@) == byte_views(lines@) + raw_lines(content@.skip(start as int)),
        decreases n - i,
    {
        if content[i] == NEWLINE {
            let ghost rest = content@.skip(start as int);
            let ghost shown = byte_views(lines@);
            proof {
                lemma_first_index_is(rest, NEWLINE, i - start);
                assert(rest.take(i - start + 1) =~= content@.subrange(start as int, i + 1));
                assert(rest.skip(i - start + 1) =~= content@.skip(i + 1));
            }
            lines.push(slice_subrange(content, start, i + 1));
            proof {
                assert(byte_views(lines@) =~= shown + seq![content@.subrange(start as int, i + 1)]);
            }
            start = i + 1;
        }
        i += 1;
    }
    let ghost rest = content@.skip(start as int);
    let ghost shown = byte_views(lines@);
    if start < n {
        proof {
            lemma_first_index_is(rest, NEWLINE, n - start);
            assert(rest =~= content@.subrange(start as int, n as int));
        }
        lines.push(slice_subrange(content, start, n));
        proof {
            assert(byte_views(lines@) =~= shown + seq![rest]);
        }
    } else {
        assert(shown + Seq::<Seq<u8>>::empty() =~= shown);
    }
    lines
}

/// `std::str::from_utf8`: the bytes as text where they are well-formed UTF-8,
/// nothing where they are not.
#[verifier::external_body]
pub(crate) fn decode_strict<'a>(bytes: &'a [u8]) -> (text: Option<&'a str>)
    ensures
        match text {
            Some(t) => valid_utf8(bytes@) && t.spec_bytes() == bytes@ && t@ == decode_utf8(bytes@),
            None => !valid_utf8(bytes@),
        },
{
    std::str::from_utf8(bytes).ok()
}

/// A line as text, where it is well-formed UTF-8.
pub open spec fn line_text(line: Seq<u8>) -> Option<Seq<char>> {
    if valid_utf8(line) {
        Some(decode_utf8(line))
    } else {
        None
    }
}

/// The lines of a text, each as text where it can be read as such.
pub open spec fn text_lines(bytes: Seq<u8>) -> Seq<Option<Seq<char>>> {
    raw_lines(bytes).map_values(|line: Seq<u8>| line_text(line))
}

/// The views of the optional strings of `v`, in order.
pub open spec fn option_texts(v: Seq<Option<String>>) -> Seq<Option<Seq<char>>> {
    Seq::new(
        v.len(),
        |i: int|
            match v[i] {
                Some(s) => Some(s@),
                None => None,
            },
    )
}

/// Reads `content` line by line; a line that is not well-formed UTF-8 gives
/// `None` in its place.
pub fn read_lines(content: &[u8]) -> (lines: Vec<Option<String>>)
    ensures
        option_texts(lines@) == text_lines(content@),
{
    let raw = split_lines(content);
    let mut lines: Vec<Option<String>> = Vec::new();
    let mut i: usize = 0;
    while i < raw.len()
        invariant
            i <= raw.len(),
            byte_views(raw@) == raw_lines(content@),
            option_texts(lines@) == text_lines(content@).take(i as int),
        decreases raw.len() - i,
    {
        let ghost shown = option_texts(lines@);
        assert(byte_views(raw@).len() == raw@.len());
        assert(text_lines(content@).len() == raw@.len());
        assert(shown.len() == i && lines@.len() == i);
        assert(byte_views(raw@)[i as int] == raw@[i as int]@);
        let item = match decode_strict(raw[i]) {
            Some(t) => Some(String::from_str(t)),
            None => None,
        };
        lines.push(item);
        proof {
            let all = text_lines(content@);
            assert(byte_views(raw@).len() == raw@.len());
            assert(all[i as int] == line_text(raw@[i as int]@));
            assert(option_texts(lines@)[i as int] == all[i as int]);
            assert forall|j: int| 0 <= j < i implies option_texts(lines@)[j] == all[j] by {
                assert(option_texts(lines@)[j] == shown[j]);
                assert(shown[j] == all.take(i as int)[j]);
            }
        }
        i += 1;
        assert(option_texts(lines@) =~= text_lines(content@).take(i as int));
    }
    assert(text_lines(content@).take(raw.len() as int) =~= text_lines(content@));
    lines
}

/// A line without the `\n`, or the `\r\n`, that ends it.
pub open spec fn chomped(line: Seq<char>) -> Seq<char> {
    if line.len() > 0 && line.last() == '\n' {
        let body = line.drop_last();
        if body.len() > 0 && body.last() == '\r' {
            body.drop_last()
        } else {
            body
        }
    } else {
        line
    }
}

/// Takes the line ending off `line`.
pub fn chomp(line: &str) -> (body: String)
    ensures
        body@ == chomped(line@),
{
    let chars = crate::text::chars_of(line);
    let n = chars.len();
    let end = if n > 0 && chars[n - 1] == '\n' {
        if n > 1 && chars[n - 2] == '\r' {
            n - 2
        } else {
            n - 1
        }
    } else {
        n
    };
    let body = crate::text::string_of(&chars, 0, end);
    assert(body@ =~= chomped(line@));
    body
}

/// The lines that can be read of a text: those before the first one that
/// is not well-formed UTF-8.
pub open spec fn readable(lines: Seq<Seq<u8>>) -> Seq<Seq<char>>
    decreases lines.len(),
{
    if lines.len() == 0 || !valid_utf8(lines[0]) {
        Seq::empty()
    } else {
        seq![decode_utf8(lines[0])] + readable(lines.drop_first())
    }
}

/// The pieces of `lines` written one after the other.
pub open spec fn flat<T>(lines: Seq<Seq<T>>) -> Seq<T>
    decreases lines.len(),
{
    if lines.len() == 0 {
        Seq::empty()
    } else {
        flat(lines.drop_last()) + lines.last()
    }
}

/// One more readable line is one more line read, as long as all before it
/// were readable.
pub proof fn lemma_readable_push(lines: Seq<Seq<u8>>, next: Seq<u8>)
    requires
        readable(lines).len() == lines.len(),
    ensures
        readable(lines.push(next)) == if valid_utf8(next) {
            readable(lines).push(decode_utf8(next))
        } else {
            readable(lines)
        },
    decreases lines.len(),
{
    let all = lines.push(next);
    if lines.len() == 0 {
        assert(all.drop_first() =~= Seq::<Seq<u8>>::empty());
        assert(all[0] == next);
        if valid_utf8(next) {
            assert(seq![decode_utf8(next)] + readable(all.drop_first()) =~= readable(lines).push(
                decode_utf8(next),
            ));
        }
    } else {
        assert(valid_utf8(lines[0]));
        assert(readable(lines.drop_first()).len() == lines.len() - 1);
        lemma_readable_push(lines.drop_first(), next);
        assert(all.drop_first() =~= lines.drop_first().push(next));
        assert(all[0] == lines[0]);
        if valid_utf8(next) {
            assert(seq![decode_utf8(lines[0])] + readable(lines.drop_first()).push(
                decode_utf8(next),
            ) =~= readable(lines).push(decode_utf8(next)));
        }
    }
}

/// Reading ends at the first line that cannot be read.
pub proof fn lemma_readable_stops(lines: Seq<Seq<u8>>, k: int)
    requires
        0 <= k < lines.len(),
        readable(lines.take(k)).len() == k,
        !valid_utf8(lines[k]),
    ensures
        readable(lines) == readable(lines.take(k)),
    decreases k,
{
    if k == 0 {
        assert(lines.take(0) =~= Seq::<Seq<u8>>::empty());
    } else {
        let head = lines.take(k);
        assert(head[0] == lines[0]);
        assert(valid_utf8(lines[0]));
        assert(head.drop_first() =~= lines.drop_first().take(k - 1));
        lemma_readable_stops(lines.drop_first(), k - 1);
    }
}

/// The lines of `content` that can be read, each with its line ending:
/// those before the first one that is not well-formed UTF-8.
pub fn readable_lines(content: &[u8]) -> (lines: Vec<String>)
    ensures
        crate::text::texts(lines@) == readable(raw_lines(content@)),
{
    let raw = split_lines(content);
    let ghost all = raw_lines(content@);
    let mut lines: Vec<String> = Vec::new();
    let mut idx: usize = 0;
    proof {
        assert(all.take(0) =~= Seq::<Seq<u8>>::empty());
        assert(crate::text::texts(lines@) =~= readable(all.take(0)));
    }
    while idx < raw.len()
        invariant
            idx <= raw.len() == all.len(),
            all == raw_lines(content@),
            byte_views(raw@) == all,
            lines@.len() == idx,
            crate::text::texts(lines@) == readable(all.take(idx as int)),
        decreases raw.len() - idx,
    {
        let ghost before = crate::text::texts(lines@);
        proof {
            assert(byte_views(raw@)[idx as int] == raw@[idx as int]@);
            lemma_readable_push(all.take(idx as int), all[idx as int]);
            assert(all.take(idx as int).push(all[idx as int]) =~= all.take(idx + 1));
        }
        match decode_strict(raw[idx]) {
            Some(line) => {
                lines.push(String::from_str(line));
                assert(crate::text::texts(lines@) =~= before.push(line@));
            },
            None => {
                proof {
                    lemma_readable_stops(all, idx as int);
                }
                return lines;
            },
        }
        idx += 1;
    }
    proof {
        assert(all.take(idx as int) =~= all);
    }
    lines
}

/// The lines that are well-formed UTF-8, in order and without their line
/// endings; the others are left out.
pub open spec fn whole_lines(lines: Seq<Option<Seq<char>>>) -> Seq<Seq<char>>
    decreases lines.len(),
{
    if lines.len() == 0 {
        Seq::empty()
    } else {
        match lines.last() {
            Some(t) => whole_lines(lines.drop_last()).push(chomped(t)),
            None => whole_lines(lines.drop_last()),
        }
    }
}

/// The lines of `content` that are well-formed UTF-8, without their line
/// endings.
pub fn lines_of(content: &[u8]) -> (lines: Vec<String>)
    ensures
        crate::text::texts(lines@) == whole_lines(text_lines(content@)),
{
    let read = read_lines(content);
    let ghost all = option_texts(read@);
    let mut lines: Vec<String> = Vec::new();
    let mut i: usize = 0;
    proof {
        assert(all.take(0) =~= Seq::<Option<Seq<char>>>::empty());
        assert(crate::text::texts(lines@) =~= whole_lines(all.take(0)));
    }
    while i < read.len()
        invariant
            i <= read.len() == all.len(),
            all == option_texts(read@),
            crate::text::texts(lines@) == whole_lines(all.take(i as int)),
        decreases read.len() - i,
    {
        let ghost before = crate::text::texts(lines@);
        proof {
            assert(all.take(i + 1).drop_last() =~= all.take(i as int));
            assert(all.take(i + 1).last() == all[i as int]);
        }
        if let Some(line) = &read[i] {
            let body = chomp(line.as_str());
            lines.push(body);
            assert(crate::text::texts(lines@) =~= before.push(chomped(line@)));
        }
        i += 1;
    }
    assert(all.take(read.len() as int) =~= all);
    lines
}

/// No more lines can be read than there are.
pub proof fn lemma_readable_len(lines: Seq<Seq<u8>>)
    ensures
        readable(lines).len() <= lines.len(),
    decreases lines.len(),
{
    if lines.len() > 0 && valid_utf8(lines[0]) {
        lemma_readable_len(lines.drop_first());
    }
}

/// Pieces written behind a first one.
proof fn lemma_flat_prepend<T>(head: Seq<T>, rest: Seq<Seq<T>>)
    ensures
        flat(seq![head] + rest) == head + flat(rest),
    decreases rest.len(),
{
    let all = seq![head] + rest;
    if rest.len() == 0 {
        assert(all.drop_last() =~= Seq::<Seq<T>>::empty());
        assert(flat(all.drop_last()) =~= Seq::<T>::empty());
        assert(all.last() == head);
        assert(flat(all) =~= head + flat(rest));
    } else {
        lemma_flat_prepend(head, rest.drop_last());
        assert(all.drop_last() =~= seq![head] + rest.drop_last());
        assert(all.last() == rest.last());
        assert(flat(all) =~= head + flat(rest));
    }
}

/// A line as a reader hands it out: it is not empty, and it holds a
/// newline at its end or nowhere.
pub open spec fn is_raw_line(line: Seq<u8>) -> bool {
    line.len() > 0 && first_index(line, NEWLINE) >= line.len() - 1
}

/// The lines of a text are the text cut into pieces: written one after the
/// other they give the text back, each of them is a line, and each but the
/// last ends with a newline.
pub proof fn law_lines_partition(bytes: Seq<u8>)
    ensures
        flat(raw_lines(bytes)) == bytes,
        forall|i: int|
            0 <= i < raw_lines(bytes).len() ==> is_raw_line(#[trigger] raw_lines(bytes)[i]),
        forall|i: int|
            0 <= i < raw_lines(bytes).len() - 1 ==> (#[trigger] raw_lines(bytes)[i]).last()
                == NEWLINE,
    decreases bytes.len(),
{
    let k = first_index(bytes, NEWLINE);
    crate::text::lemma_first_index_bounds(bytes, NEWLINE);
    let lines = raw_lines(bytes);
    if bytes.len() == 0 {
        assert(flat(lines) =~= bytes);
    } else if k < bytes.len() {
        let head = bytes.take(k + 1);
        let rest = bytes.skip(k + 1);
        law_lines_partition(rest);
        lemma_flat_prepend(head, raw_lines(rest));
        assert(head + rest =~= bytes);
        assert(is_raw_line(head)) by {
            assert forall|i: int| 0 <= i < k implies head[i] != NEWLINE by {
                assert(head[i] == bytes[i]);
            }
            lemma_first_index_is(head, NEWLINE, k);
        }
        assert forall|i: int| 0 <= i < lines.len() implies is_raw_line(#[trigger] lines[i]) by {
            if i > 0 {
                assert(lines[i] == raw_lines(rest)[i - 1]);
            }
        }
        assert forall|i: int| 0 <= i < lines.len() - 1 implies (#[trigger] lines[i]).last()
            == NEWLINE by {
            if i > 0 {
                assert(lines[i] == raw_lines(rest)[i - 1]);
            }
        }
    } else {
        lemma_flat_prepend(bytes, Seq::<Seq<u8>>::empty());
        assert(seq![bytes] + Seq::<Seq<u8>>::empty() =~= seq![bytes]);
        assert(flat(Seq::<Seq<u8>>::empty()) =~= Seq::<u8>::empty());
        assert(bytes + Seq::<u8>::empty() =~= bytes);
    }
}

} // verus!
