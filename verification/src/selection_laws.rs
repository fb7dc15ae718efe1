//! What holds of every selection, proved from the meaning that `cutr`
//! gives to ranges.

use crate::cutr::{clip_bounds, clipped, selected, selected_text};
use crate::text::read_text;
use std::ops::Range;
use vstd::prelude::*;
use vstd::utf8::{
    encode_utf8, encode_utf8_decode_utf8, encode_utf8_valid_utf8, is_ascii_chars,
    is_ascii_chars_encode_utf8,
};

verus! {

/// How many indices of `r` a sequence of length `len` has.
pub open spec fn indices_within(len: nat, r: Range<usize>) -> nat {
    if r.start < r.end && r.start < len {
        if r.end <= len {
            (r.end - r.start) as nat
        } else {
            (len - r.start) as nat
        }
    } else {
        0
    }
}

/// A range selects the elements at those of its indices that the sequence
/// has, in their order; an index past the end is passed over and is no
/// error.
pub proof fn law_out_of_bounds_dropped<T>(seq: Seq<T>, r: Range<usize>)
    ensures
        clipped(seq, r).len() == indices_within(seq.len(), r),
        forall|k: int|
            0 <= k < clipped(seq, r).len() ==> r.start + k < seq.len() && r.start + k < r.end
                && #[trigger] clipped(seq, r)[k] == seq[r.start + k],
{
}

/// Nothing is selected from an empty sequence.
pub proof fn law_nothing_from_empty<T>(ranges: Seq<Range<usize>>)
    ensures
        selected(Seq::<T>::empty(), ranges) == Seq::<T>::empty(),
    decreases ranges.len(),
{
    if ranges.len() > 0 {
        law_nothing_from_empty::<T>(ranges.drop_last());
        assert(selected(Seq::<T>::empty(), ranges) =~= Seq::<T>::empty());
    }
}

/// One range selects what it holds of the sequence.
pub proof fn law_one_range<T>(seq: Seq<T>, r: Range<usize>)
    ensures
        selected(seq, seq![r]) == clipped(seq, r),
{
    let one = seq![r];
    assert(one.drop_last() =~= Seq::<Range<usize>>::empty());
    assert(selected(seq, one.drop_last()) == Seq::<T>::empty());
    assert(selected(seq, one) =~= clipped(seq, r));
}

/// What is selected follows the order of the ranges, not that of the
/// indices: two lists of ranges select what the first selects, then what
/// the second selects.
pub proof fn law_selection_order<T>(seq: Seq<T>, a: Seq<Range<usize>>, b: Seq<Range<usize>>)
    ensures
        selected(seq, a + b) == selected(seq, a) + selected(seq, b),
    decreases b.len(),
{
    if b.len() == 0 {
        assert(a + b =~= a);
        assert(selected(seq, a) + selected(seq, b) =~= selected(seq, a));
    } else {
        law_selection_order(seq, a, b.drop_last());
        assert((a + b).drop_last() =~= a + b.drop_last());
        assert((a + b).last() == b.last());
        assert(selected(seq, a + b) =~= selected(seq, a) + selected(seq, b));
    }
}

/// Characters are counted by code point: the first position selects the
/// first character whole, however many bytes encode it.
pub proof fn law_first_character(line: Seq<char>)
    requires
        line.len() > 0,
    ensures
        selected(line, seq![Range { start: 0usize, end: 1usize }]) == seq![line[0]],
{
    let r = Range { start: 0usize, end: 1usize };
    law_one_range(line, r);
    assert(clipped(line, r) =~= seq![line[0]]);
}

/// Bytes are counted by offset: one range that lies within the text
/// selects the bytes between its offsets, which are then read as text by
/// themselves, whether or not they begin and end with a character.
pub proof fn law_bytes_by_offset(bytes: Seq<u8>, r: Range<usize>)
    requires
        r.start < r.end <= bytes.len(),
    ensures
        selected_text(bytes, seq![r]) == read_text(bytes.subrange(r.start as int, r.end as int)),
{
    let one = seq![r];
    assert(one.drop_last() =~= Seq::<Range<usize>>::empty());
    assert(selected_text(bytes, one.drop_last()) == Seq::<char>::empty());
    assert(selected_text(bytes, one) =~= read_text(clipped(bytes, r)));
}

/// Bytes that are well-formed UTF-8 are read as the text they encode.
pub proof fn law_whole_text(chars: Seq<char>)
    ensures
        read_text(encode_utf8(chars)) == chars,
{
    encode_utf8_valid_utf8(chars);
    encode_utf8_decode_utf8(chars);
}

/// The encoding of two texts in a row is the encoding of the first, then
/// that of the second.
pub proof fn lemma_encode_concat(a: Seq<char>, b: Seq<char>)
    ensures
        encode_utf8(a + b) == encode_utf8(a) + encode_utf8(b),
    decreases a.len(),
{
    if a.len() == 0 {
        assert(a + b =~= b);
        assert(encode_utf8(a) + encode_utf8(b) =~= encode_utf8(b));
    } else {
        lemma_encode_concat(a.drop_first(), b);
        assert((a + b).drop_first() =~= a.drop_first() + b);
        assert((a + b)[0] == a[0]);
        assert(encode_utf8(a + b) =~= encode_utf8(a) + encode_utf8(b));
    }
}

/// A range of bytes that begins and ends between characters selects the
/// characters between its offsets, whole: in the encoding of `before`,
/// `within` and `after` in a row, the offsets of `within` select `within`.
pub proof fn law_whole_characters(
    before: Seq<char>,
    within: Seq<char>,
    after: Seq<char>,
    r: Range<usize>,
)
    requires
        r.start == encode_utf8(before).len(),
        r.end == r.start + encode_utf8(within).len(),
    ensures
        selected_text(encode_utf8(before + within + after), seq![r]) == within,
{
    let bytes = encode_utf8(before + within + after);
    lemma_encode_concat(before + within, after);
    lemma_encode_concat(before, within);
    law_whole_text(within);
    law_whole_text(Seq::<char>::empty());
    assert(encode_utf8(Seq::<char>::empty()) =~= Seq::<u8>::empty());
    let one = seq![r];
    assert(one.drop_last() =~= Seq::<Range<usize>>::empty());
    assert(selected_text(bytes, one.drop_last()) == Seq::<char>::empty());
    if r.start < r.end {
        assert(clipped(bytes, r) =~= encode_utf8(within));
    } else {
        assert(encode_utf8(within) =~= Seq::<u8>::empty());
        assert(clipped(bytes, r) =~= encode_utf8(within));
        law_whole_text(within);
    }
    assert(selected_text(bytes, one) =~= within);
}

/// A range that begins at or past the end of the bytes adds nothing to
/// what the ranges before it select.
pub proof fn law_bytes_past_end(bytes: Seq<u8>, ranges: Seq<Range<usize>>, r: Range<usize>)
    requires
        bytes.len() <= r.start,
    ensures
        selected_text(bytes, ranges.push(r)) == selected_text(bytes, ranges),
{
    law_whole_text(Seq::<char>::empty());
    assert(encode_utf8(Seq::<char>::empty()) =~= Seq::<u8>::empty());
    assert(clipped(bytes, r) =~= Seq::<u8>::empty());
    assert(ranges.push(r).drop_last() =~= ranges);
    assert(selected_text(bytes, ranges.push(r)) =~= selected_text(bytes, ranges));
}

/// Two lists of ranges select from bytes what the first selects, then what
/// the second selects.
pub proof fn law_byte_selection_order(bytes: Seq<u8>, a: Seq<Range<usize>>, b: Seq<Range<usize>>)
    ensures
        selected_text(bytes, a + b) == selected_text(bytes, a) + selected_text(bytes, b),
    decreases b.len(),
{
    if b.len() == 0 {
        assert(a + b =~= a);
        assert(selected_text(bytes, a) + selected_text(bytes, b) =~= selected_text(bytes, a));
    } else {
        law_byte_selection_order(bytes, a, b.drop_last());
        assert((a + b).drop_last() =~= a + b.drop_last());
        assert((a + b).last() == b.last());
        assert(selected_text(bytes, a + b) =~= selected_text(bytes, a) + selected_text(bytes, b));
    }
}

/// On a text of one-byte characters a range selects the same by bytes as
/// by characters.
proof fn lemma_ascii_clipped(line: Seq<char>, r: Range<usize>)
    requires
        is_ascii_chars(line),
    ensures
        read_text(clipped(encode_utf8(line), r)) == clipped(line, r),
{
    let bytes = encode_utf8(line);
    let part = clipped(line, r);
    is_ascii_chars_encode_utf8(line);
    assert(is_ascii_chars(part));
    is_ascii_chars_encode_utf8(part);
    let lo = clip_bounds(line.len(), r).0;
    assert forall|i: int| 0 <= i < part.len() implies clipped(bytes, r)[i] == encode_utf8(
        part,
    )[i] by {
        assert(part[i] == line[lo + i]);
        assert(clipped(bytes, r)[i] == bytes[lo + i]);
    }
    assert(clipped(bytes, r) =~= encode_utf8(part));
    law_whole_text(part);
}

/// On a text of one-byte characters, offsets in bytes and indices of
/// characters are the same thing: ranges select the same text either way.
pub proof fn law_ascii_bytes_are_characters(line: Seq<char>, ranges: Seq<Range<usize>>)
    requires
        is_ascii_chars(line),
    ensures
        selected_text(encode_utf8(line), ranges) == selected(line, ranges),
    decreases ranges.len(),
{
    if ranges.len() > 0 {
        law_ascii_bytes_are_characters(line, ranges.drop_last());
        lemma_ascii_clipped(line, ranges.last());
    }
}

} // verus!
